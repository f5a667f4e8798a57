use algo_exercises::provinces::UnionFind;

#[test]
fn union_find_counts_groups() {
    let mut uf = UnionFind::new();
    for city in ["a", "b", "c", "d"] {
        uf.add(city.to_string());
    }
    assert_eq!(uf.count_components(), 4);
    uf.union("a", "b");
    uf.union("c", "d");
    assert_eq!(uf.count_components(), 2);
    assert_eq!(uf.find("a"), uf.find("b"));
    assert_ne!(uf.find("a"), uf.find("c"));
    uf.union("b", "c");
    assert_eq!(uf.count_components(), 1);
    assert_eq!(uf.find("d"), uf.find("a"));
}

#[test]
fn union_adds_unknown_cities() {
    let mut uf = UnionFind::new();
    uf.union("x", "y");
    uf.add("z".to_string());
    uf.add("x".to_string());
    assert_eq!(uf.count_components(), 2);
    assert_eq!(uf.position("y"), Some(1));
    assert_eq!(uf.position("w"), None);
}

#[test]
fn union_with_itself_keeps_one_group() {
    let mut uf = UnionFind::new();
    uf.union("x", "x");
    assert_eq!(uf.count_components(), 1);
    assert_eq!(uf.find("x"), "x");
}
