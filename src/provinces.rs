use vstd::prelude::*;
use vstd::string::StringExecFns;

verus! {

/// Disjoint groups of named cities. Each city points at the city that stands for
/// its group, and that city points at itself.
pub struct UnionFind {
    names: Vec<String>,
    parent: Vec<usize>,
}

/// How many of the first `n` entries of `parent` point at themselves.
pub open spec fn root_count(parent: Seq<usize>, n: nat) -> nat
    decreases n,
{
    if n == 0 {
        0
    } else {
        root_count(parent, (n - 1) as nat) + (if parent[n - 1] == (n - 1) as usize {
            1nat
        } else {
            0nat
        })
    }
}

/// Where `union` of groups `from` into `to` leaves a city's pointer.
pub open spec fn merged(p: usize, from: usize, to: usize) -> usize {
    if p == from {
        to
    } else {
        p
    }
}

/// `ks` with `x` added at the end if it is not there yet.
pub open spec fn with_key(ks: Seq<Seq<char>>, x: Seq<char>) -> Seq<Seq<char>> {
    if ks.contains(x) {
        ks
    } else {
        ks.push(x)
    }
}

/// Where city `i` pointed before a call that found the pointers `l`: a city added
/// by the call pointed at itself.
pub open spec fn link_before(l: Seq<usize>, i: int) -> int {
    if i < l.len() {
        l[i] as int
    } else {
        i
    }
}

impl UnionFind {
    /// The city names, in the order they were added.
    pub closed spec fn keys(&self) -> Seq<Seq<char>> {
        self.names@.map_values(|s: String| s@)
    }

    /// For each city, the position of the city that stands for its group.
    pub closed spec fn links(&self) -> Seq<usize> {
        self.parent@
    }

    pub closed spec fn wf(&self) -> bool {
        &&& self.names@.len() == self.parent@.len()
        &&& forall|i: int|
            0 <= i < self.parent@.len() ==> #[trigger] self.parent@[i] < self.parent@.len()
                && self.parent@[self.parent@[i] as int] == self.parent@[i]
        &&& forall|i: int, j: int|
            0 <= i < j < self.names@.len() ==> #[trigger] self.names@[i]@ != #[trigger] self.names@[j]@
    }

    /// An empty set of cities.
    pub fn new() -> (r: Self)
        ensures
            r.wf(),
            r.keys().len() == 0,
    {
        UnionFind { names: Vec::new(), parent: Vec::new() }
    }

    /// Where city `x` stands, if it is known.
    pub fn position(&self, x: &str) -> (r: Option<usize>)
        requires
            self.wf(),
        ensures
            r matches Some(i) ==> i < self.keys().len() && self.keys()[i as int] == x@,
            r is None ==> !self.keys().contains(x@),
    {
        let xs = String::from_str(x);
        let mut i: usize = 0;
        while i < self.names.len()
            invariant
                self.wf(),
                xs@ == x@,
                i <= self.names@.len(),
                forall|k: int| 0 <= k < i ==> self.names@[k]@ != x@,
            decreases self.names@.len() - i,
        {
            if self.names[i] == xs {
                assert(self.keys()[i as int] == self.names@[i as int]@);
                return Some(i);
            }
            i = i + 1;
        }
        assert forall|k: int| 0 <= k < self.keys().len() implies self.keys()[k] != x@ by {
            assert(self.keys()[k] == self.names@[k]@);
        }
        None
    }

    /// Adds city `x` as a group of its own, unless it is known already.
    pub fn add(&mut self, x: String)
        requires
            old(self).wf(),
        ensures
            final(self).wf(),
            final(self).keys().contains(x@),
            old(self).keys().len() <= final(self).keys().len(),
            final(self).links().len() == final(self).keys().len(),
            forall|i: int| 0 <= i < old(self).keys().len() ==> #[trigger] final(self).keys()[i] == old(self).keys()[i],
            forall|i: int| 0 <= i < old(self).links().len() ==> #[trigger] final(self).links()[i] == old(self).links()[i],
            forall|i: int| old(self).links().len() <= i < final(self).links().len() ==> #[trigger] final(self).links()[i] == i,
            final(self).keys() == with_key(old(self).keys(), x@),
            old(self).keys().contains(x@) ==> *final(self) == *old(self),
            !old(self).keys().contains(x@) ==> final(self).keys() == old(self).keys().push(x@)
                && final(self).links() == old(self).links().push(old(self).links().len() as usize),
    {
        if self.position(x.as_str()).is_none() {
            let n = self.names.len();
            let ghost old_keys = self.keys();
            let ghost xv = x@;
            self.names.push(x);
            self.parent.push(n);
            assert(self.keys() =~= old_keys.push(xv));
            assert(self.keys()[n as int] == xv);
            assert forall|i: int, j: int| 0 <= i < j < self.names@.len() implies #[trigger] self.names@[i]@
                != #[trigger] self.names@[j]@ by {
                if j == n {
                    assert(old_keys[i] == self.names@[i]@);
                }
            }
        }
    }

    /// The name of the city that stands for the group of `x`.
    pub fn find(&self, x: &str) -> (r: String)
        requires
            self.wf(),
            self.keys().contains(x@),
        ensures
            exists|i: int|
                0 <= i < self.keys().len() && self.keys()[i] == x@ && r@ == self.keys()[
                    self.links()[i] as int],
    {
        match self.position(x) {
            Some(i) => {
                let r = self.names[self.parent[i]].clone();
                assert(self.keys()[self.parent@[i as int] as int] == self.names@[self.parent@[
                    i as int] as int]@);
                assert(self.links()[i as int] == self.parent@[i as int]);
                assert(0 <= i < self.keys().len() && self.keys()[i as int] == x@ && r@ == self.keys()[
                    self.links()[i as int] as int]);
                r
            },
            None => String::new(),
        }
    }

    /// Moves every city of the group led by `from` into the group led by `to`.
    fn relabel(&mut self, from: usize, to: usize)
        requires
            old(self).wf(),
            from < old(self).parent@.len(),
            to < old(self).parent@.len(),
            old(self).parent@[from as int] == from,
            old(self).parent@[to as int] == to,
        ensures
            final(self).wf(),
            final(self).names@ == old(self).names@,
            final(self).links().len() == old(self).links().len(),
            forall|k: int|
                0 <= k < old(self).links().len() ==> #[trigger] final(self).links()[k] == merged(
                    old(self).links()[k],
                    from,
                    to,
                ),
    {
        let ghost start = self.parent@;
        let ghost start_names = self.names@;
        let n = self.parent.len();
        let mut k: usize = 0;
        while k < n
            invariant
                n == start.len(),
                self.names@ == start_names,
                self.parent@.len() == n,
                self.names@.len() == n,
                from < n,
                to < n,
                start[from as int] == from,
                start[to as int] == to,
                k <= n,
                forall|i: int| 0 <= i < n ==> #[trigger] start[i] < n && start[start[i] as int] == start[i],
                forall|i: int, j: int|
                    0 <= i < j < self.names@.len() ==> #[trigger] self.names@[i]@ != #[trigger] self.names@[j]@,
                forall|i: int| 0 <= i < k ==> #[trigger] self.parent@[i] == merged(start[i], from, to),
                forall|i: int| k <= i < n ==> #[trigger] self.parent@[i] == start[i],
            decreases n - k,
        {
            if self.parent[k] == from {
                self.parent.set(k, to);
            }
            k = k + 1;
        }
        assert forall|i: int| 0 <= i < self.parent@.len() implies #[trigger] self.parent@[i] < self.parent@.len()
            && self.parent@[self.parent@[i] as int] == self.parent@[i] by {
            assert(self.parent@[start[i] as int] == merged(start[start[i] as int], from, to));
            assert(self.parent@[to as int] == to);
        }
    }

    /// Joins the groups of `x` and `y`, adding either city first if it is new.
    pub fn union(&mut self, x: &str, y: &str)
        requires
            old(self).wf(),
        ensures
            final(self).wf(),
            final(self).keys().contains(x@),
            final(self).keys().contains(y@),
            forall|i: int, j: int|
                0 <= i < final(self).keys().len() && 0 <= j < final(self).keys().len() && final(self).keys()[i]
                    == x@ && final(self).keys()[j] == y@ ==> final(self).links()[i] == final(self).links()[j],
            forall|i: int, j: int|
                0 <= i < old(self).links().len() && 0 <= j < old(self).links().len() && old(self).links()[i]
                    == old(self).links()[j] ==> final(self).links()[i] == final(self).links()[j],
            final(self).keys() == with_key(with_key(old(self).keys(), x@), y@),
            forall|i: int, j: int|
                0 <= i < final(self).links().len() && 0 <= j < final(self).links().len() && final(self).links()[i]
                    == final(self).links()[j] ==> link_before(old(self).links(), i) == link_before(
                    old(self).links(),
                    j,
                ) || exists|a: int, b: int|
                    0 <= a < final(self).keys().len() && 0 <= b < final(self).keys().len() && final(self).keys()[a]
                        == x@ && final(self).keys()[b] == y@ && ((link_before(old(self).links(), i)
                        == link_before(old(self).links(), a) && link_before(old(self).links(), j)
                        == link_before(old(self).links(), b)) || (link_before(old(self).links(), i)
                        == link_before(old(self).links(), b) && link_before(old(self).links(), j)
                        == link_before(old(self).links(), a))),
    {
        let ghost l0 = self.links();
        self.add(String::from_str(x));
        let ghost k1 = self.keys();
        self.add(String::from_str(y));
        assert(self.keys().contains(x@)) by {
            let w = choose|w: int| 0 <= w < k1.len() && k1[w] == x@;
            assert(self.keys()[w] == x@);
        }
        assert forall|i: int| 0 <= i < l0.len() implies #[trigger] self.links()[i] == l0[i] by {}
        let ix = match self.position(x) {
            Some(i) => i,
            None => {
                return;
            },
        };
        let iy = match self.position(y) {
            Some(i) => i,
            None => {
                return;
            },
        };
        let rx = self.parent[ix];
        let ry = self.parent[iy];
        let ghost before = self.parent@;
        assert forall|i: int| 0 <= i < before.len() implies #[trigger] before[i] as int == link_before(l0, i) by {
            if i >= k1.len() {
            } else if i >= l0.len() {
            }
        }
        if rx != ry {
            self.relabel(ry, rx);
        }
        proof {
            assert forall|i: int, j: int|
                0 <= i < self.links().len() && 0 <= j < self.links().len() && self.links()[i]
                    == self.links()[j] && link_before(l0, i) != link_before(l0, j) implies exists|a: int, b: int|
                    0 <= a < self.keys().len() && 0 <= b < self.keys().len() && self.keys()[a]
                        == x@ && self.keys()[b] == y@ && ((link_before(l0, i)
                        == link_before(l0, a) && link_before(l0, j)
                        == link_before(l0, b)) || (link_before(l0, i)
                        == link_before(l0, b) && link_before(l0, j)
                        == link_before(l0, a))) by {
                assert(before[i] as int == link_before(l0, i));
                assert(before[j] as int == link_before(l0, j));
                assert(before[ix as int] as int == link_before(l0, ix as int));
                assert(before[iy as int] as int == link_before(l0, iy as int));
                assert(self.keys()[ix as int] == x@ && self.keys()[iy as int] == y@);
            }
            assert forall|i: int, j: int|
                0 <= i < self.keys().len() && 0 <= j < self.keys().len() && self.keys()[i] == x@
                    && self.keys()[j] == y@ implies self.links()[i] == self.links()[j] by {
                if i != ix as int {
                    assert(self.names@[i]@ == self.names@[ix as int]@);
                }
                if j != iy as int {
                    assert(self.names@[j]@ == self.names@[iy as int]@);
                }
            }
        }
    }

    /// How many groups there are.
    pub fn count_components(&self) -> (r: usize)
        requires
            self.wf(),
        ensures
            r == root_count(self.links(), self.links().len()),
    {
        let mut count: usize = 0;
        let mut i: usize = 0;
        while i < self.parent.len()
            invariant
                i <= self.parent@.len(),
                count == root_count(self.parent@, i as nat),
                count <= i,
            decreases self.parent@.len() - i,
        {
            if self.parent[i] == i {
                count = count + 1;
            }
            i = i + 1;
        }
        count
    }
}

} // verus!
