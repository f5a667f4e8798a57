use crate::text::{chars_of, same_chars};
use vstd::prelude::*;

verus! {

/// The pieces of `s` between commas, as `str::split(',')` gives them: one more than
/// there are commas, empty pieces included.
pub open spec fn pieces(s: Seq<char>) -> Seq<Seq<char>>
    decreases s.len(),
{
    if s.len() == 0 {
        seq![Seq::<char>::empty()]
    } else {
        let p = pieces(s.drop_last());
        if s.last() == ',' {
            p.push(Seq::<char>::empty())
        } else {
            p.update(p.len() - 1, p.last().push(s.last()))
        }
    }
}

pub open spec fn views(v: Seq<Vec<char>>) -> Seq<Seq<char>> {
    v.map_values(|x: Vec<char>| x@)
}

proof fn lemma_pieces_nonempty(s: Seq<char>)
    ensures
        pieces(s).len() >= 1,
    decreases s.len(),
{
    if s.len() > 0 {
        lemma_pieces_nonempty(s.drop_last());
    }
}

/// The comma-separated pieces of `s`.
fn split_commas(s: &Vec<char>) -> (r: Vec<Vec<char>>)
    ensures
        views(r@) == pieces(s@),
{
    let mut parts: Vec<Vec<char>> = Vec::new();
    let mut cur: Vec<char> = Vec::new();
    let mut i: usize = 0;
    assert(s@.subrange(0, 0) =~= Seq::<char>::empty());
    assert(views(parts@).push(cur@) =~= pieces(s@.subrange(0, 0)));
    while i < s.len()
        invariant
            i <= s@.len(),
            views(parts@).push(cur@) == pieces(s@.subrange(0, i as int)),
        decreases s@.len() - i,
    {
        let ghost pre = s@.subrange(0, i as int);
        let ghost post = s@.subrange(0, i as int + 1);
        assert(post.drop_last() =~= pre);
        assert(post.last() == s@[i as int]);
        proof {
            lemma_pieces_nonempty(pre);
        }
        let c = s[i];
        if c == ',' {
            let done = cur;
            parts.push(done);
            cur = Vec::new();
            assert(views(parts@).push(cur@) =~= pieces(post));
        } else {
            cur.push(c);
            assert(views(parts@).push(cur@) =~= pieces(post));
        }
        i = i + 1;
    }
    parts.push(cur);
    assert(s@.subrange(0, s@.len() as int) =~= s@);
    assert(views(parts@) =~= pieces(s@));
    parts
}

fn holds_piece(list: &Vec<Vec<char>>, p: &Vec<char>) -> (r: bool)
    ensures
        r == views(list@).contains(p@),
{
    let mut i: usize = 0;
    while i < list.len()
        invariant
            i <= list@.len(),
            forall|k: int| 0 <= k < i ==> list@[k]@ != p@,
        decreases list@.len() - i,
    {
        if same_chars(&list[i], p) {
            assert(views(list@)[i as int] == p@);
            return true;
        }
        i = i + 1;
    }
    assert forall|k: int| 0 <= k < views(list@).len() implies views(list@)[k] != p@ by {
        assert(views(list@)[k] == list@[k]@);
    }
    false
}

/// How many different comma-separated pieces `input_str` holds.
pub fn new_count_distinct(input_str: &str) -> (r: usize)
    ensures
        r == pieces(input_str@).to_set().len(),
{
    let s = chars_of(input_str);
    let parts = split_commas(&s);
    let ghost all = views(parts@);
    let mut uniq: Vec<Vec<char>> = Vec::new();
    let mut i: usize = 0;
    assert(views(uniq@).to_set() =~= all.subrange(0, 0).to_set());
    while i < parts.len()
        invariant
            i <= parts@.len(),
            all == views(parts@),
            views(uniq@).no_duplicates(),
            views(uniq@).to_set() == all.subrange(0, i as int).to_set(),
        decreases parts@.len() - i,
    {
        let ghost before = views(uniq@);
        assert(all.subrange(0, i as int + 1) =~= all.subrange(0, i as int).push(all[i as int]));
        proof {
            all.subrange(0, i as int).lemma_push_to_set_commute(all[i as int]);
        }
        if !holds_piece(&uniq, &parts[i]) {
            uniq.push(parts[i].clone());
            assert(views(uniq@) =~= before.push(all[i as int]));
            proof {
                before.lemma_push_to_set_commute(all[i as int]);
                assert(views(uniq@).no_duplicates()) by {
                    assert forall|a: int, b: int|
                        0 <= a < views(uniq@).len() && 0 <= b < views(uniq@).len() && a != b implies
                        views(uniq@)[a] != views(uniq@)[b] by {
                        if a == before.len() as int {
                            assert(views(uniq@)[b] == before[b]);
                            assert(before[b] != all[i as int]);
                        } else if b == before.len() as int {
                            assert(views(uniq@)[a] == before[a]);
                            assert(before[a] != all[i as int]);
                        } else {
                            assert(views(uniq@)[a] == before[a]);
                            assert(views(uniq@)[b] == before[b]);
                        }
                    }
                }
            }
        } else {
            assert(before.to_set().contains(all[i as int]));
            assert(views(uniq@).to_set() =~= all.subrange(0, i as int + 1).to_set());
        }
        i = i + 1;
    }
    assert(all.subrange(0, parts@.len() as int) =~= all);
    proof {
        views(uniq@).unique_seq_to_set();
    }
    uniq.len()
}

} // verus!
