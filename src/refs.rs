use vstd::prelude::*;

verus! {

/// The adjacency list `s` without the indices that `gone` selects, order kept.
pub open spec fn kept_refs(s: Seq<usize>, gone: spec_fn(usize) -> bool) -> Seq<usize> {
    s.filter(|y: usize| !gone(y))
}

/// Selects exactly the index `x`.
pub open spec fn same_index(x: usize) -> spec_fn(usize) -> bool {
    |y: usize| y == x
}

/// Selects the in-range indices whose flag in `d` is set.
pub open spec fn flagged_in(d: Seq<bool>) -> spec_fn(usize) -> bool {
    |y: usize| y < d.len() && d[y as int]
}

/// Filtering a sequence extended by one element.
pub proof fn lemma_kept_push(s: Seq<usize>, a: usize, gone: spec_fn(usize) -> bool)
    ensures
        kept_refs(s.push(a), gone) == if gone(a) {
            kept_refs(s, gone)
        } else {
            kept_refs(s, gone).push(a)
        },
{
    reveal(Seq::filter);
    assert(s.push(a).drop_last() =~= s);
    assert(s.push(a).last() == a);
}

/// Membership in a filtered list.
pub proof fn lemma_kept_contains(s: Seq<usize>, gone: spec_fn(usize) -> bool, x: usize)
    ensures
        kept_refs(s, gone).contains(x) <==> s.contains(x) && !gone(x),
    decreases s.len(),
{
    if s.len() > 0 {
        let t = s.drop_last();
        lemma_kept_contains(t, gone, x);
        assert(t.push(s.last()) =~= s);
        lemma_kept_push(t, s.last(), gone);
        if s.contains(x) && !gone(x) {
            let k = choose|k: int| 0 <= k < s.len() && s[k] == x;
            if k < t.len() {
                assert(t[k] == x);
            }
        }
        if t.contains(x) {
            let k = choose|k: int| 0 <= k < t.len() && t[k] == x;
            assert(s[k] == x);
        }
    }
}

/// Filtering keeps a list free of duplicates.
pub proof fn lemma_kept_no_duplicates(s: Seq<usize>, gone: spec_fn(usize) -> bool)
    requires
        s.no_duplicates(),
    ensures
        kept_refs(s, gone).no_duplicates(),
    decreases s.len(),
{
    if s.len() > 0 {
        let t = s.drop_last();
        assert(t.push(s.last()) =~= s);
        lemma_kept_no_duplicates(t, gone);
        lemma_kept_push(t, s.last(), gone);
        lemma_kept_contains(t, gone, s.last());
        if t.contains(s.last()) {
            let k = choose|k: int| 0 <= k < t.len() && t[k] == s.last();
            assert(s[k] == s[s.len() - 1]);
        }
    }
}

/// Filtering an empty list gives an empty list.
pub proof fn lemma_kept_empty(gone: spec_fn(usize) -> bool)
    ensures
        kept_refs(Seq::<usize>::empty(), gone) == Seq::<usize>::empty(),
{
    reveal(Seq::filter);
}

/// A copy of `list` without the in-range indices flagged in `doomed`.
pub fn kept_list(list: &Vec<usize>, doomed: &Vec<bool>) -> (r: Vec<usize>)
    ensures
        r@ == kept_refs(list@, flagged_in(doomed@)),
{
    let mut r: Vec<usize> = Vec::new();
    let mut i: usize = 0;
    while i < list.len()
        invariant
            i <= list@.len(),
            r@ == kept_refs(list@.subrange(0, i as int), flagged_in(doomed@)),
        decreases list@.len() - i,
    {
        let y = list[i];
        proof {
            assert(list@.subrange(0, i + 1) =~= list@.subrange(0, i as int).push(y));
            lemma_kept_push(list@.subrange(0, i as int), y, flagged_in(doomed@));
        }
        if !(y < doomed.len() && doomed[y]) {
            r.push(y);
        }
        i = i + 1;
    }
    assert(list@.subrange(0, list@.len() as int) =~= list@);
    r
}

} // verus!

verus! {

/// Whether `list` holds `x`.
pub fn list_contains(list: &Vec<usize>, x: usize) -> (r: bool)
    ensures
        r == list@.contains(x),
{
    let mut i: usize = 0;
    while i < list.len()
        invariant
            i <= list@.len(),
            forall|k: int| 0 <= k < i ==> list@[k] != x,
        decreases list@.len() - i,
    {
        if list[i] == x {
            return true;
        }
        i = i + 1;
    }
    false
}

} // verus!
