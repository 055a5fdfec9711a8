//! Lists of node identifiers: search, and removal of repetitions.

use vstd::prelude::*;
use crate::protocol::{distinct, position};
use crate::types::NodeId;

verus! {

/// `position` is the index of the first occurrence, or the length where there is none.
pub proof fn lemma_position(s: Seq<NodeId>, x: NodeId)
    ensures
        0 <= position(s, x) <= s.len(),
        position(s, x) < s.len() ==> s[position(s, x)] == x,
        position(s, x) < s.len() <==> s.contains(x),
        forall|j: int| 0 <= j < position(s, x) ==> s[j] != x,
    decreases s.len(),
{
    if s.len() > 0 && s[0] != x {
        let t = s.drop_first();
        lemma_position(t, x);
        assert forall|j: int| 0 <= j < position(s, x) implies s[j] != x by {
            if j > 0 {
                assert(t[j - 1] == s[j]);
            }
        }
        if position(t, x) < t.len() {
            assert(s[position(t, x) + 1] == t[position(t, x)]);
        }
        if s.contains(x) {
            let j = choose|j: int| 0 <= j < s.len() && s[j] == x;
            assert(t[j - 1] == x);
        }
    }
}

/// In a list without repetitions, a value's position is the index where it stands.
pub proof fn lemma_position_unique(s: Seq<NodeId>, k: int)
    requires
        s.no_duplicates(),
        0 <= k < s.len(),
    ensures
        position(s, s[k]) == k,
{
    lemma_position(s, s[k]);
}

/// `distinct` keeps exactly the values of the list, each once.
pub proof fn lemma_distinct(s: Seq<NodeId>)
    ensures
        distinct(s).no_duplicates(),
        distinct(s).len() <= s.len(),
        forall|x: NodeId| distinct(s).contains(x) <==> s.contains(x),
    decreases s.len(),
{
    if s.len() > 0 {
        let t = s.drop_last();
        let d = distinct(t);
        lemma_distinct(t);
        assert forall|x: NodeId| distinct(s).contains(x) <==> s.contains(x) by {
            if s.contains(x) {
                let j = choose|j: int| 0 <= j < s.len() && s[j] == x;
                if j < s.len() - 1 {
                    assert(t[j] == x);
                    assert(t.contains(x));
                    assert(d.contains(x));
                    let i = choose|i: int| 0 <= i < d.len() && d[i] == x;
                    assert(distinct(s)[i] == x);
                } else if !d.contains(s.last()) {
                    assert(distinct(s)[d.len() as int] == x);
                }
            }
            if distinct(s).contains(x) {
                let i = choose|i: int| 0 <= i < distinct(s).len() && distinct(s)[i] == x;
                if i < d.len() {
                    assert(d[i] == x);
                    assert(d.contains(x));
                    assert(t.contains(x));
                    let j = choose|j: int| 0 <= j < t.len() && t[j] == x;
                    assert(s[j] == x);
                } else {
                    assert(s[s.len() - 1] == x);
                }
            }
        }
    }
}

/// The index of the first occurrence of `x` in `ids`, or the length where there is none.
pub fn find(ids: &Vec<NodeId>, x: NodeId) -> (r: usize)
    ensures
        r == position(ids@, x),
        r <= ids.len(),
        r < ids.len() <==> ids@.contains(x),
        r < ids.len() ==> ids@[r as int] == x,
{
    let mut i: usize = 0;
    assert(ids@.subrange(0, ids.len() as int) =~= ids@);
    while i < ids.len()
        invariant
            i <= ids.len(),
            position(ids@, x) == i + position(ids@.subrange(i as int, ids.len() as int), x),
        decreases ids.len() - i,
    {
        let ghost rest = ids@.subrange(i as int, ids.len() as int);
        assert(rest[0] == ids@[i as int]);
        if ids[i] == x {
            proof {
                lemma_position(ids@, x);
            }
            return i;
        }
        assert(rest.drop_first() =~= ids@.subrange(i + 1, ids.len() as int));
        i += 1;
    }
    proof {
        lemma_position(ids@, x);
    }
    i
}

/// Whether `x` occurs in `ids`.
pub fn contains(ids: &Vec<NodeId>, x: NodeId) -> (r: bool)
    ensures
        r == ids@.contains(x),
{
    find(ids, x) < ids.len()
}

/// The identifiers of `ids` in their order, each at its first occurrence only.
pub fn dedup(ids: &Vec<NodeId>) -> (r: Vec<NodeId>)
    ensures
        r@ == distinct(ids@),
        r@.no_duplicates(),
{
    let mut out: Vec<NodeId> = Vec::new();
    let mut i: usize = 0;
    assert(ids@.subrange(0, 0) =~= Seq::empty());
    while i < ids.len()
        invariant
            i <= ids.len(),
            out@ == distinct(ids@.subrange(0, i as int)),
        decreases ids.len() - i,
    {
        let x = ids[i];
        assert(ids@.subrange(0, i + 1).drop_last() =~= ids@.subrange(0, i as int));
        if !contains(&out, x) {
            out.push(x);
        }
        i += 1;
    }
    proof {
        assert(ids@.subrange(0, ids.len() as int) =~= ids@);
        lemma_distinct(ids@);
    }
    out
}

} // verus!
