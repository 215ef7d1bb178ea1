//! Stable ordering of keyed positions.

use std::cmp::Reverse;
use vstd::prelude::*;

verus! {

/// Whether an entry with the key `a` may stand before one with the key `b`.
pub open spec fn in_order(a: u64, b: u64, descending: bool) -> bool {
    if descending {
        a >= b
    } else {
        a <= b
    }
}

/// `s`, which is in order, with `x` put behind all entries that may stand
/// before it.
pub open spec fn inserted(s: Seq<(u64, usize)>, x: (u64, usize), descending: bool) -> Seq<
    (u64, usize),
>
    decreases s.len(),
{
    if s.len() == 0 {
        seq![x]
    } else if in_order(s.last().0, x.0, descending) {
        s.push(x)
    } else {
        inserted(s.drop_last(), x, descending).push(s.last())
    }
}

/// The entries of `s` ordered by their keys, ascending or descending;
/// entries with equal keys keep the order they have in `s`.
pub open spec fn stable_sorted(s: Seq<(u64, usize)>, descending: bool) -> Seq<(u64, usize)>
    decreases s.len(),
{
    if s.len() == 0 {
        Seq::empty()
    } else {
        inserted(stable_sorted(s.drop_last(), descending), s.last(), descending)
    }
}

/// Whether the entry `a` has its place before the entry `b`: by key, and
/// among equal keys by the place that the entry names.
pub open spec fn comes_before(a: (u64, usize), b: (u64, usize), descending: bool) -> bool {
    if a.0 == b.0 {
        a.1 < b.1
    } else {
        in_order(a.0, b.0, descending)
    }
}

/// Whether each entry of `s` has its place before all that follow it.
pub open spec fn ordered(s: Seq<(u64, usize)>, descending: bool) -> bool {
    forall|i: int, j: int| 0 <= i < j < s.len() ==> comes_before(s[i], s[j], descending)
}

/// An entry that names a later place than all entries of an ordered
/// sequence is put where the sequence stays ordered; the entries are the
/// old ones and the new one; and what holds of all of them holds of each
/// entry of the outcome.
#[verifier::rlimit(50)]
#[verifier::spinoff_prover]
pub proof fn lemma_inserted(
    s: Seq<(u64, usize)>,
    x: (u64, usize),
    descending: bool,
    holds: spec_fn((u64, usize)) -> bool,
)
    requires
        ordered(s, descending),
        forall|i: int| 0 <= i < s.len() ==> (#[trigger] s[i]).1 < x.1,
        forall|i: int| 0 <= i < s.len() ==> holds(#[trigger] s[i]),
        holds(x),
    ensures
        ordered(inserted(s, x, descending), descending),
        inserted(s, x, descending).len() == s.len() + 1,
        inserted(s, x, descending).to_multiset() == s.to_multiset().insert(x),
        forall|i: int|
            0 <= i < inserted(s, x, descending).len() ==> holds(
                #[trigger] inserted(s, x, descending)[i],
            ) && inserted(s, x, descending)[i].1 <= x.1,
    decreases s.len(),
{
    broadcast use vstd::seq_lib::group_to_multiset_ensures;

    let out = inserted(s, x, descending);
    if s.len() == 0 {
        assert(out =~= s.push(x));
    } else if in_order(s.last().0, x.0, descending) {
        assert(out =~= s.push(x));
        assert forall|i: int, j: int| 0 <= i < j < out.len() implies comes_before(
            out[i],
            out[j],
            descending,
        ) by {
            if j == s.len() {
                if i < s.len() - 1 {
                    assert(comes_before(s[i], s.last(), descending));
                }
            }
        }
    } else {
        let head = s.drop_last();
        let last = s.last();
        assert(ordered(head, descending));
        lemma_inserted(head, x, descending, holds);
        let inner = inserted(head, x, descending);
        assert(out =~= inner.push(last));
        assert(s =~= head.push(last));
        assert(out.to_multiset() =~= s.to_multiset().insert(x));
        assert forall|i: int, j: int| 0 <= i < j < out.len() implies comes_before(
            out[i],
            out[j],
            descending,
        ) by {
            if j == inner.len() {
                // out[i] is x or an entry of head
                if inner[i] == x {
                } else {
                    assert(inner.to_multiset().count(inner[i]) > 0);
                    assert(head.to_multiset().insert(x).count(inner[i]) > 0);
                    assert(head.to_multiset().count(inner[i]) > 0);
                    assert(head.contains(inner[i]));
                    let k = choose|k: int| 0 <= k < head.len() && head[k] == inner[i];
                    assert(comes_before(s[k], s[s.len() - 1], descending));
                }
            }
        }
    }
}

/// The stable order of entries that name their own places in ascending
/// order: it is ordered by key and, among equal keys, by place; it holds
/// the same entries; and what holds of all entries holds of each entry of
/// the outcome.
#[verifier::rlimit(50)]
#[verifier::spinoff_prover]
pub proof fn lemma_stable_sorted(
    s: Seq<(u64, usize)>,
    descending: bool,
    holds: spec_fn((u64, usize)) -> bool,
)
    requires
        forall|i: int| 0 <= i < s.len() ==> (#[trigger] s[i]).1 == i,
        forall|i: int| 0 <= i < s.len() ==> holds(#[trigger] s[i]),
    ensures
        ordered(stable_sorted(s, descending), descending),
        stable_sorted(s, descending).len() == s.len(),
        stable_sorted(s, descending).to_multiset() == s.to_multiset(),
        forall|i: int|
            0 <= i < s.len() ==> holds(#[trigger] stable_sorted(s, descending)[i]) && stable_sorted(
                s,
                descending,
            )[i].1 < s.len(),
    decreases s.len(),
{
    broadcast use vstd::seq_lib::group_to_multiset_ensures;

    if s.len() == 0 {
    } else {
        let head = s.drop_last();
        let last = s.last();
        lemma_stable_sorted(head, descending, holds);
        let sorted = stable_sorted(head, descending);
        lemma_inserted(sorted, last, descending, holds);
        assert(s =~= head.push(last));
    }
}

/// `<[T]>::sort_by_key` of std with the first component as the key: orders
/// the entries by ascending key. The sort is stable, so entries with equal
/// keys keep their order.
#[verifier::external_body]
pub(crate) fn sort_ascending(v: &mut Vec<(u64, usize)>)
    ensures
        final(v)@ == stable_sorted(old(v)@, false),
{
    v.sort_by_key(|entry| entry.0)
}

/// `<[T]>::sort_by_key` of std with the first component, reversed, as the
/// key: orders the entries by descending key. The sort is stable, so
/// entries with equal keys keep their order.
#[verifier::external_body]
pub(crate) fn sort_descending(v: &mut Vec<(u64, usize)>)
    ensures
        final(v)@ == stable_sorted(old(v)@, true),
{
    v.sort_by_key(|entry| Reverse(entry.0))
}

/// Orders the entries by their keys, ascending or descending; entries with
/// equal keys keep their order.
pub fn sort_entries(v: &mut Vec<(u64, usize)>, descending: bool)
    ensures
        final(v)@ == stable_sorted(old(v)@, descending),
{
    if descending {
        sort_descending(v);
    } else {
        sort_ascending(v);
    }
}

} // verus!
