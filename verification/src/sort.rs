//! Sorting tiles by a key.

use crate::frontier::TileJob;
use vstd::prelude::*;
use vstd::seq_lib::{group_to_multiset_ensures, lemma_multiset_commutative};

verus! {

/// A tile with the key it is sorted by.
#[derive(Clone, Copy, Debug, PartialEq, Eq, Structural)]
pub struct Keyed {
    pub key: u64,
    pub tile: TileJob,
}

/// The keys never decrease.
pub open spec fn ascending(s: Seq<Keyed>) -> bool {
    forall|i: int, j: int| 0 <= i <= j < s.len() ==> s[i].key <= s[j].key
}

/// The elements of `s` that have key `k`, in the order of `s`.
pub open spec fn with_key(s: Seq<Keyed>, k: u64) -> Seq<Keyed>
    decreases s.len(),
{
    if s.len() == 0 {
        Seq::empty()
    } else if s.last().key == k {
        with_key(s.drop_last(), k).push(s.last())
    } else {
        with_key(s.drop_last(), k)
    }
}

proof fn lemma_with_key_push(s: Seq<Keyed>, e: Keyed, k: u64)
    ensures
        with_key(s.push(e), k) == (if e.key == k {
            with_key(s, k).push(e)
        } else {
            with_key(s, k)
        }),
{
    assert(s.push(e).drop_last() =~= s);
}

proof fn lemma_with_key_concat(a: Seq<Keyed>, b: Seq<Keyed>, k: u64)
    ensures
        with_key(a + b, k) == with_key(a, k) + with_key(b, k),
    decreases b.len(),
{
    if b.len() > 0 {
        lemma_with_key_concat(a, b.drop_last(), k);
        assert((a + b).drop_last() =~= a + b.drop_last());
        assert(with_key(a + b, k) =~= with_key(a, k) + with_key(b, k));
    } else {
        assert(a + b =~= a);
        assert(with_key(a + b, k) =~= with_key(a, k) + with_key(b, k));
    }
}

proof fn lemma_with_key_none(s: Seq<Keyed>, k: u64)
    requires
        forall|i: int| 0 <= i < s.len() ==> (#[trigger] s[i]).key != k,
    ensures
        with_key(s, k) == Seq::<Keyed>::empty(),
    decreases s.len(),
{
    if s.len() > 0 {
        assert(s[s.len() - 1].key != k);
        assert forall|i: int| 0 <= i < s.len() - 1 implies (#[trigger] s.drop_last()[i]).key
            != k by {
            assert(s[i].key != k);
        }
        lemma_with_key_none(s.drop_last(), k);
    }
}

/// Merges two ascending runs; among equal keys those of `a` come first.
fn merge(a: &Vec<Keyed>, b: &Vec<Keyed>) -> (out: Vec<Keyed>)
    requires
        ascending(a@),
        ascending(b@),
    ensures
        ascending(out@),
        out@.to_multiset() == a@.to_multiset().add(b@.to_multiset()),
        forall|k: u64| #[trigger] with_key(out@, k) == with_key(a@, k) + with_key(b@, k),
{
    let mut out: Vec<Keyed> = Vec::new();
    let mut i: usize = 0;
    let mut j: usize = 0;
    proof {
        broadcast use group_to_multiset_ensures;

        assert(out@.to_multiset() =~= a@.take(0).to_multiset().add(b@.take(0).to_multiset()));
        assert forall|k: u64| #[trigger] with_key(out@, k) == with_key(a@.take(0), k) + with_key(
            b@.take(0),
            k,
        ) by {
            assert(with_key(out@, k) =~= with_key(a@.take(0), k) + with_key(b@.take(0), k));
        }
    }
    while i < a.len() || j < b.len()
        invariant
            i <= a@.len(),
            j <= b@.len(),
            ascending(a@),
            ascending(b@),
            ascending(out@),
            forall|k: int, l: int|
                0 <= k < out@.len() && i <= l < a@.len() ==> out@[k].key <= a@[l].key,
            forall|k: int, l: int|
                0 <= k < out@.len() && j <= l < b@.len() ==> out@[k].key <= b@[l].key,
            forall|k: int, l: int| 0 <= k < j && i <= l < a@.len() ==> b@[k].key < a@[l].key,
            out@.to_multiset() == a@.take(i as int).to_multiset().add(
                b@.take(j as int).to_multiset(),
            ),
            forall|k: u64| #[trigger]
                with_key(out@, k) == with_key(a@.take(i as int), k) + with_key(
                    b@.take(j as int),
                    k,
                ),
        decreases a@.len() - i + b@.len() - j,
    {
        let ghost before = out@;
        let ghost done_a = a@.take(i as int);
        let ghost done_b = b@.take(j as int);
        if j >= b.len() || (i < a.len() && a[i].key <= b[j].key) {
            out.push(a[i]);
            proof {
                broadcast use group_to_multiset_ensures;

                let e = a@[i as int];
                assert(out@ =~= before.push(e));
                assert(a@.take(i + 1) =~= done_a.push(e));
                assert(out@.to_multiset() =~= a@.take(i + 1).to_multiset().add(
                    done_b.to_multiset(),
                ));
                assert forall|k: u64| #[trigger] with_key(out@, k) == with_key(a@.take(i + 1), k)
                    + with_key(done_b, k) by {
                    assert(with_key(before, k) == with_key(done_a, k) + with_key(done_b, k));
                    lemma_with_key_push(before, e, k);
                    lemma_with_key_push(done_a, e, k);
                    if e.key == k {
                        lemma_with_key_none(done_b, k);
                    }
                    assert(with_key(out@, k) =~= with_key(a@.take(i + 1), k) + with_key(
                        done_b,
                        k,
                    ));
                }
            }
            i = i + 1;
        } else {
            out.push(b[j]);
            proof {
                broadcast use group_to_multiset_ensures;

                let e = b@[j as int];
                assert(out@ =~= before.push(e));
                assert(b@.take(j + 1) =~= done_b.push(e));
                assert(out@.to_multiset() =~= done_a.to_multiset().add(
                    b@.take(j + 1).to_multiset(),
                ));
                assert forall|k: u64| #[trigger] with_key(out@, k) == with_key(done_a, k)
                    + with_key(b@.take(j + 1), k) by {
                    assert(with_key(before, k) == with_key(done_a, k) + with_key(done_b, k));
                    lemma_with_key_push(before, e, k);
                    lemma_with_key_push(done_b, e, k);
                    assert(with_key(out@, k) =~= with_key(done_a, k) + with_key(
                        b@.take(j + 1),
                        k,
                    ));
                }
            }
            j = j + 1;
        }
    }
    proof {
        assert(a@.take(a@.len() as int) =~= a@);
        assert(b@.take(b@.len() as int) =~= b@);
    }
    out
}

/// The same elements in ascending order of their keys; those with equal keys keep their order.
pub fn sort_by_key(v: Vec<Keyed>) -> (out: Vec<Keyed>)
    ensures
        ascending(out@),
        out@.to_multiset() == v@.to_multiset(),
        forall|k: u64| #[trigger] with_key(out@, k) == with_key(v@, k),
    decreases v@.len(),
{
    if v.len() <= 1 {
        return v;
    }
    let mut left: Vec<Keyed> = v;
    let ghost all = left@;
    let half: usize = left.len() / 2;
    let right: Vec<Keyed> = left.split_off(half);
    proof {
        assert(all =~= left@ + right@);
        lemma_multiset_commutative(left@, right@);
        assert forall|k: u64| #[trigger] with_key(all, k) == with_key(left@, k) + with_key(
            right@,
            k,
        ) by {
            lemma_with_key_concat(left@, right@, k);
        }
    }
    let left_sorted = sort_by_key(left);
    let right_sorted = sort_by_key(right);
    let out = merge(&left_sorted, &right_sorted);
    proof {
        assert forall|k: u64| #[trigger] with_key(out@, k) == with_key(all, k) by {
            assert(with_key(left_sorted@, k) == with_key(left@, k));
            assert(with_key(right_sorted@, k) == with_key(right@, k));
        }
    }
    out
}

proof fn lemma_with_key_is_filter(s: Seq<Keyed>, k: u64)
    ensures
        with_key(s, k) == s.filter(|e: Keyed| e.key == k),
    decreases s.len(),
{
    reveal(Seq::filter);
    if s.len() > 0 {
        lemma_with_key_is_filter(s.drop_last(), k);
    }
}

/// `sort_by_key` gives the same elements, none before one of a smaller key, and those of one key in
/// the order in which they came.
pub proof fn law_sorted(v: Vec<Keyed>, out: Vec<Keyed>, k: u64)
    requires
        call_ensures(sort_by_key, (v,), out),
    ensures
        out@.to_multiset() == v@.to_multiset(),
        out@.len() == v@.len(),
        forall|i: int, j: int|
            0 <= i < j < out@.len() ==> !((#[trigger] out@[j]).key < (#[trigger] out@[i]).key),
        out@.filter(|e: Keyed| e.key == k) == v@.filter(|e: Keyed| e.key == k),
{
    broadcast use group_to_multiset_ensures;

    assert(out@.to_multiset().len() == out@.len());
    assert(v@.to_multiset().len() == v@.len());
    lemma_with_key_is_filter(out@, k);
    lemma_with_key_is_filter(v@, k);
    assert(with_key(out@, k) == with_key(v@, k));
}

} // verus!
