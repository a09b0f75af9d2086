//! Vertex sets as hash sets, and their canonical form: the members in
//! strictly increasing order.

use std::collections::HashSet;
use vstd::prelude::*;

verus! {

/// The members of `s` stand in strictly increasing order.
pub open spec fn increasing(s: Seq<usize>) -> bool {
    forall|i: int, j: int| 0 <= i < j < s.len() ==> s[i] < s[j]
}

/// A set of numbers has at most one strictly increasing listing.
pub proof fn lemma_increasing_unique(a: Seq<usize>, b: Seq<usize>)
    requires
        increasing(a),
        increasing(b),
        a.to_set() == b.to_set(),
    ensures
        a == b,
    decreases a.len(),
{
    if a.len() == 0 {
        if b.len() > 0 {
            assert(b.to_set().contains(b[0]));
        }
        assert(a =~= b);
    } else {
        let x = a[a.len() - 1];
        assert(a.to_set().contains(x));
        assert(b.contains(x));
        let y = b[b.len() - 1];
        assert(b.to_set().contains(y));
        assert(a.contains(y));
        assert(x == y);
        let a0 = a.drop_last();
        let b0 = b.drop_last();
        assert forall|z: usize| a0.to_set().contains(z) <==> b0.to_set().contains(z) by {
            if a0.to_set().contains(z) {
                let i = choose|i: int| 0 <= i < a0.len() && a0[i] == z;
                assert(a[i] == z);
                assert(a.to_set().contains(z));
                let j = choose|j: int| 0 <= j < b.len() && b[j] == z;
                assert(b0[j] == z);
            }
            if b0.to_set().contains(z) {
                let j = choose|j: int| 0 <= j < b0.len() && b0[j] == z;
                assert(b[j] == z);
                assert(b.to_set().contains(z));
                let i = choose|i: int| 0 <= i < a.len() && a[i] == z;
                assert(a0[i] == z);
            }
        }
        assert(a0.to_set() =~= b0.to_set());
        lemma_increasing_unique(a0, b0);
        assert(a =~= a0.push(x));
        assert(b =~= b0.push(y));
    }
}

/// The members of `set` in strictly increasing order.
pub fn set_to_vec(set: &HashSet<usize>) -> (vec: Vec<usize>)
    ensures
        increasing(vec@),
        vec@.to_set() == set@,
{
    broadcast use vstd::std_specs::hash::group_hash_axioms;

    let mut vec: Vec<usize> = Vec::new();
    for x in it: set.iter()
        invariant
            it.seq().unref().to_set() == set@,
            it.seq().no_duplicates(),
            increasing(vec@),
            forall|y: usize|
                vec@.contains(y) <==> exists|k: int|
                    0 <= k < it.index() && *(#[trigger] it.seq()[k]) == y,
            it.index() == it.seq().len() ==> vec@.to_set() == set@,
    {
        let ghost before = vec@;
        let ghost idx = it.index();
        let mut k: usize = 0;
        while k < vec.len() && vec[k] < *x
            invariant
                k <= vec.len(),
                forall|j: int| 0 <= j < k ==> vec@[j] < *x,
            decreases vec.len() - k,
        {
            k += 1;
        }
        proof {
            if k < vec.len() && vec@[k as int] == *x {
                assert(vec@.contains(*x));
            }
        }
        vec.insert(k, *x);
        proof {
            let after = vec@;
            assert(after == before.insert(k as int, *x));
            assert forall|i: int, j: int| 0 <= i < j < after.len() implies after[i] < after[j] by {
                if j < k {
                    assert(after[i] == before[i] && after[j] == before[j]);
                } else if j == k {
                    assert(after[i] == before[i]);
                } else if i < k {
                    assert(after[i] == before[i] && after[j] == before[j - 1]);
                } else if i == k {
                    assert(after[j] == before[j - 1]);
                } else {
                    assert(after[i] == before[i - 1] && after[j] == before[j - 1]);
                }
            }
            assert forall|y: usize| after.contains(y) <==> (before.contains(y) || y == *x) by {
                if after.contains(y) {
                    let i = choose|i: int| 0 <= i < after.len() && after[i] == y;
                    if i < k {
                        assert(before[i] == y);
                    } else if i > k {
                        assert(before[i - 1] == y);
                    }
                }
                if before.contains(y) {
                    let i = choose|i: int| 0 <= i < before.len() && before[i] == y;
                    if i < k {
                        assert(after[i] == y);
                    } else {
                        assert(after[i + 1] == y);
                    }
                }
                if y == *x {
                    assert(after[k as int] == y);
                }
            }
            assert forall|y: usize|
                after.contains(y) <==> exists|j: int|
                    0 <= j < idx + 1 && *(#[trigger] it.seq()[j]) == y by {
                if after.contains(y) {
                    if y == *x {
                        assert(*it.seq()[idx] == y);
                    } else {
                        let j = choose|j: int| 0 <= j < idx && *(#[trigger] it.seq()[j]) == y;
                        assert(*it.seq()[j] == y);
                    }
                }
                if exists|j: int| 0 <= j < idx + 1 && *(#[trigger] it.seq()[j]) == y {
                    let j = choose|j: int| 0 <= j < idx + 1 && *(#[trigger] it.seq()[j]) == y;
                    if j < idx {
                        assert(before.contains(y));
                    }
                }
            }
            assert forall|y: usize| idx + 1 == it.seq().len() implies (after.to_set().contains(y)
                <==> set@.contains(y)) by {
                if after.contains(y) {
                    let j = choose|j: int| 0 <= j < idx + 1 && *(#[trigger] it.seq()[j]) == y;
                    assert(it.seq().unref()[j] == y);
                    assert(it.seq().unref().to_set().contains(y));
                }
                if set@.contains(y) {
                    assert(it.seq().unref().to_set().contains(y));
                    let j = choose|j: int|
                        0 <= j < it.seq().unref().len() && it.seq().unref()[j] == y;
                    assert(*it.seq()[j] == y);
                }
            }
            assert(idx + 1 == it.seq().len() ==> after.to_set() =~= set@);
        }
    }
    vec
}

/// The same listing with every number raised by one, for display with
/// vertices counted from one.
pub fn print_vec(vec: &Vec<usize>) -> (out: Vec<usize>)
    requires
        forall|i: int| 0 <= i < vec@.len() ==> vec@[i] < usize::MAX,
    ensures
        out@.len() == vec@.len(),
        forall|i: int| 0 <= i < vec@.len() ==> out@[i] == vec@[i] + 1,
{
    let mut out: Vec<usize> = Vec::new();
    let mut i: usize = 0;
    while i < vec.len()
        invariant
            i <= vec.len(),
            out@.len() == i,
            forall|j: int| 0 <= j < vec@.len() ==> vec@[j] < usize::MAX,
            forall|j: int| 0 <= j < i ==> out@[j] == vec@[j] + 1,
        decreases vec.len() - i,
    {
        out.push(vec[i] + 1);
        i += 1;
    }
    out
}

} // verus!
