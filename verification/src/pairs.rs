//! Lists of pairs compared as multisets: by what they hold and how often,
//! whatever the order.

use crate::multimap::Pair;
use vstd::prelude::*;
use vstd::seq_lib::{lemma_multiset_commutative, to_multiset_build, to_multiset_remove};

verus! {

/// Removing a pair from a vector of pairs removes its view from the deep view.
proof fn lemma_pairs_remove(before: Vec<(String, String)>, after: Vec<(String, String)>, j: int)
    requires
        0 <= j < before@.len(),
        after@ == before@.remove(j),
    ensures
        after.deep_view() == before.deep_view().remove(j),
{
    assert(after.deep_view() =~= before.deep_view().remove(j));
}

fn pair_eq(a: &(String, String), b: &(String, String)) -> (r: bool)
    ensures
        r == (a.deep_view() == b.deep_view()),
{
    a.0 == b.0 && a.1 == b.1
}

/// The position of a pair equal to `wanted` in `pairs`, if there is one.
fn find_pair(pairs: &Vec<(String, String)>, wanted: &(String, String)) -> (r: Option<usize>)
    ensures
        match r {
            Some(j) => j < pairs@.len() && pairs.deep_view()[j as int] == wanted.deep_view(),
            None => !pairs.deep_view().contains(wanted.deep_view()),
        },
{
    let mut j: usize = 0;
    while j < pairs.len()
        invariant
            j <= pairs.len(),
            forall|k: int| 0 <= k < j ==> pairs.deep_view()[k] != wanted.deep_view(),
        decreases pairs.len() - j,
    {
        if pair_eq(&pairs[j], wanted) {
            return Some(j);
        }
        j += 1;
    }
    None
}

/// Whether `a` and `b` hold the same pairs, each as often in the one as in
/// the other.
pub fn same_pairs(a: &Vec<(String, String)>, b: Vec<(String, String)>) -> (r: bool)
    ensures
        r == (a.deep_view().to_multiset() == b.deep_view().to_multiset()),
{
    broadcast use {vstd::seq_lib::group_to_multiset_ensures, vstd::multiset::group_multiset_axioms};

    let ghost all_a = a.deep_view();
    let ghost all_b = b.deep_view();
    let mut rest = b;
    let mut i: usize = 0;
    assert(all_a.take(0) =~= Seq::<Pair>::empty());
    assert(all_a.take(0).to_multiset().add(rest.deep_view().to_multiset()) =~= all_b.to_multiset());
    while i < a.len()
        invariant
            i <= a.len(),
            all_a == a.deep_view(),
            all_b == b.deep_view(),
            all_a.take(i as int).to_multiset().add(rest.deep_view().to_multiset()) == all_b.to_multiset(),
        decreases a.len() - i,
    {
        let ghost x = all_a[i as int];
        let ghost seen = all_a.take(i as int);
        proof {
            assert(all_a.take(i + 1) =~= seen.push(x));
            assert(x == a@[i as int].deep_view());
        }
        match find_pair(&rest, &a[i]) {
            Some(j) => {
                let ghost before = rest;
                rest.remove(j);
                proof {
                    lemma_pairs_remove(before, rest, j as int);
                    let full = before.deep_view();
                    assert(full[j as int] == x);
                    assert(full.contains(x));
                    full.to_multiset_ensures();
                    assert(full.to_multiset().count(x) > 0);
                    to_multiset_remove(full, j as int);
                    to_multiset_build(seen, x);
                    assert(rest.deep_view().to_multiset() == full.to_multiset().remove(x));
                    assert(seen.push(x).to_multiset() == seen.to_multiset().insert(x));
                    assert(seen.to_multiset().insert(x).add(full.to_multiset().remove(x)) =~= seen.to_multiset().add(
                        full.to_multiset(),
                    ));
                }
            },
            None => {
                proof {
                    let tail = all_a.skip(i + 1);
                    assert(all_a =~= seen.push(x) + tail);
                    lemma_multiset_commutative(seen.push(x), tail);
                    to_multiset_build(seen, x);
                    assert(seen.push(x).to_multiset().count(x) == seen.to_multiset().count(x) + 1);
                    assert(all_a.to_multiset().count(x) >= seen.to_multiset().count(x) + 1);
                    rest.deep_view().to_multiset_ensures();
                    assert(rest.deep_view().to_multiset().count(x) == 0);
                    assert(all_b.to_multiset().count(x) == seen.to_multiset().count(x));
                }
                return false;
            },
        }
        i += 1;
    }
    proof {
        assert(all_a.take(a@.len() as int) =~= all_a);
        if rest.len() == 0 {
            assert(rest.deep_view() =~= Seq::<Pair>::empty());
            assert(all_a.to_multiset().add(rest.deep_view().to_multiset()) =~= all_a.to_multiset());
        } else {
            assert(all_b.to_multiset().len() == all_a.to_multiset().len() + rest.deep_view().to_multiset().len());
            assert(rest.deep_view().len() > 0);
        }
    }
    rest.len() == 0
}

} // verus!
