//! What `==` means on the library's values. Query parameters are equal where
//! they hold the same pairs of a key and a value, each as often in the one
//! as in the other; the order of the keys and of their values plays no part.
//! Port numbers are equal where they are the same integer.

use crate::multimap::multi_items_spec;
use crate::pairs::same_pairs;
use crate::port::{lemma_normal_unique, PortNumber};
use crate::query_params::QueryParams;
use vstd::prelude::*;
use vstd::std_specs::cmp::PartialEqSpecImpl;

verus! {

impl PartialEq for QueryParams {
    fn eq(&self, other: &Self) -> (r: bool) {
        let mine = self.multi_items();
        same_pairs(&mine, other.multi_items())
    }
}

impl PartialEqSpecImpl for QueryParams {
    open spec fn obeys_eq_spec() -> bool {
        true
    }

    open spec fn eq_spec(&self, other: &Self) -> bool {
        multi_items_spec(self@).to_multiset() == multi_items_spec(other@).to_multiset()
    }
}

impl Eq for QueryParams {

}

fn same_limbs(a: &Vec<u32>, b: &Vec<u32>) -> (r: bool)
    ensures
        r == (a@ == b@),
{
    if a.len() != b.len() {
        return false;
    }
    let mut i: usize = 0;
    while i < a.len()
        invariant
            i <= a.len(),
            a.len() == b.len(),
            forall|j: int| 0 <= j < i ==> a@[j] == b@[j],
        decreases a.len() - i,
    {
        if a[i] != b[i] {
            return false;
        }
        i += 1;
    }
    assert(a@ =~= b@);
    true
}

impl PartialEq for PortNumber {
    fn eq(&self, other: &Self) -> (r: bool) {
        let mine = self.limbs();
        let theirs = other.limbs();
        proof {
            lemma_normal_unique(self@ < 0, mine@, other@ < 0, theirs@);
        }
        self.is_negative() == other.is_negative() && same_limbs(mine, theirs)
    }
}

impl PartialEqSpecImpl for PortNumber {
    open spec fn obeys_eq_spec() -> bool {
        true
    }

    open spec fn eq_spec(&self, other: &Self) -> bool {
        self@ == other@
    }
}

impl Eq for PortNumber {

}

} // verus!
