//! Identity-governance reporting core.
//!
//! The library reconciles account and entitlement records imported from
//! directory-style target systems and derives a read-only reporting view:
//! which access is held directly, which is inherited through nested
//! entitlements, and how records of one system correspond to records of the
//! system configured as its synchronization counterpart.
//!
//! Reading export files and rendering workbooks are left to the surrounding
//! application; the library receives flat records and hands back derived
//! views, and every function here is verified against its contract.

pub mod closure;
pub mod connector;
pub mod dtos;
pub mod iga;
pub mod recon;
pub mod sheets;
pub mod ts;

use vstd::prelude::*;

verus! {

/// Whether `v` holds a string with the same characters as `s`.
pub open spec fn seq_has_str(v: Seq<String>, s: Seq<char>) -> bool {
    exists|i: int| 0 <= i < v.len() && #[trigger] v[i]@ == s
}

/// Linear membership test on a vector of strings.
pub fn vec_contains_str(v: &Vec<String>, s: &String) -> (b: bool)
    ensures
        b == seq_has_str(v@, s@),
{
    let mut i: usize = 0;
    while i < v.len()
        invariant
            0 <= i <= v.len(),
            forall|j: int| 0 <= j < i ==> #[trigger] v@[j]@ != s@,
        decreases v.len() - i,
    {
        if v[i].eq(s) {
            return true;
        }
        i += 1;
    }
    false
}

} // verus!
