//! Connector configuration for the spreadsheet identity roster.
//!
//! The surrounding application opens the workbook and walks its rows; the
//! core only holds the configuration — which file, which sheet, and what
//! each named column means — and resolves the configured column names
//! against a header row.

use vstd::prelude::*;
use crate::seq_has_str;
use crate::vec_contains_str;

verus! {

/// What one named spreadsheet column means: either one of the identity's
/// fixed attributes, or (when no attribute is named) a free-form extra
/// attribute kept under the column's own name. The index is resolved against
/// the header row before rows are read.
#[derive(Debug, Clone, PartialEq, Eq)]
pub struct ColumnMeaning {
    pub xlsx_column_name: String,
    pub identity_attribute: Option<String>,
    pub column_index: usize,
}

/// Configuration of the identity roster connector: the workbook, the sheet,
/// and the columns to read.
#[derive(Debug, Clone, PartialEq, Eq)]
pub struct IdentityXlsxConnector {
    pub source_path: String,
    pub sheet_name: String,
    pub identity_attributes: Vec<ColumnMeaning>,
}

/// Resolves each configured column name against the header row: succeeds
/// exactly when every configured name occurs, and then records each column's
/// position; on failure the configuration is left untouched, and the load is
/// aborted by the caller.
pub fn resolve_column_indexes(attrs: &mut Vec<ColumnMeaning>, header: &Vec<String>) -> (ok: bool)
    ensures
        ok <==> (forall|k: int|
            0 <= k < old(attrs)@.len() ==> seq_has_str(
                header@,
                (#[trigger] old(attrs)@[k]).xlsx_column_name@,
            )),
        !ok ==> final(attrs)@ == old(attrs)@,
        ok ==> final(attrs)@.len() == old(attrs)@.len(),
        ok ==> forall|k: int|
            0 <= k < old(attrs)@.len() ==> {
                let a = old(attrs)@[k];
                let b = #[trigger] final(attrs)@[k];
                &&& b.xlsx_column_name == a.xlsx_column_name
                &&& b.identity_attribute == a.identity_attribute
                &&& header@[b.column_index as int]@ == a.xlsx_column_name@
            },
{
    // First pass: every configured name must occur in the header row.
    let mut k: usize = 0;
    while k < attrs.len()
        invariant
            0 <= k <= attrs@.len(),
            attrs@ == old(attrs)@,
            forall|m: int|
                0 <= m < k ==> seq_has_str(header@, (#[trigger] attrs@[m]).xlsx_column_name@),
        decreases attrs@.len() - k,
    {
        if !vec_contains_str(header, &attrs[k].xlsx_column_name) {
            return false;
        }
        k += 1;
    }
    // Second pass: record each column's position.
    let ghost orig = attrs@;
    let mut work: Vec<ColumnMeaning> = Vec::new();
    core::mem::swap(&mut work, attrs);
    let mut out: Vec<ColumnMeaning> = Vec::new();
    while work.len() > 0
        invariant
            out@.len() + work@.len() == orig.len(),
            work@ =~= orig.skip(out@.len() as int),
            forall|m: int|
                0 <= m < orig.len() ==> seq_has_str(
                    header@,
                    (#[trigger] orig[m]).xlsx_column_name@,
                ),
            forall|m: int|
                0 <= m < out@.len() ==> {
                    let a = orig[m];
                    let b = #[trigger] out@[m];
                    &&& b.xlsx_column_name == a.xlsx_column_name
                    &&& b.identity_attribute == a.identity_attribute
                    &&& b.column_index < header@.len()
                    &&& header@[b.column_index as int]@ == a.xlsx_column_name@
                },
        decreases work@.len(),
    {
        let ghost n = out@.len() as int;
        let mut a = work.remove(0);
        let mut j: usize = 0;
        let mut pos: usize = 0;
        let mut found = false;
        while j < header.len() && !found
            invariant
                0 <= j <= header@.len(),
                a == orig[n],
                !found ==> forall|m: int|
                    0 <= m < j ==> (#[trigger] header@[m])@ != a.xlsx_column_name@,
                found ==> pos < header@.len() && header@[pos as int]@ == a.xlsx_column_name@,
            decreases header@.len() - j + (if found {
                0int
            } else {
                1int
            }),
        {
            if header[j].eq(&a.xlsx_column_name) {
                pos = j;
                found = true;
            } else {
                j += 1;
            }
        }
        proof {
            if !found {
                assert(seq_has_str(header@, orig[n].xlsx_column_name@));
                let w = choose|w: int|
                    0 <= w < header@.len() && #[trigger] header@[w]@
                        == orig[n].xlsx_column_name@;
                assert(false);
            }
        }
        a.column_index = pos;
        out.push(a);
        proof {
            assert(work@ =~= orig.skip(n + 1));
        }
    }
    *attrs = out;
    true
}

} // verus!
