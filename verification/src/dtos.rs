//! Flat record carriers.
//!
//! Connectors hand the core one flat record per account, entitlement and
//! identity. Optional fields model data the source may not provide; a missing
//! field means "unknown", never an error. Dates are carried as day numbers
//! (days in a fixed linear day count); the surrounding application converts
//! calendar dates to and from that count.

use vstd::prelude::*;
use crate::ts::HistoryRecord;

verus! {

/// Read-only projection of one account, prepared for reporting: display
/// fallbacks applied and membership edges carried as nested projections.
#[derive(Debug)]
pub struct AccountData {
    pub uid: String,
    pub display_name: String,
    pub description: String,
    pub entitlements: Vec<EntitlementData>,
    pub indirect_entitlements: Vec<EntitlementData>,
    pub account_type: String,
    pub ou: String,
    pub enabled: String,
    pub syncs_to_ts: String,
    pub syncs_to_account: String,
    pub identity_owners: Vec<String>,
    pub macheo: bool,
    pub history: Vec<HistoryRecord>,
}

/// Read-only projection of one entitlement, prepared for reporting.
#[derive(Debug)]
pub struct EntitlementData {
    pub uid: String,
    pub display_name: String,
    pub description: String,
    pub member_accounts: Vec<AccountData>,
    pub member_groups: Vec<EntitlementData>,
    pub entitlement_type: String,
    pub ou: String,
    pub syncs_to_ts: String,
    pub syncs_to_entitlement: String,
    pub identity_owners: Vec<String>,
    pub macheo: bool,
    pub history: Vec<HistoryRecord>,
}

/// Read-only projection of one identity with its matched access, keyed per
/// target system.
#[derive(Debug)]
pub struct IdentityData {
    pub unique_id: String,
    pub display_name: String,
    pub attributes: Vec<(String, String)>,
    pub personal_accounts: Vec<(String, Vec<AccountData>)>,
    pub owned_accounts: Vec<(String, Vec<AccountData>)>,
    pub owned_groups: Vec<(String, Vec<EntitlementData>)>,
}

impl IdentityData {
    /// The matched personal accounts, per target system.
    pub fn get_personal_accounts_ref(&self) -> (r: &Vec<(String, Vec<AccountData>)>)
        ensures
            r == &self.personal_accounts,
    {
        &self.personal_accounts
    }

    /// The matched owned accounts, per target system.
    pub fn get_owned_accounts_ref(&self) -> (r: &Vec<(String, Vec<AccountData>)>)
        ensures
            r == &self.owned_accounts,
    {
        &self.owned_accounts
    }

    /// The matched owned entitlements, per target system.
    pub fn get_owned_groups_ref(&self) -> (r: &Vec<(String, Vec<EntitlementData>)>)
        ensures
            r == &self.owned_groups,
    {
        &self.owned_groups
    }
}

/// Per-category record counts of one target system.
#[derive(Debug, Clone, PartialEq, Eq)]
pub struct CategoryTotals {
    pub ts_uid: String,
    pub categories: String,
    pub totals: Vec<(String, usize)>,
}

/// Account projections of one target system, grouped by category label.
#[derive(Debug)]
pub struct CategorizedAccounts {
    pub ts_uid: String,
    pub type_lists: Vec<(String, Vec<AccountData>)>,
}

/// Entitlement projections of one target system, grouped by category label.
#[derive(Debug)]
pub struct CategorizedEntitlements {
    pub ts_uid: String,
    pub type_lists: Vec<(String, Vec<EntitlementData>)>,
}

/// Flat account record as read from a target-system export.
#[derive(Debug, Clone, PartialEq, Eq)]
pub struct AccountDTO {
    pub unique_id: String,
    pub display_name: Option<String>,
    pub description: Option<String>,

    pub created: Option<i64>,
    pub last_logon: Option<i64>,
    pub password_last_set: Option<i64>,
    pub expiration_date: Option<i64>,

    pub enabled: Option<bool>,
    pub deleted: Option<bool>,
    pub locked: Option<bool>,

    pub memberof: Option<Vec<String>>,
    pub ou: Option<String>,
    pub other_attributes: Vec<(String, Option<String>)>,
}

/// Flat entitlement (group) record as read from a target-system export.
#[derive(Debug, Clone, PartialEq, Eq)]
pub struct EntitlementDTO {
    pub unique_id: String,
    pub display_name: Option<String>,
    pub description: Option<String>,

    pub created: Option<i64>,
    pub memberof: Option<Vec<String>>,
    pub all_indirect_memberof: Vec<String>,
    pub members: Option<Vec<String>>,
    pub member_groups: Option<Vec<String>>,
    pub ou: Option<String>,

    pub other_attributes: Vec<(String, Option<String>)>,
    pub ts_owners: Option<Vec<String>>,
}

/// Flat identity record as read from the identity roster.
#[derive(Debug, Clone, PartialEq, Eq)]
pub struct IdentityDTO {
    pub unique_id: String,
    pub first_name: String,
    pub last_name: String,
    pub email: String,
    pub employee_no: String,
    pub employee_type: String,
    pub enabled: Option<bool>,
    pub manager_key: String,
    pub hire_date: Option<i64>,
    pub termination_date: Option<i64>,

    pub attributes: Vec<(String, String)>,
}

impl Default for IdentityDTO {
    /// An identity with every field unknown or empty.
    fn default() -> (r: Self)
        ensures
            r.unique_id@ == Seq::<char>::empty(),
            r.first_name@ == Seq::<char>::empty(),
            r.last_name@ == Seq::<char>::empty(),
            r.email@ == Seq::<char>::empty(),
            r.employee_no@ == Seq::<char>::empty(),
            r.employee_type@ == Seq::<char>::empty(),
            r.enabled is None,
            r.manager_key@ == Seq::<char>::empty(),
            r.hire_date is None,
            r.termination_date is None,
            r.attributes@ =~= Seq::<(String, String)>::empty(),
    {
        IdentityDTO {
            unique_id: String::new(),
            first_name: String::new(),
            last_name: String::new(),
            email: String::new(),
            employee_no: String::new(),
            employee_type: String::new(),
            enabled: None,
            manager_key: String::new(),
            hire_date: None,
            termination_date: None,
            attributes: Vec::new(),
        }
    }
}

} // verus!
