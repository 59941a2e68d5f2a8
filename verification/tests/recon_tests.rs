use iga_core::dtos::{AccountData, EntitlementData};
use iga_core::recon::{
    pair_accounts, pair_entitlements, SyncedAccountSet, SyncedEntitlementSet,
};

fn edata(uid: &str, syncs_to_entitlement: &str) -> EntitlementData {
    EntitlementData {
        uid: uid.to_string(),
        display_name: uid.to_string(),
        description: String::new(),
        member_accounts: Vec::new(),
        member_groups: Vec::new(),
        entitlement_type: String::new(),
        ou: String::new(),
        syncs_to_ts: String::new(),
        syncs_to_entitlement: syncs_to_entitlement.to_string(),
        identity_owners: Vec::new(),
        macheo: false,
        history: Vec::new(),
    }
}

fn adata(uid: &str, syncs_to_account: &str) -> AccountData {
    AccountData {
        uid: uid.to_string(),
        display_name: uid.to_string(),
        description: String::new(),
        entitlements: Vec::new(),
        indirect_entitlements: Vec::new(),
        account_type: String::new(),
        ou: String::new(),
        enabled: String::new(),
        syncs_to_ts: String::new(),
        syncs_to_account: syncs_to_account.to_string(),
        identity_owners: Vec::new(),
        macheo: false,
        history: Vec::new(),
    }
}

#[test]
fn pairing_matches_by_counterpart_identifier() {
    // hr1 names ad1 as its counterpart; ad1 exists on the to-side; ad2 is
    // referenced by nobody and stays in the unmatched remainder.
    let from = vec![adata("hr1", "ad1"), adata("hr2", "")];
    let to = vec![adata("ad1", ""), adata("ad2", "")];
    let (pairs, rest) = pair_accounts(from, to);
    assert_eq!(pairs.len(), 2);
    assert_eq!(pairs[0].from.uid, "hr1");
    assert_eq!(pairs[0].to.as_ref().unwrap().uid, "ad1");
    assert_eq!(pairs[1].from.uid, "hr2");
    assert!(pairs[1].to.is_none());
    assert_eq!(rest.len(), 1);
    assert_eq!(rest[0].uid, "ad2");
}

#[test]
fn matched_plus_unmatched_accounts_for_every_to_record() {
    let from = vec![adata("f1", "t2"), adata("f2", "missing"), adata("f3", "t1")];
    let to = vec![adata("t1", ""), adata("t2", ""), adata("t3", "")];
    let (pairs, rest) = pair_accounts(from, to);
    let matched = pairs.iter().filter(|p| p.to.is_some()).count();
    assert_eq!(matched, 2);
    assert_eq!(matched + rest.len(), 3);
}

#[test]
fn no_to_record_claimed_twice() {
    // Two from-records name the same counterpart: the earliest wins, the
    // later one gets none.
    let from = vec![adata("f1", "t1"), adata("f2", "t1")];
    let to = vec![adata("t1", "")];
    let (pairs, rest) = pair_accounts(from, to);
    assert!(pairs[0].to.is_some());
    assert!(pairs[1].to.is_none());
    assert!(rest.is_empty());
}

#[test]
fn matched_to_edges_get_flagged() {
    // The from-account's direct edge names GB as counterpart; the matched
    // to-account holds GB directly, so that edge is flagged as
    // synchronization-driven while its other edge is not.
    let mut f = adata("f1", "t1");
    f.entitlements.push(edata("GA", "GB"));
    let mut t = adata("t1", "");
    t.entitlements.push(edata("GB", ""));
    t.entitlements.push(edata("GX", ""));
    let (pairs, _) = pair_accounts(vec![f], vec![t]);
    let got = pairs[0].to.as_ref().unwrap();
    assert!(got.entitlements[0].macheo);
    assert!(!got.entitlements[1].macheo);
}

#[test]
fn indirect_edges_flagged_independently() {
    let mut f = adata("f1", "t1");
    f.entitlements.push(edata("GA", "GB"));
    let mut t = adata("t1", "");
    t.indirect_entitlements.push(edata("GB", ""));
    let (pairs, _) = pair_accounts(vec![f], vec![t]);
    let got = pairs[0].to.as_ref().unwrap();
    // a direct from-edge never flags an indirect to-edge
    assert!(!got.indirect_entitlements[0].macheo);
}

#[test]
fn account_set_with_active_pair() {
    let accts = vec![
        ("HR".to_string(), vec![adata("hr1", "ad1")]),
        ("AD".to_string(), vec![adata("ad1", ""), adata("ad2", "")]),
        ("LDAP".to_string(), vec![adata("l1", "")]),
    ];
    let sync = Some(("HR".to_string(), "AD".to_string()));
    let set = SyncedAccountSet::from(accts, sync);
    assert_eq!(set.sync, Some(("HR".to_string(), "AD".to_string())));
    assert_eq!(set.synced_from_to.len(), 2);
    assert_eq!(set.synced_from_to[0].0, "HR");
    let hr = &set.synced_from_to[0].1;
    assert_eq!(hr.len(), 1);
    assert_eq!(hr[0].to.as_ref().unwrap().uid, "ad1");
    assert_eq!(set.nosync_to.len(), 1);
    assert_eq!(set.nosync_to[0].uid, "ad2");
    // the system outside the pair is kept, unpaired
    assert_eq!(set.synced_from_to[1].0, "LDAP");
    assert!(set.synced_from_to[1].1[0].to.is_none());
}

#[test]
fn account_set_without_pair_reports_everything_unpaired() {
    let accts = vec![
        ("HR".to_string(), vec![adata("hr1", "ad1")]),
        ("AD".to_string(), vec![adata("ad1", "")]),
    ];
    let set = SyncedAccountSet::from(accts, None);
    assert!(set.sync.is_none());
    assert_eq!(set.synced_from_to.len(), 2);
    assert!(set.nosync_to.is_empty());
    for (_, pairs) in &set.synced_from_to {
        for p in pairs {
            assert!(p.to.is_none());
        }
    }
}

#[test]
fn account_set_with_one_side_missing_skips_reconciliation() {
    let accts = vec![("HR".to_string(), vec![adata("hr1", "ad1")])];
    let sync = Some(("HR".to_string(), "AD".to_string()));
    let set = SyncedAccountSet::from(accts, sync);
    assert!(set.sync.is_none());
    assert_eq!(set.synced_from_to.len(), 1);
    assert!(set.synced_from_to[0].1[0].to.is_none());
    assert!(set.nosync_to.is_empty());
}

#[test]
fn to_side_duplicates_collapse_last_wins() {
    let mut early = adata("t1", "");
    early.description = "early".to_string();
    let mut late = adata("t1", "");
    late.description = "late".to_string();
    let from = vec![adata("f1", "t1")];
    let accts = vec![
        ("HR".to_string(), from),
        ("AD".to_string(), vec![early, late]),
    ];
    let set = SyncedAccountSet::from(accts, Some(("HR".to_string(), "AD".to_string())));
    let got = set.synced_from_to[0].1[0].to.as_ref().unwrap();
    assert_eq!(got.description, "late");
    assert!(set.nosync_to.is_empty());
}

#[test]
fn entitlement_pairing_flags_member_accounts() {
    let mut f = edata("g1", "h1");
    f.member_accounts.push(adata("u1", "v1"));
    let mut t = edata("h1", "");
    t.member_accounts.push(adata("v1", ""));
    t.member_accounts.push(adata("v2", ""));
    let (pairs, rest) = pair_entitlements(vec![f], vec![t, edata("h2", "")]);
    assert_eq!(pairs.len(), 1);
    let got = pairs[0].to.as_ref().unwrap();
    assert_eq!(got.uid, "h1");
    assert!(got.member_accounts[0].macheo);
    assert!(!got.member_accounts[1].macheo);
    assert_eq!(rest.len(), 1);
    assert_eq!(rest[0].uid, "h2");
}

#[test]
fn entitlement_pairing_flags_member_groups() {
    // The from-entitlement's member-group edge names N1 as counterpart; the
    // matched to-entitlement holds N1 as a member group, so that edge is
    // flagged while its other member-group edge is not.
    let mut f = edata("g1", "h1");
    f.member_groups.push(edata("M1", "N1"));
    let mut t = edata("h1", "");
    t.member_groups.push(edata("N1", ""));
    t.member_groups.push(edata("N2", ""));
    let (pairs, _) = pair_entitlements(vec![f], vec![t]);
    let got = pairs[0].to.as_ref().unwrap();
    assert!(got.member_groups[0].macheo);
    assert!(!got.member_groups[1].macheo);
}

#[test]
fn entitlement_set_with_active_pair() {
    let ents = vec![
        ("HR".to_string(), vec![edata("g1", "h1")]),
        ("AD".to_string(), vec![edata("h1", ""), edata("h2", "")]),
    ];
    let set = SyncedEntitlementSet::from(ents, Some(("HR".to_string(), "AD".to_string())));
    assert_eq!(set.synced_from_to.len(), 1);
    assert_eq!(set.synced_from_to[0].1[0].to.as_ref().unwrap().uid, "h1");
    assert_eq!(set.nosync_to.len(), 1);
    assert_eq!(set.nosync_to[0].uid, "h2");
}

#[test]
fn default_sets_are_empty() {
    let a = SyncedAccountSet::default();
    assert!(a.sync.is_none());
    assert!(a.synced_from_to.is_empty());
    assert!(a.nosync_to.is_empty());
    let e = SyncedEntitlementSet::default();
    assert!(e.sync.is_none());
    assert!(e.synced_from_to.is_empty());
    assert!(e.nosync_to.is_empty());
}
