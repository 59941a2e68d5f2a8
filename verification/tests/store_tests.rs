use iga_core::dtos::{AccountDTO, EntitlementDTO, IdentityDTO};
use iga_core::ts::{extract_cn, Account, Entitlement, TargetSystem, TargetSystemConfig};
use iga_core::iga::Identity;

fn sv(v: Vec<&str>) -> Vec<String> {
    v.into_iter().map(|s| s.to_string()).collect()
}

fn ts_config(id: &str) -> TargetSystemConfig {
    TargetSystemConfig { unique_id: id.to_string(), other_attributes: Vec::new() }
}

fn acct_dto(id: &str, memberof: Option<Vec<&str>>) -> AccountDTO {
    AccountDTO {
        unique_id: id.to_string(),
        display_name: None,
        description: None,
        created: None,
        last_logon: None,
        password_last_set: None,
        expiration_date: None,
        enabled: None,
        deleted: None,
        locked: None,
        memberof: memberof.map(sv),
        ou: None,
        other_attributes: Vec::new(),
    }
}

fn ent_dto(id: &str, memberof: Option<Vec<&str>>) -> EntitlementDTO {
    EntitlementDTO {
        unique_id: id.to_string(),
        display_name: None,
        description: None,
        created: None,
        memberof: memberof.map(sv),
        all_indirect_memberof: Vec::new(),
        members: None,
        member_groups: None,
        ou: None,
        other_attributes: Vec::new(),
        ts_owners: None,
    }
}

fn account<'a>(ts: &'a TargetSystem, id: &str) -> &'a Account {
    ts.accounts.iter().find(|a| a.unique_id == id).unwrap()
}

fn entitlement<'a>(ts: &'a TargetSystem, id: &str) -> &'a Entitlement {
    ts.entitlements.iter().find(|e| e.unique_id == id).unwrap()
}

fn identity(id: &str, enabled: Option<bool>, termination_date: Option<i64>) -> Identity {
    Identity {
        unique_id: id.to_string(),
        first_name: String::new(),
        last_name: String::new(),
        email: String::new(),
        employee_no: String::new(),
        employee_type: String::new(),
        enabled,
        manager_key: String::new(),
        hire_date: None,
        termination_date,
        attributes: Vec::new(),
        matched_personal_accounts: Vec::new(),
        matched_owned_accounts: Vec::new(),
        matched_owned_groups: Vec::new(),
    }
}

#[test]
fn load_propagates_indirect_access() {
    // Account X holds B directly; B sits inside A; so X inherits A.
    let mut ts = TargetSystem::new(ts_config("TS"));
    ts.load(
        vec![acct_dto("X", Some(vec!["B"]))],
        vec![ent_dto("A", None), ent_dto("B", Some(vec!["A"]))],
        false,
    );
    assert_eq!(account(&ts, "X").memberof_indirect, sv(vec!["A"]));
    let mut c = entitlement(&ts, "B").all_indirect_memberof.clone();
    c.sort();
    assert_eq!(c, sv(vec!["A"]));
}

#[test]
fn direct_access_removed_from_indirect() {
    // X holds A and B directly; A is reachable through B but held directly,
    // so it is reported only as direct.
    let mut ts = TargetSystem::new(ts_config("TS"));
    ts.load(
        vec![acct_dto("X", Some(vec!["A", "B"]))],
        vec![ent_dto("A", None), ent_dto("B", Some(vec!["A"]))],
        false,
    );
    assert_eq!(account(&ts, "X").memberof_indirect, Vec::<String>::new());
}

#[test]
fn direct_and_indirect_membership_disjoint() {
    let mut ts = TargetSystem::new(ts_config("TS"));
    ts.load(
        vec![
            acct_dto("X", Some(vec!["C"])),
            acct_dto("Y", Some(vec!["B", "C"])),
            acct_dto("Z", None),
        ],
        vec![
            ent_dto("A", None),
            ent_dto("B", Some(vec!["A"])),
            ent_dto("C", Some(vec!["B"])),
        ],
        false,
    );
    for a in &ts.accounts {
        if let Some(direct) = &a.memberof {
            for ind in &a.memberof_indirect {
                assert!(!direct.contains(ind));
            }
        } else {
            assert!(a.memberof_indirect.is_empty());
        }
    }
    let mut x = account(&ts, "X").memberof_indirect.clone();
    x.sort();
    assert_eq!(x, sv(vec!["A", "B"]));
    assert_eq!(account(&ts, "Y").memberof_indirect, sv(vec!["A"]));
    assert_eq!(account(&ts, "Z").memberof_indirect, Vec::<String>::new());
}

#[test]
fn load_collapses_duplicate_identifiers_last_wins() {
    let mut first = acct_dto("X", None);
    first.description = Some("first".to_string());
    let mut second = acct_dto("X", None);
    second.description = Some("second".to_string());
    let mut ts = TargetSystem::new(ts_config("TS"));
    ts.load(vec![first, second], Vec::new(), false);
    assert_eq!(ts.accounts.len(), 1);
    assert_eq!(ts.accounts[0].description, Some("second".to_string()));
}

#[test]
fn load_records_creation_history() {
    let mut a = acct_dto("X", None);
    a.created = Some(738000);
    let mut e = ent_dto("G", None);
    e.created = Some(738001);
    let mut ts = TargetSystem::new(ts_config("TS"));
    ts.load(vec![a], vec![e], false);
    let ax = account(&ts, "X");
    assert_eq!(ax.history.len(), 1);
    assert_eq!(ax.history[0].date, 738000);
    assert_eq!(ax.history[0].source, "Account data");
    assert_eq!(ax.history[0].event_name, "Account creation");
    let eg = entitlement(&ts, "G");
    assert_eq!(eg.history.len(), 1);
    assert_eq!(eg.history[0].source, "Group data");
    assert_eq!(eg.history[0].event_name, "Group creation");
}

#[test]
fn orphan_accounts_are_enabled_without_owner() {
    let mut enabled_no_owner = acct_dto("A1", None);
    enabled_no_owner.enabled = Some(true);
    let mut disabled_no_owner = acct_dto("A2", None);
    disabled_no_owner.enabled = Some(false);
    let unknown = acct_dto("A3", None);
    let mut ts = TargetSystem::new(ts_config("TS"));
    ts.load(vec![enabled_no_owner, disabled_no_owner, unknown], Vec::new(), false);
    let orphans = ts.get_orphan_accounts();
    assert_eq!(orphans.len(), 1);
    assert_eq!(orphans[0].uid, "A1");
    // an enabled account with an owner is not an orphan
    assert!(account(&ts, "A1").is_orphan());
    let mut owned = account(&ts, "A1").clone();
    owned.identity_owners.push("I1".to_string());
    assert!(!owned.is_orphan());
}

#[test]
fn persistent_leavers_need_all_owners_inactive_and_terminated() {
    let idents = vec![
        identity("GONE", Some(false), Some(100)),
        identity("HERE", Some(true), None),
        identity("LEFT", Some(false), Some(150)),
    ];
    let mut a = acct_dto("X", None);
    a.enabled = Some(true);
    let mut ts = TargetSystem::new(ts_config("TS"));
    ts.load(vec![a], Vec::new(), false);
    let mut x = account(&ts, "X").clone();
    // no owners: never a leaver
    assert!(!x.is_persistent_leaver_on(&idents, 200));
    // all owners inactive with past termination: a leaver
    x.identity_owners = sv(vec!["GONE", "LEFT"]);
    assert!(x.is_persistent_leaver_on(&idents, 200));
    // termination not yet in the past on day 150
    assert!(!x.is_persistent_leaver_on(&idents, 150));
    // one active owner stops it
    x.identity_owners = sv(vec!["GONE", "HERE"]);
    assert!(!x.is_persistent_leaver_on(&idents, 200));
    // an owner that is no identity stops it
    x.identity_owners = sv(vec!["GONE", "NOBODY"]);
    assert!(!x.is_persistent_leaver_on(&idents, 200));
}

#[test]
fn category_totals_count_exactly() {
    let mut ts = TargetSystem::new(ts_config("TS"));
    ts.load(
        vec![acct_dto("A1", None), acct_dto("A2", None), acct_dto("A3", None)],
        Vec::new(),
        false,
    );
    ts.accounts[0].account_type = "user".to_string();
    ts.accounts[1].account_type = "user".to_string();
    ts.accounts[2].account_type = "service".to_string();
    let totals = ts.get_account_category_totals();
    assert_eq!(totals.ts_uid, "TS");
    assert_eq!(totals.categories, "Account type");
    let mut rows = totals.totals.clone();
    rows.sort();
    assert_eq!(rows, vec![("service".to_string(), 1), ("user".to_string(), 2)]);
}

#[test]
fn entitlement_count_per_ou_uses_fallback_label() {
    let mut with_ou = ent_dto("G1", None);
    with_ou.ou = Some("OU=Apps".to_string());
    let without = ent_dto("G2", None);
    let mut ts = TargetSystem::new(ts_config("TS"));
    ts.load(Vec::new(), vec![with_ou, without], false);
    let totals = ts.get_entitlement_count_per_ou();
    assert_eq!(totals.categories, "Count of entitlements in OU");
    let mut rows = totals.totals.clone();
    rows.sort();
    assert_eq!(rows, vec![("No OU".to_string(), 1), ("OU=Apps".to_string(), 1)]);
}

#[test]
fn account_projection_applies_display_fallbacks() {
    let mut a = acct_dto("X", Some(vec!["G", "MISSING"]));
    a.enabled = Some(true);
    let mut ts = TargetSystem::new(ts_config("TS"));
    ts.load(vec![a], vec![ent_dto("G", None)], false);
    let d = account(&ts, "X").to_data(&ts);
    assert_eq!(d.uid, "X");
    assert_eq!(d.display_name, "X");
    assert_eq!(d.description, "");
    assert_eq!(d.enabled, "Yes ");
    // only the resolving membership identifier yields a projection
    assert_eq!(d.entitlements.len(), 1);
    assert_eq!(d.entitlements[0].uid, "G");
    assert!(!d.macheo);
}

#[test]
fn enabled_labels() {
    let mut on = acct_dto("A", None);
    on.enabled = Some(true);
    let mut off = acct_dto("B", None);
    off.enabled = Some(false);
    let unknown = acct_dto("C", None);
    let mut ts = TargetSystem::new(ts_config("TS"));
    ts.load(vec![on, off, unknown], Vec::new(), false);
    assert_eq!(account(&ts, "A").to_data(&ts).enabled, "Yes ");
    assert_eq!(account(&ts, "B").to_data(&ts).enabled, "No ");
    assert_eq!(account(&ts, "C").to_data(&ts).enabled, "N/A");
}

#[test]
fn member_name_extraction() {
    assert_eq!(extract_cn(&"CN=Bob,OU=People,DC=x".to_string()), "Bob");
    assert_eq!(extract_cn(&"CN=Bob".to_string()), "Bob");
    // without the marker the whole string is kept, comma included
    assert_eq!(extract_cn(&"uid=7,OU=People".to_string()), "uid=7,OU=People");
    // every leading marker repetition is removed
    assert_eq!(extract_cn(&"CN=CN=Q,OU=x".to_string()), "Q");
    assert_eq!(extract_cn(&"".to_string()), "");
}

#[test]
fn entitlement_projection_resolves_member_accounts_by_name() {
    let mut g = ent_dto("G", None);
    g.members = Some(sv(vec!["CN=Bob,OU=People", "CN=Ghost,OU=People", "Nested"]));
    let mut ts = TargetSystem::new(ts_config("TS"));
    ts.load(vec![acct_dto("Bob", None)], vec![g, ent_dto("Nested", None)], false);
    let d = entitlement(&ts, "G").to_data(true, &ts);
    assert_eq!(d.member_accounts.len(), 1);
    assert_eq!(d.member_accounts[0].uid, "Bob");
    // member groups are looked up under the raw member identifiers
    assert_eq!(d.member_groups.len(), 1);
    assert_eq!(d.member_groups[0].uid, "Nested");
    // without membership detail both lists stay empty
    let plain = entitlement(&ts, "G").to_data(false, &ts);
    assert!(plain.member_accounts.is_empty());
    assert!(plain.member_groups.is_empty());
}

#[test]
fn history_append_reaches_only_keyed_records() {
    let mut ts = TargetSystem::new(ts_config("TS"));
    ts.load(vec![acct_dto("X", None), acct_dto("Y", None)], Vec::new(), false);
    let rec = iga_core::ts::HistoryRecord {
        link_key: String::new(),
        date: 5,
        source: "import".to_string(),
        event_name: "seen".to_string(),
        initiator: String::new(),
        state: String::new(),
        description: String::new(),
    };
    ts.add_account_history(vec![("X".to_string(), rec)]);
    assert_eq!(account(&ts, "X").history.len(), 1);
    assert_eq!(account(&ts, "X").history[0].date, 5);
    assert_eq!(account(&ts, "Y").history.len(), 0);
}

#[test]
fn default_identity_dto_is_empty() {
    let d = IdentityDTO::default();
    assert_eq!(d.unique_id, "");
    assert_eq!(d.first_name, "");
    assert!(d.enabled.is_none());
    assert!(d.hire_date.is_none());
    assert!(d.termination_date.is_none());
    assert!(d.attributes.is_empty());
}
