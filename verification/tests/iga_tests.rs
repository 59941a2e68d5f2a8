use iga_core::connector::{resolve_column_indexes, ColumnMeaning, IdentityXlsxConnector};
use iga_core::dtos::{AccountDTO, IdentityDTO};
use iga_core::iga::{Iga, IgaConfig, IgaError, Identity, IdentitySourceConfig};
use iga_core::sheets::TotalsSheet;
use iga_core::ts::{HistoryRecord, TargetSystem, TargetSystemConfig};

fn sv(v: Vec<&str>) -> Vec<String> {
    v.into_iter().map(|s| s.to_string()).collect()
}

fn connector() -> IdentityXlsxConnector {
    IdentityXlsxConnector {
        source_path: "identities.xlsx".to_string(),
        sheet_name: "Sheet1".to_string(),
        identity_attributes: Vec::new(),
    }
}

fn iga() -> Iga {
    Iga::new(IgaConfig::new(IdentitySourceConfig { connector: connector() }))
}

fn ident_dto(id: &str, first: &str, last: &str) -> IdentityDTO {
    let mut d = IdentityDTO::default();
    d.unique_id = id.to_string();
    d.first_name = first.to_string();
    d.last_name = last.to_string();
    d
}

fn acct_dto(id: &str) -> AccountDTO {
    AccountDTO {
        unique_id: id.to_string(),
        display_name: None,
        description: None,
        created: None,
        last_logon: None,
        password_last_set: None,
        expiration_date: None,
        enabled: None,
        deleted: None,
        locked: None,
        memberof: None,
        ou: None,
        other_attributes: Vec::new(),
    }
}

fn loaded_ts(id: &str, accounts: Vec<AccountDTO>) -> TargetSystem {
    let mut ts = TargetSystem::new(TargetSystemConfig {
        unique_id: id.to_string(),
        other_attributes: Vec::new(),
    });
    ts.load(accounts, Vec::new(), false);
    ts
}

#[test]
fn config_collects_systems_and_sync() {
    let mut cfg = IgaConfig::new(IdentitySourceConfig { connector: connector() });
    assert!(cfg.ts_sync.is_none());
    cfg.add_target_system(TargetSystemConfig {
        unique_id: "HR".to_string(),
        other_attributes: Vec::new(),
    });
    cfg.add_sync(("HR".to_string(), "AD".to_string()));
    assert_eq!(cfg.target_systems.len(), 1);
    assert_eq!(cfg.ts_sync, Some(("HR".to_string(), "AD".to_string())));
    let root = Iga::new(cfg);
    assert_eq!(root.get_ts_sync(), &Some(("HR".to_string(), "AD".to_string())));
}

#[test]
fn identities_load_collapses_duplicates() {
    let mut root = iga();
    root.load_identities(vec![
        ident_dto("I1", "Ada", "Lovelace"),
        ident_dto("I1", "Ada", "Byron"),
        ident_dto("I2", "Alan", "Turing"),
    ]);
    assert_eq!(root.identities.len(), 2);
    let i1 = root.identities.iter().find(|i| i.unique_id == "I1").unwrap();
    assert_eq!(i1.last_name, "Byron");
}

#[test]
fn identity_projection_builds_name_line() {
    let mut root = iga();
    root.load_identities(vec![ident_dto("I1", "Ada", "Lovelace")]);
    let d = root.get_identity_data(&"I1".to_string()).unwrap();
    assert_eq!(d.display_name, "Ada Lovelace (I1)");
    assert_eq!(d.unique_id, "I1");
    assert!(d.personal_accounts.is_empty());
    assert!(root.get_identity_data(&"NOBODY".to_string()).is_none());
}

#[test]
fn identity_projection_resolves_matched_access() {
    let mut root = iga();
    root.load_identities(vec![ident_dto("I1", "Ada", "Lovelace")]);
    root.insert_target_system(loaded_ts("AD", vec![acct_dto("ada1"), acct_dto("other")]));
    let i1: &mut Identity = &mut root.identities[0];
    i1.matched_personal_accounts.push(("AD".to_string(), sv(vec!["ada1", "ghost"])));
    i1.matched_personal_accounts.push(("GONE".to_string(), sv(vec!["x"])));
    let d = root.get_identity_data(&"I1".to_string()).unwrap();
    // the group naming no loaded system is skipped; dangling account
    // identifiers are skipped inside the group
    assert_eq!(d.personal_accounts.len(), 1);
    assert_eq!(d.personal_accounts[0].0, "AD");
    assert_eq!(d.personal_accounts[0].1.len(), 1);
    assert_eq!(d.personal_accounts[0].1[0].uid, "ada1");
}

#[test]
fn insert_target_system_replaces_same_identifier() {
    let mut root = iga();
    root.insert_target_system(loaded_ts("AD", vec![acct_dto("a1")]));
    root.insert_target_system(loaded_ts("AD", vec![acct_dto("a2"), acct_dto("a3")]));
    root.insert_target_system(loaded_ts("HR", Vec::new()));
    assert_eq!(root.target_systems.len(), 2);
    assert_eq!(root.target_systems[0].config.unique_id, "AD");
    assert_eq!(root.target_systems[0].accounts.len(), 2);
    assert_eq!(root.target_systems[1].config.unique_id, "HR");
}

#[test]
fn history_for_unknown_system_is_an_error() {
    let mut root = iga();
    root.insert_target_system(loaded_ts("AD", vec![acct_dto("a1")]));
    let rec = HistoryRecord {
        link_key: String::new(),
        date: 9,
        source: "import".to_string(),
        event_name: "seen".to_string(),
        initiator: String::new(),
        state: String::new(),
        description: String::new(),
    };
    let err = root.add_account_history(&"NOPE".to_string(), vec![("a1".to_string(), rec.clone())]);
    assert_eq!(err, Err(IgaError::TargetSystemNotFound));
    let ok = root.add_account_history(&"AD".to_string(), vec![("a1".to_string(), rec.clone())]);
    assert_eq!(ok, Ok(()));
    assert_eq!(root.target_systems[0].accounts[0].history.len(), 1);
    let err2 = root.add_entitlement_history(&"NOPE".to_string(), vec![("g".to_string(), rec)]);
    assert_eq!(err2, Err(IgaError::TargetSystemNotFound));
}

#[test]
fn orphans_reported_per_system() {
    let mut enabled = acct_dto("a1");
    enabled.enabled = Some(true);
    let mut root = iga();
    root.insert_target_system(loaded_ts("AD", vec![enabled, acct_dto("a2")]));
    root.insert_target_system(loaded_ts("HR", Vec::new()));
    let orphans = root.get_orphan_accounts();
    assert_eq!(orphans.len(), 2);
    assert_eq!(orphans[0].0, "AD");
    assert_eq!(orphans[0].1.len(), 1);
    assert_eq!(orphans[0].1[0].uid, "a1");
    assert_eq!(orphans[1].0, "HR");
    assert!(orphans[1].1.is_empty());
}

#[test]
fn aggregate_views_cover_every_system() {
    let mut root = iga();
    root.insert_target_system(loaded_ts("AD", vec![acct_dto("a1")]));
    root.insert_target_system(loaded_ts("HR", vec![acct_dto("h1"), acct_dto("h2")]));
    let totals = root.get_account_count_per_type();
    assert_eq!(totals.len(), 2);
    assert_eq!(totals[0].ts_uid, "AD");
    assert_eq!(totals[1].ts_uid, "HR");
    // every account carries the empty category label after load
    assert_eq!(totals[1].totals, vec![(String::new(), 2)]);
    let per_type = root.get_accounts_per_type();
    assert_eq!(per_type.len(), 2);
    assert_eq!(per_type[1].type_lists[0].1.len(), 2);
    let ent_totals = root.get_entitlement_count_per_type();
    assert_eq!(ent_totals.len(), 2);
    let ou = root.get_entitlement_count_per_ou();
    assert_eq!(ou.len(), 2);
    assert!(ou[0].totals.is_empty());
    let cats = root.get_entitlements_per_type();
    assert_eq!(cats.len(), 2);
}

#[test]
fn column_resolution_finds_first_position() {
    let header = sv(vec!["Name", "Mail", "Name", "Id"]);
    let mut attrs = vec![
        ColumnMeaning {
            xlsx_column_name: "Id".to_string(),
            identity_attribute: Some("unique_id".to_string()),
            column_index: 0,
        },
        ColumnMeaning {
            xlsx_column_name: "Name".to_string(),
            identity_attribute: None,
            column_index: 0,
        },
    ];
    assert!(resolve_column_indexes(&mut attrs, &header));
    assert_eq!(attrs[0].column_index, 3);
    assert_eq!(attrs[1].column_index, 0);
}

#[test]
fn column_resolution_fails_on_missing_name() {
    let header = sv(vec!["Name"]);
    let mut attrs = vec![ColumnMeaning {
        xlsx_column_name: "Missing".to_string(),
        identity_attribute: None,
        column_index: 7,
    }];
    assert!(!resolve_column_indexes(&mut attrs, &header));
    assert_eq!(attrs[0].column_index, 7);
}

#[test]
fn totals_sheet_hands_back_its_table() {
    let t = iga_core::dtos::CategoryTotals {
        ts_uid: "AD".to_string(),
        categories: "Account type".to_string(),
        totals: vec![("user".to_string(), 3)],
    };
    let sheet = TotalsSheet(&t);
    assert_eq!(sheet.totals().totals[0], ("user".to_string(), 3));
}
