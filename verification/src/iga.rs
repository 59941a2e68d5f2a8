//! Identity governance root: identities, target systems and derived views.
//!
//! One `Iga` value holds the loaded identities and the loaded target systems,
//! with the one optional synchronization pair threaded into reconciliation.
//! Its query functions are pure scans over the loaded stores: they never
//! mutate state.

use vstd::prelude::*;
use vstd::string::StringExecFns;
use crate::dtos::{
    IdentityDTO, IdentityData, AccountData, EntitlementData, CategoryTotals, CategorizedAccounts,
    CategorizedEntitlements,
};
use crate::ts::{
    TargetSystem, TargetSystemConfig, HistoryRecord, acct_datas_rel, ent_datas_full_rel,
    acct_list_rel, leavers_listed, is_orphan_spec, unique_hist_keys, history_appended_acct,
    history_appended_ent, acct_totals_ok, ent_totals_ok, ou_totals_ok, categorized_accts_ok,
    categorized_ents_ok, Account,
};
use crate::connector::IdentityXlsxConnector;

verus! {

/// One identity from the identity roster, with the access the injected
/// matching rules assigned to it (per target-system identifier).
pub struct Identity {
    pub unique_id: String,
    pub first_name: String,
    pub last_name: String,
    pub email: String,
    pub employee_no: String,
    pub employee_type: String,
    pub enabled: Option<bool>,
    pub manager_key: String,
    pub hire_date: Option<i64>,
    pub termination_date: Option<i64>,
    pub attributes: Vec<(String, String)>,

    pub matched_personal_accounts: Vec<(String, Vec<String>)>,
    pub matched_owned_accounts: Vec<(String, Vec<String>)>,
    pub matched_owned_groups: Vec<(String, Vec<String>)>,
}

/// The identity carries exactly what the flat record describes, with no
/// matched access yet.
pub open spec fn identity_of_dto(dto: IdentityDTO, r: Identity) -> bool {
    &&& r.unique_id == dto.unique_id
    &&& r.first_name == dto.first_name
    &&& r.last_name == dto.last_name
    &&& r.email == dto.email
    &&& r.employee_no == dto.employee_no
    &&& r.employee_type == dto.employee_type
    &&& r.enabled == dto.enabled
    &&& r.manager_key == dto.manager_key
    &&& r.hire_date == dto.hire_date
    &&& r.termination_date == dto.termination_date
    &&& r.attributes == dto.attributes
    &&& r.matched_personal_accounts@ == Seq::<(String, Vec<String>)>::empty()
    &&& r.matched_owned_accounts@ == Seq::<(String, Vec<String>)>::empty()
    &&& r.matched_owned_groups@ == Seq::<(String, Vec<String>)>::empty()
}

/// Some identity of the collection carries `id`.
pub open spec fn has_identity(s: Seq<Identity>, id: Seq<char>) -> bool {
    exists|i: int| 0 <= i < s.len() && #[trigger] s[i].unique_id@ == id
}

/// No two identities of the collection carry the same identifier.
pub open spec fn unique_identity_ids(s: Seq<Identity>) -> bool {
    forall|i: int, j: int| #![trigger s[i], s[j]]
        0 <= i < j < s.len() ==> s[i].unique_id@ != s[j].unique_id@
}

/// The identity of the collection carrying `id`.
pub open spec fn identity_at(s: Seq<Identity>, id: Seq<char>) -> Identity
    recommends
        has_identity(s, id),
{
    s[choose|i: int| 0 <= i < s.len() && #[trigger] s[i].unique_id@ == id]
}

/// An identity explicitly disabled in the roster. An identity without the
/// flag is not taken to be inactive.
pub open spec fn is_inactive_spec(id: Identity) -> bool {
    match id.enabled {
        Some(e) => !e,
        None => false,
    }
}

/// First identity of the collection carrying the given identifier.
pub fn find_identity(idents: &Vec<Identity>, id: &String) -> (r: Option<usize>)
    ensures
        match r {
            Some(j) => j < idents@.len() && idents@[j as int].unique_id@ == id@,
            None => !has_identity(idents@, id@),
        },
{
    let mut j: usize = 0;
    while j < idents.len()
        invariant
            0 <= j <= idents@.len(),
            forall|m: int| 0 <= m < j ==> (#[trigger] idents@[m]).unique_id@ != id@,
        decreases idents@.len() - j,
    {
        if idents[j].unique_id.eq(id) {
            return Some(j);
        }
        j += 1;
    }
    None
}

/// With unique identifiers, the identity found at an index is the one the
/// lookup by its identifier yields.
pub proof fn lemma_identity_at_index(idents: Seq<Identity>, j: int)
    requires
        unique_identity_ids(idents),
        0 <= j < idents.len(),
    ensures
        has_identity(idents, idents[j].unique_id@),
        identity_at(idents, idents[j].unique_id@) == idents[j],
{
    let id = idents[j].unique_id@;
    assert(has_identity(idents, id));
    let w = choose|i: int| 0 <= i < idents.len() && #[trigger] idents[i].unique_id@ == id;
    assert(w == j);
}

impl Identity {
    /// Builds the identity a flat record describes, with no matched access.
    pub fn from_identity_dto(dto: IdentityDTO) -> (r: Identity)
        ensures
            identity_of_dto(dto, r),
    {
        Identity {
            unique_id: dto.unique_id,
            first_name: dto.first_name,
            last_name: dto.last_name,
            email: dto.email,
            employee_no: dto.employee_no,
            employee_type: dto.employee_type,
            enabled: dto.enabled,
            manager_key: dto.manager_key,
            hire_date: dto.hire_date,
            termination_date: dto.termination_date,
            attributes: dto.attributes,
            matched_personal_accounts: Vec::new(),
            matched_owned_accounts: Vec::new(),
            matched_owned_groups: Vec::new(),
        }
    }

    /// Explicitly disabled in the roster.
    pub fn is_inactive(&self) -> (r: bool)
        ensures
            r == is_inactive_spec(*self),
    {
        match self.enabled {
            Some(e) => !e,
            None => false,
        }
    }
}

/// Some target system of the collection carries `id`.
pub open spec fn has_ts(s: Seq<TargetSystem>, id: Seq<char>) -> bool {
    exists|i: int| 0 <= i < s.len() && #[trigger] s[i].config.unique_id@ == id
}

/// No two target systems of the collection carry the same identifier.
pub open spec fn unique_ts_ids(s: Seq<TargetSystem>) -> bool {
    forall|i: int, j: int| #![trigger s[i], s[j]]
        0 <= i < j < s.len() ==> s[i].config.unique_id@ != s[j].config.unique_id@
}

/// The target system of the collection carrying `id`.
pub open spec fn ts_at(s: Seq<TargetSystem>, id: Seq<char>) -> TargetSystem
    recommends
        has_ts(s, id),
{
    s[choose|i: int| 0 <= i < s.len() && #[trigger] s[i].config.unique_id@ == id]
}

/// Every store of the collection is well-formed.
pub open spec fn all_ts_wf(s: Seq<TargetSystem>) -> bool {
    forall|i: int| 0 <= i < s.len() ==> (#[trigger] s[i]).wf()
}

/// First target system of the collection carrying the given identifier.
pub fn find_ts(tss: &Vec<TargetSystem>, id: &String) -> (r: Option<usize>)
    ensures
        match r {
            Some(j) => j < tss@.len() && tss@[j as int].config.unique_id@ == id@,
            None => !has_ts(tss@, id@),
        },
{
    let mut j: usize = 0;
    while j < tss.len()
        invariant
            0 <= j <= tss@.len(),
            forall|m: int| 0 <= m < j ==> (#[trigger] tss@[m]).config.unique_id@ != id@,
        decreases tss@.len() - j,
    {
        if tss[j].config.unique_id.eq(id) {
            return Some(j);
        }
        j += 1;
    }
    None
}

/// With unique identifiers, the target system found at an index is the one
/// the lookup by its identifier yields.
proof fn lemma_ts_at_index(tss: Seq<TargetSystem>, j: int)
    requires
        unique_ts_ids(tss),
        0 <= j < tss.len(),
    ensures
        has_ts(tss, tss[j].config.unique_id@),
        ts_at(tss, tss[j].config.unique_id@) == tss[j],
{
    let id = tss[j].config.unique_id@;
    assert(has_ts(tss, id));
    let w = choose|i: int| 0 <= i < tss.len() && #[trigger] tss[i].config.unique_id@ == id;
    assert(w == j);
}

/// One group of account projections per matched group whose target system is
/// loaded, in order; a group naming no loaded system is silently skipped.
pub open spec fn acct_groups_rel(
    tss: Seq<TargetSystem>,
    groups: Seq<(String, Vec<String>)>,
    out: Seq<(String, Vec<AccountData>)>,
) -> bool {
    let res = groups.filter(|g: (String, Vec<String>)| has_ts(tss, g.0@));
    &&& out.len() == res.len()
    &&& forall|k: int|
        0 <= k < out.len() ==> (#[trigger] out[k]).0 == res[k].0 && acct_datas_rel(
            ts_at(tss, res[k].0@).accounts@,
            ts_at(tss, res[k].0@).entitlements@,
            res[k].1@,
            out[k].1@,
        )
}

/// One group of entitlement projections (with membership detail) per matched
/// group whose target system is loaded, in order.
pub open spec fn ent_groups_rel(
    tss: Seq<TargetSystem>,
    groups: Seq<(String, Vec<String>)>,
    out: Seq<(String, Vec<EntitlementData>)>,
) -> bool {
    let res = groups.filter(|g: (String, Vec<String>)| has_ts(tss, g.0@));
    &&& out.len() == res.len()
    &&& forall|k: int|
        0 <= k < out.len() ==> (#[trigger] out[k]).0 == res[k].0 && ent_datas_full_rel(
            ts_at(tss, res[k].0@).accounts@,
            ts_at(tss, res[k].0@).entitlements@,
            res[k].1@,
            out[k].1@,
        )
}

/// One group of account projections per matched group that resolves.
fn acct_groups(tss: &Vec<TargetSystem>, groups: &Vec<(String, Vec<String>)>) -> (r: Vec<
    (String, Vec<AccountData>),
>)
    requires
        unique_ts_ids(tss@),
        all_ts_wf(tss@),
    ensures
        acct_groups_rel(tss@, groups@, r@),
{
    let mut out: Vec<(String, Vec<AccountData>)> = Vec::new();
    let mut k: usize = 0;
    proof {
        reveal_with_fuel(Seq::filter, 2);
        assert(groups@.take(0) =~= Seq::<(String, Vec<String>)>::empty());
    }
    while k < groups.len()
        invariant
            0 <= k <= groups@.len(),
            unique_ts_ids(tss@),
            all_ts_wf(tss@),
            acct_groups_rel(tss@, groups@.take(k as int), out@),
        decreases groups@.len() - k,
    {
        let found = find_ts(tss, &groups[k].0);
        match found {
            Some(j) => {
                proof {
                    lemma_ts_at_index(tss@, j as int);
                }
                let datas = tss[j].get_accounts_data(&groups[k].1);
                out.push((groups[k].0.clone(), datas));
            },
            None => {},
        }
        proof {
            reveal_with_fuel(Seq::filter, 2);
            let tk1 = groups@.take(k + 1);
            assert(tk1.drop_last() =~= groups@.take(k as int));
            assert(tk1.last() == groups@[k as int]);
        }
        k += 1;
    }
    proof {
        assert(groups@.take(groups@.len() as int) =~= groups@);
    }
    out
}

/// One group of entitlement projections per matched group that resolves.
fn ent_groups(tss: &Vec<TargetSystem>, groups: &Vec<(String, Vec<String>)>) -> (r: Vec<
    (String, Vec<EntitlementData>),
>)
    requires
        unique_ts_ids(tss@),
        all_ts_wf(tss@),
    ensures
        ent_groups_rel(tss@, groups@, r@),
{
    let mut out: Vec<(String, Vec<EntitlementData>)> = Vec::new();
    let mut k: usize = 0;
    proof {
        reveal_with_fuel(Seq::filter, 2);
        assert(groups@.take(0) =~= Seq::<(String, Vec<String>)>::empty());
    }
    while k < groups.len()
        invariant
            0 <= k <= groups@.len(),
            unique_ts_ids(tss@),
            all_ts_wf(tss@),
            ent_groups_rel(tss@, groups@.take(k as int), out@),
        decreases groups@.len() - k,
    {
        let found = find_ts(tss, &groups[k].0);
        match found {
            Some(j) => {
                proof {
                    lemma_ts_at_index(tss@, j as int);
                }
                let datas = tss[j].get_entitlements_data(true, &groups[k].1);
                out.push((groups[k].0.clone(), datas));
            },
            None => {},
        }
        proof {
            reveal_with_fuel(Seq::filter, 2);
            let tk1 = groups@.take(k + 1);
            assert(tk1.drop_last() =~= groups@.take(k as int));
            assert(tk1.last() == groups@[k as int]);
        }
        k += 1;
    }
    proof {
        assert(groups@.take(groups@.len() as int) =~= groups@);
    }
    out
}

/// The identity's report projection: name line, and its matched access
/// resolved per loaded target system.
pub open spec fn identity_data_rel(tss: Seq<TargetSystem>, id: Identity, d: IdentityData) -> bool {
    &&& d.unique_id == id.unique_id
    &&& d.display_name@ == id.first_name@ + " "@ + id.last_name@ + " ("@ + id.unique_id@ + ")"@
    &&& d.attributes@.len() == 0
    &&& acct_groups_rel(tss, id.matched_personal_accounts@, d.personal_accounts@)
    &&& acct_groups_rel(tss, id.matched_owned_accounts@, d.owned_accounts@)
    &&& ent_groups_rel(tss, id.matched_owned_groups@, d.owned_groups@)
}

impl Identity {
    /// Builds the identity's report projection over the loaded target
    /// systems.
    pub fn to_data(&self, target_systems: &Vec<TargetSystem>) -> (r: IdentityData)
        requires
            unique_ts_ids(target_systems@),
            all_ts_wf(target_systems@),
        ensures
            identity_data_rel(target_systems@, *self, r),
    {
        let display_name = self.first_name.clone().concat(" ").concat(
            self.last_name.as_str(),
        ).concat(" (").concat(self.unique_id.as_str()).concat(")");
        IdentityData {
            unique_id: self.unique_id.clone(),
            display_name,
            attributes: Vec::new(),
            personal_accounts: acct_groups(target_systems, &self.matched_personal_accounts),
            owned_accounts: acct_groups(target_systems, &self.matched_owned_accounts),
            owned_groups: ent_groups(target_systems, &self.matched_owned_groups),
        }
    }
}

/// Configuration of the identity source: its connector.
pub struct IdentitySourceConfig {
    pub connector: IdentityXlsxConnector,
}

/// The whole run's configuration: the identity source, the target systems to
/// load, and at most one synchronization pair.
pub struct IgaConfig {
    pub identity_sources: IdentitySourceConfig,
    pub target_systems: Vec<TargetSystemConfig>,
    pub ts_sync: Option<(String, String)>,
}

impl IgaConfig {
    /// A configuration with the given identity source, no target systems and
    /// no synchronization pair.
    pub fn new(id_s: IdentitySourceConfig) -> (r: Self)
        ensures
            r.identity_sources == id_s,
            r.target_systems@ =~= Seq::<TargetSystemConfig>::empty(),
            r.ts_sync is None,
    {
        IgaConfig { identity_sources: id_s, target_systems: Vec::new(), ts_sync: None }
    }

    /// Registers one more target system to load.
    pub fn add_target_system(&mut self, t_s: TargetSystemConfig)
        ensures
            final(self).identity_sources == old(self).identity_sources,
            final(self).ts_sync == old(self).ts_sync,
            final(self).target_systems@ == old(self).target_systems@.push(t_s),
    {
        self.target_systems.push(t_s);
    }

    /// Sets the one synchronization pair.
    pub fn add_sync(&mut self, ts_sync: (String, String))
        ensures
            final(self).identity_sources == old(self).identity_sources,
            final(self).target_systems == old(self).target_systems,
            final(self).ts_sync == Some(ts_sync),
    {
        self.ts_sync = Some(ts_sync);
    }
}

/// Errors the governance root reports.
#[derive(Debug, Clone, PartialEq, Eq)]
pub enum IgaError {
    /// No loaded target system carries the named identifier.
    TargetSystemNotFound,
}

/// No flat identity record after `i` carries the identifier of the one at
/// `i`.
pub open spec fn last_ident_dto_occurrence(input: Seq<IdentityDTO>, i: int) -> bool {
    forall|i2: int|
        i < i2 < input.len() ==> (#[trigger] input[i2]).unique_id@ != input[i].unique_id@
}

/// Some flat identity record of the collection carries `id`.
pub open spec fn has_ident_dto(s: Seq<IdentityDTO>, id: Seq<char>) -> bool {
    exists|i: int| 0 <= i < s.len() && #[trigger] s[i].unique_id@ == id
}

/// No two flat identity records of the collection carry the same identifier.
pub open spec fn unique_ident_dto_ids(s: Seq<IdentityDTO>) -> bool {
    forall|i: int, j: int| #![trigger s[i], s[j]]
        0 <= i < j < s.len() ==> s[i].unique_id@ != s[j].unique_id@
}

/// `x` is a record of `orig` at or after position `lo`, and no later record
/// of `orig` carries its identifier.
pub open spec fn kept_from_ident_dto(orig: Seq<IdentityDTO>, lo: int, x: IdentityDTO) -> bool {
    exists|i: int|
        lo <= i < orig.len() && x == #[trigger] orig[i] && last_ident_dto_occurrence(orig, i)
}

/// Exactly the relation the identity dedup establishes.
pub open spec fn dedup_idents_rel(input: Seq<IdentityDTO>, out: Seq<IdentityDTO>) -> bool {
    &&& unique_ident_dto_ids(out)
    &&& forall|j: int| 0 <= j < out.len() ==> kept_from_ident_dto(input, 0, #[trigger] out[j])
    &&& forall|i: int|
        0 <= i < input.len() ==> has_ident_dto(out, (#[trigger] input[i]).unique_id@)
}

/// Collapses duplicate identifiers among flat identity records: of several
/// records carrying one identifier the last wins.
pub fn dedup_identity_dtos(input: Vec<IdentityDTO>) -> (r: Vec<IdentityDTO>)
    ensures
        dedup_idents_rel(input@, r@),
{
    let ghost orig = input@;
    let mut input = input;
    let mut r: Vec<IdentityDTO> = Vec::new();
    while input.len() > 0
        invariant
            input@ =~= orig.take(input@.len() as int),
            input@.len() <= orig.len(),
            unique_ident_dto_ids(r@),
            forall|j: int|
                0 <= j < r@.len() ==> kept_from_ident_dto(
                    orig,
                    input@.len() as int,
                    #[trigger] r@[j],
                ),
            forall|i: int|
                input@.len() <= i < orig.len() ==> has_ident_dto(
                    r@,
                    (#[trigger] orig[i]).unique_id@,
                ),
        decreases input@.len(),
    {
        let ghost m = input@.len() as int;
        let ghost r_pre = r@;
        let a = input.pop().unwrap();
        proof {
            assert(a == orig[m - 1]);
            assert(input@ =~= orig.take(m - 1));
        }
        let mut present = false;
        let mut w: usize = 0;
        while w < r.len()
            invariant
                0 <= w <= r@.len(),
                a == orig[m - 1],
                present == exists|x: int|
                    0 <= x < w && (#[trigger] r@[x]).unique_id@ == a.unique_id@,
            decreases r@.len() - w,
        {
            if r[w].unique_id.eq(&a.unique_id) {
                present = true;
            }
            w += 1;
        }
        if !present {
            r.push(a);
            proof {
                assert forall|x: int, y: int| #![trigger r@[x], r@[y]]
                    0 <= x < y < r@.len() implies r@[x].unique_id@ != r@[y].unique_id@ by {
                    if y < r@.len() - 1 {
                        assert(r_pre[x].unique_id@ != r_pre[y].unique_id@);
                    } else {
                        if r@[x].unique_id@ == r@[y].unique_id@ {
                            assert(has_ident_dto(r_pre, orig[m - 1].unique_id@));
                        }
                    }
                }
                assert(last_ident_dto_occurrence(orig, m - 1)) by {
                    assert forall|i2: int| m - 1 < i2 < orig.len() implies (
                    #[trigger] orig[i2]).unique_id@ != orig[m - 1].unique_id@ by {
                        if orig[i2].unique_id@ == orig[m - 1].unique_id@ {
                            assert(has_ident_dto(r_pre, orig[i2].unique_id@));
                        }
                    }
                }
                assert forall|j: int| 0 <= j < r@.len() implies kept_from_ident_dto(
                    orig,
                    m - 1,
                    #[trigger] r@[j],
                ) by {
                    if j < r@.len() - 1 {
                        let i = choose|i: int|
                            m <= i < orig.len() && r_pre[j] == #[trigger] orig[i]
                                && last_ident_dto_occurrence(orig, i);
                        assert(r@[j] == orig[i]);
                    } else {
                        assert(r@[j] == orig[m - 1]);
                    }
                }
                assert forall|i: int| m - 1 <= i < orig.len() implies has_ident_dto(
                    r@,
                    (#[trigger] orig[i]).unique_id@,
                ) by {
                    if i >= m {
                        let x = choose|x: int|
                            0 <= x < r_pre.len() && (#[trigger] r_pre[x]).unique_id@
                                == orig[i].unique_id@;
                        assert(r@[x].unique_id@ == orig[i].unique_id@);
                    } else {
                        assert(r@[r@.len() - 1].unique_id@ == orig[m - 1].unique_id@);
                    }
                }
            }
        } else {
            proof {
                assert(has_ident_dto(r@, orig[m - 1].unique_id@));
                assert forall|j: int| 0 <= j < r@.len() implies kept_from_ident_dto(
                    orig,
                    m - 1,
                    #[trigger] r@[j],
                ) by {
                    let i = choose|i: int|
                        m <= i < orig.len() && r@[j] == #[trigger] orig[i]
                            && last_ident_dto_occurrence(orig, i);
                }
            }
        }
    }
    r
}

/// The identities of one load: duplicates collapsed last-wins, then carried
/// into identity records.
pub open spec fn identities_loaded(input: Seq<IdentityDTO>, out: Seq<Identity>) -> bool {
    exists|kept: Seq<IdentityDTO>|
        {
            &&& #[trigger] dedup_idents_rel(input, kept)
            &&& out.len() == kept.len()
            &&& forall|i: int|
                0 <= i < kept.len() ==> identity_of_dto(kept[i], #[trigger] out[i])
        }
}

/// Per target system, the listed leavers as of one day.
pub open spec fn all_leavers_listed(
    tss: Seq<TargetSystem>,
    idents: Seq<Identity>,
    today: i64,
    out: Seq<(String, Vec<AccountData>)>,
) -> bool {
    forall|k: int|
        0 <= k < out.len() ==> #[trigger] leavers_listed(
            tss[k].entitlements@,
            tss[k].accounts@,
            idents,
            today,
            out[k].1@,
        )
}

/// The governance root: the loaded identities and target systems, under the
/// run's configuration.
pub struct Iga {
    pub config: IgaConfig,
    pub identities: Vec<Identity>,
    pub target_systems: Vec<TargetSystem>,
}

impl Iga {
    /// A root with nothing loaded yet.
    pub fn new(config: IgaConfig) -> (r: Iga)
        ensures
            r.config == config,
            r.identities@ =~= Seq::<Identity>::empty(),
            r.target_systems@ =~= Seq::<TargetSystem>::empty(),
    {
        Iga { config, identities: Vec::new(), target_systems: Vec::new() }
    }

    /// Replaces the loaded identities with the given flat records: duplicate
    /// identifiers collapse (last wins), every record is carried over with
    /// no matched access yet.
    pub fn load_identities(&mut self, dtos: Vec<IdentityDTO>)
        ensures
            final(self).config == old(self).config,
            final(self).target_systems == old(self).target_systems,
            identities_loaded(dtos@, final(self).identities@),
            unique_identity_ids(final(self).identities@),
    {
        let kept = dedup_identity_dtos(dtos);
        let ghost keptg = kept@;
        let mut rest = kept;
        let mut out: Vec<Identity> = Vec::new();
        while rest.len() > 0
            invariant
                out@.len() + rest@.len() == keptg.len(),
                rest@ =~= keptg.skip(out@.len() as int),
                forall|m: int|
                    0 <= m < out@.len() ==> identity_of_dto(keptg[m], #[trigger] out@[m]),
            decreases rest@.len(),
        {
            let ghost n = out@.len() as int;
            let d = rest.remove(0);
            out.push(Identity::from_identity_dto(d));
            proof {
                assert(rest@ =~= keptg.skip(n + 1));
            }
        }
        proof {
            assert forall|a: int, b: int| #![trigger out@[a], out@[b]]
                0 <= a < b < out@.len() implies out@[a].unique_id@ != out@[b].unique_id@ by {
                assert(keptg[a].unique_id@ != keptg[b].unique_id@);
            }
        }
        self.identities = out;
        proof {
            assert(dedup_idents_rel(dtos@, keptg));
            assert(identities_loaded(dtos@, self.identities@));
        }
    }

    /// Inserts one loaded target system, replacing a loaded system that
    /// carries the same identifier.
    pub fn insert_target_system(&mut self, ts: TargetSystem)
        ensures
            final(self).config == old(self).config,
            final(self).identities == old(self).identities,
            !has_ts(old(self).target_systems@, ts.config.unique_id@) ==> final(self).target_systems@ == old(self).target_systems@.push(ts),
            has_ts(old(self).target_systems@, ts.config.unique_id@) ==> exists|j: int|
                0 <= j < old(self).target_systems@.len() && (#[trigger] old(self).target_systems@[j]).config.unique_id@ == ts.config.unique_id@ && final(self).target_systems@ == old(self).target_systems@.update(j, ts),
    {
        let found = find_ts(&self.target_systems, &ts.config.unique_id);
        match found {
            Some(j) => {
                let ghost old_tss = self.target_systems@;
                self.target_systems.remove(j);
                self.target_systems.insert(j, ts);
                proof {
                    assert(self.target_systems@ =~= old_tss.update(j as int, ts));
                }
            },
            None => {
                self.target_systems.push(ts);
            },
        }
    }

    /// Appends account history events to the named target system; an error
    /// exactly when no loaded system carries the identifier, and then
    /// nothing changes.
    pub fn add_account_history(&mut self, ts_uid: &String, records: Vec<(String, HistoryRecord)>)
        -> (r: Result<(), IgaError>)
        requires
            unique_hist_keys(records@),
        ensures
            r is Err <==> !has_ts(old(self).target_systems@, ts_uid@),
            r is Err ==> r == Err::<(), IgaError>(IgaError::TargetSystemNotFound) && *final(self)
                == *old(self),
            final(self).config == old(self).config,
            final(self).identities == old(self).identities,
            final(self).target_systems@.len() == old(self).target_systems@.len(),
            r is Ok ==> exists|j: int|
                0 <= j < old(self).target_systems@.len() && (#[trigger] old(self).target_systems@[j]).config.unique_id@ == ts_uid@ && final(self).target_systems@[j].config == old(self).target_systems@[j].config && final(self).target_systems@[j].entitlements == old(self).target_systems@[j].entitlements
                    && final(self).target_systems@[j].accounts@.len() == old(self).target_systems@[j].accounts@.len() && (forall|i: int|
                    0 <= i < old(self).target_systems@[j].accounts@.len()
                        ==> history_appended_acct(
                        records@,
                        old(self).target_systems@[j].accounts@[i],
                        #[trigger] final(self).target_systems@[j].accounts@[i],
                    )) && (forall|m: int|
                    0 <= m < old(self).target_systems@.len() && m != j ==> #[trigger] final(self).target_systems@[m] == old(self).target_systems@[m]),
    {
        let found = find_ts(&self.target_systems, ts_uid);
        match found {
            Some(j) => {
                let ghost old_tss = self.target_systems@;
                let mut ts = self.target_systems.remove(j);
                ts.add_account_history(records);
                self.target_systems.insert(j, ts);
                proof {
                    assert forall|m: int|
                        0 <= m < old_tss.len() && m != j implies #[trigger] self.target_systems@[m]
                        == old_tss[m] by {
                        if m < j {
                            assert(self.target_systems@[m] == old_tss[m]);
                        }
                    }
                }
                Ok(())
            },
            None => Err(IgaError::TargetSystemNotFound),
        }
    }

    /// Appends entitlement history events to the named target system; an
    /// error exactly when no loaded system carries the identifier.
    pub fn add_entitlement_history(
        &mut self,
        ts_uid: &String,
        records: Vec<(String, HistoryRecord)>,
    ) -> (r: Result<(), IgaError>)
        requires
            unique_hist_keys(records@),
        ensures
            r is Err <==> !has_ts(old(self).target_systems@, ts_uid@),
            r is Err ==> r == Err::<(), IgaError>(IgaError::TargetSystemNotFound) && *final(self)
                == *old(self),
            final(self).config == old(self).config,
            final(self).identities == old(self).identities,
            final(self).target_systems@.len() == old(self).target_systems@.len(),
            r is Ok ==> exists|j: int|
                0 <= j < old(self).target_systems@.len() && (#[trigger] old(self).target_systems@[j]).config.unique_id@ == ts_uid@ && final(self).target_systems@[j].config == old(self).target_systems@[j].config && final(self).target_systems@[j].accounts == old(self).target_systems@[j].accounts && final(self).target_systems@[j].entitlements@.len() == old(self).target_systems@[j].entitlements@.len() && (forall|i: int|
                    0 <= i < old(self).target_systems@[j].entitlements@.len()
                        ==> history_appended_ent(
                        records@,
                        old(self).target_systems@[j].entitlements@[i],
                        #[trigger] final(self).target_systems@[j].entitlements@[i],
                    )) && (forall|m: int|
                    0 <= m < old(self).target_systems@.len() && m != j ==> #[trigger] final(self).target_systems@[m] == old(self).target_systems@[m]),
    {
        let found = find_ts(&self.target_systems, ts_uid);
        match found {
            Some(j) => {
                let ghost old_tss = self.target_systems@;
                let mut ts = self.target_systems.remove(j);
                ts.add_entitlement_history(records);
                self.target_systems.insert(j, ts);
                proof {
                    assert forall|m: int|
                        0 <= m < old_tss.len() && m != j implies #[trigger] self.target_systems@[m]
                        == old_tss[m] by {
                        if m < j {
                            assert(self.target_systems@[m] == old_tss[m]);
                        }
                    }
                }
                Ok(())
            },
            None => Err(IgaError::TargetSystemNotFound),
        }
    }

    /// The configured synchronization pair, when one is configured.
    pub fn get_ts_sync(&self) -> (r: &Option<(String, String)>)
        ensures
            r == &self.config.ts_sync,
    {
        &self.config.ts_sync
    }

    /// The report projection of the named identity, or nothing exactly when
    /// no identity carries the identifier.
    pub fn get_identity_data(&self, ident_uid: &String) -> (r: Option<IdentityData>)
        requires
            unique_identity_ids(self.identities@),
            unique_ts_ids(self.target_systems@),
            all_ts_wf(self.target_systems@),
        ensures
            r is Some <==> has_identity(self.identities@, ident_uid@),
            r matches Some(d) ==> identity_data_rel(
                self.target_systems@,
                identity_at(self.identities@, ident_uid@),
                d,
            ),
    {
        let found = find_identity(&self.identities, ident_uid);
        match found {
            Some(j) => {
                proof {
                    lemma_identity_at_index(self.identities@, j as int);
                }
                Some(self.identities[j].to_data(&self.target_systems))
            },
            None => None,
        }
    }

    /// Per target system, the projections of its orphan accounts.
    pub fn get_orphan_accounts(&self) -> (r: Vec<(String, Vec<AccountData>)>)
        requires
            all_ts_wf(self.target_systems@),
        ensures
            r@.len() == self.target_systems@.len(),
            forall|k: int|
                0 <= k < r@.len() ==> (#[trigger] r@[k]).0@
                    == self.target_systems@[k].config.unique_id@ && acct_list_rel(
                    self.target_systems@[k].entitlements@,
                    self.target_systems@[k].accounts@.filter(|a: Account| is_orphan_spec(a)),
                    r@[k].1@,
                ),
    {
        let mut out: Vec<(String, Vec<AccountData>)> = Vec::new();
        let mut k: usize = 0;
        while k < self.target_systems.len()
            invariant
                0 <= k <= self.target_systems@.len(),
                all_ts_wf(self.target_systems@),
                out@.len() == k,
                forall|m: int|
                    0 <= m < k ==> (#[trigger] out@[m]).0@
                        == self.target_systems@[m].config.unique_id@ && acct_list_rel(
                        self.target_systems@[m].entitlements@,
                        self.target_systems@[m].accounts@.filter(
                            |a: Account| is_orphan_spec(a),
                        ),
                        out@[m].1@,
                    ),
            decreases self.target_systems@.len() - k,
        {
            let l = self.target_systems[k].get_orphan_accounts();
            out.push((self.target_systems[k].config.unique_id.clone(), l));
            k += 1;
        }
        out
    }

    /// Per target system, the projections of its persistent-leaver accounts
    /// as of the day the call is made, read once from the clock.
    pub fn get_persistent_leaver_accounts(&self) -> (r: Vec<(String, Vec<AccountData>)>)
        requires
            all_ts_wf(self.target_systems@),
            unique_identity_ids(self.identities@),
        ensures
            r@.len() == self.target_systems@.len(),
            forall|k: int|
                0 <= k < r@.len() ==> (#[trigger] r@[k]).0@
                    == self.target_systems@[k].config.unique_id@,
            exists|today: i64| #[trigger]
                all_leavers_listed(self.target_systems@, self.identities@, today, r@),
    {
        let today = crate::ts::current_day();
        let mut out: Vec<(String, Vec<AccountData>)> = Vec::new();
        let mut k: usize = 0;
        while k < self.target_systems.len()
            invariant
                0 <= k <= self.target_systems@.len(),
                all_ts_wf(self.target_systems@),
                unique_identity_ids(self.identities@),
                out@.len() == k,
                forall|m: int|
                    0 <= m < k ==> (#[trigger] out@[m]).0@
                        == self.target_systems@[m].config.unique_id@,
                forall|m: int|
                    0 <= m < k ==> #[trigger] leavers_listed(
                        self.target_systems@[m].entitlements@,
                        self.target_systems@[m].accounts@,
                        self.identities@,
                        today,
                        out@[m].1@,
                    ),
            decreases self.target_systems@.len() - k,
        {
            let l = self.target_systems[k].get_persistent_leaver_accounts_on(
                &self.identities,
                today,
            );
            out.push((self.target_systems[k].config.unique_id.clone(), l));
            proof {
                assert(leavers_listed(
                    self.target_systems@[k as int].entitlements@,
                    self.target_systems@[k as int].accounts@,
                    self.identities@,
                    today,
                    l@,
                ));
            }
            k += 1;
        }
        proof {
            assert(all_leavers_listed(self.target_systems@, self.identities@, today, out@));
        }
        out
    }

    /// One entitlement-category totals table per loaded target system.
    pub fn get_entitlement_count_per_type(&self) -> (r: Vec<CategoryTotals>)
        ensures
            r@.len() == self.target_systems@.len(),
            forall|k: int|
                0 <= k < r@.len() ==> ent_totals_ok(
                    self.target_systems@[k],
                    #[trigger] r@[k],
                ),
    {
        let mut out: Vec<CategoryTotals> = Vec::new();
        let mut k: usize = 0;
        while k < self.target_systems.len()
            invariant
                0 <= k <= self.target_systems@.len(),
                out@.len() == k,
                forall|m: int|
                    0 <= m < k ==> ent_totals_ok(self.target_systems@[m], #[trigger] out@[m]),
            decreases self.target_systems@.len() - k,
        {
            out.push(self.target_systems[k].get_entitlement_category_totals());
            k += 1;
        }
        out
    }

    /// One account-category totals table per loaded target system.
    pub fn get_account_count_per_type(&self) -> (r: Vec<CategoryTotals>)
        ensures
            r@.len() == self.target_systems@.len(),
            forall|k: int|
                0 <= k < r@.len() ==> acct_totals_ok(
                    self.target_systems@[k],
                    #[trigger] r@[k],
                ),
    {
        let mut out: Vec<CategoryTotals> = Vec::new();
        let mut k: usize = 0;
        while k < self.target_systems.len()
            invariant
                0 <= k <= self.target_systems@.len(),
                out@.len() == k,
                forall|m: int|
                    0 <= m < k ==> acct_totals_ok(self.target_systems@[m], #[trigger] out@[m]),
            decreases self.target_systems@.len() - k,
        {
            out.push(self.target_systems[k].get_account_category_totals());
            k += 1;
        }
        out
    }

    /// One per-category account grouping per loaded target system.
    pub fn get_accounts_per_type(&self) -> (r: Vec<CategorizedAccounts>)
        requires
            all_ts_wf(self.target_systems@),
        ensures
            r@.len() == self.target_systems@.len(),
            forall|k: int|
                0 <= k < r@.len() ==> categorized_accts_ok(
                    self.target_systems@[k],
                    #[trigger] r@[k],
                ),
    {
        let mut out: Vec<CategorizedAccounts> = Vec::new();
        let mut k: usize = 0;
        while k < self.target_systems.len()
            invariant
                0 <= k <= self.target_systems@.len(),
                all_ts_wf(self.target_systems@),
                out@.len() == k,
                forall|m: int|
                    0 <= m < k ==> categorized_accts_ok(
                        self.target_systems@[m],
                        #[trigger] out@[m],
                    ),
            decreases self.target_systems@.len() - k,
        {
            out.push(self.target_systems[k].get_categorized_accounts());
            k += 1;
        }
        out
    }

    /// One per-organizational-unit totals table per loaded target system.
    pub fn get_entitlement_count_per_ou(&self) -> (r: Vec<CategoryTotals>)
        ensures
            r@.len() == self.target_systems@.len(),
            forall|k: int|
                0 <= k < r@.len() ==> ou_totals_ok(self.target_systems@[k], #[trigger] r@[k]),
    {
        let mut out: Vec<CategoryTotals> = Vec::new();
        let mut k: usize = 0;
        while k < self.target_systems.len()
            invariant
                0 <= k <= self.target_systems@.len(),
                out@.len() == k,
                forall|m: int|
                    0 <= m < k ==> ou_totals_ok(self.target_systems@[m], #[trigger] out@[m]),
            decreases self.target_systems@.len() - k,
        {
            out.push(self.target_systems[k].get_entitlement_count_per_ou());
            k += 1;
        }
        out
    }

    /// One per-category entitlement grouping per loaded target system.
    pub fn get_entitlements_per_type(&self) -> (r: Vec<CategorizedEntitlements>)
        ensures
            r@.len() == self.target_systems@.len(),
            forall|k: int|
                0 <= k < r@.len() ==> categorized_ents_ok(
                    self.target_systems@[k],
                    #[trigger] r@[k],
                ),
    {
        let mut out: Vec<CategorizedEntitlements> = Vec::new();
        let mut k: usize = 0;
        while k < self.target_systems.len()
            invariant
                0 <= k <= self.target_systems@.len(),
                out@.len() == k,
                forall|m: int|
                    0 <= m < k ==> categorized_ents_ok(
                        self.target_systems@[m],
                        #[trigger] out@[m],
                    ),
            decreases self.target_systems@.len() - k,
        {
            out.push(self.target_systems[k].get_categorized_entitlements());
            k += 1;
        }
        out
    }
}

} // verus!
