//! Target systems and their record stores.
//!
//! A target system owns one record store: the accounts and entitlements of
//! one external directory, keyed by unique identifier. A store is populated
//! once from flat records, the membership-closure engine runs on it, and it
//! is read-only afterwards except for owner assignment and history append.

use vstd::prelude::*;
use crate::dtos::{AccountDTO, EntitlementDTO, AccountData, EntitlementData, CategoryTotals, CategorizedAccounts, CategorizedEntitlements};
use crate::closure::{
    calculate_memberof, calculate_indirect_memberof, closure_pass, member_list_strings,
    str_set, views_distinct, unique_ids, has_ent, lemma_str_set_has, member_list_view, view_seq,
};
use crate::seq_has_str;
use crate::vec_contains_str;

verus! {

/// One dated event attached to a record, for history reporting.
#[derive(Debug, Clone, PartialEq, Eq)]
pub struct HistoryRecord {
    pub link_key: String,
    pub date: i64,
    pub source: String,
    pub event_name: String,
    pub initiator: String,
    pub state: String,
    pub description: String,
}

/// Configuration of one target system: its stable identifier and free-form
/// settings. The surrounding application keeps what else a load needs (the
/// connector and the injected matching rules).
#[derive(Debug, Clone, PartialEq, Eq)]
pub struct TargetSystemConfig {
    pub unique_id: String,
    pub other_attributes: Vec<(String, String)>,
}

/// An account of one target system.
#[derive(Debug, Clone, PartialEq, Eq)]
pub struct Account {
    pub unique_id: String,
    pub display_name: Option<String>,
    pub description: Option<String>,

    pub created: Option<i64>,
    pub last_logon: Option<i64>,
    pub password_last_set: Option<i64>,
    pub expiration_date: Option<i64>,

    pub enabled: Option<bool>,
    pub deleted: Option<bool>,
    pub locked: Option<bool>,

    pub memberof: Option<Vec<String>>,
    pub memberof_indirect: Vec<String>,
    pub ou: Option<String>,

    pub other_attributes: Vec<(String, Option<String>)>,
    pub account_type: String,

    pub syncs_from_ts: Option<String>,
    pub syncs_from_account: Option<String>,
    pub syncs_to_ts: Option<String>,
    pub syncs_to_account: Option<String>,
    pub identity_owners: Vec<String>,

    pub history: Vec<HistoryRecord>,
}

/// An entitlement (group-like access object) of one target system.
#[derive(Debug, Clone, PartialEq, Eq)]
pub struct Entitlement {
    pub unique_id: String,
    pub display_name: Option<String>,
    pub description: Option<String>,
    pub created: Option<i64>,

    pub memberof: Option<Vec<String>>,
    pub all_indirect_memberof: Vec<String>,
    pub members: Option<Vec<String>>,
    pub ou: Option<String>,

    pub other_attributes: Vec<(String, Option<String>)>,
    pub entitlement_type: String,

    pub syncs_from_ts: Option<String>,
    pub syncs_from_entitlement: Option<String>,
    pub syncs_to_ts: Option<String>,
    pub syncs_to_entitlement: Option<String>,
    pub identity_owners: Vec<String>,

    pub ts_owners: Option<Vec<String>>,

    pub history: Vec<HistoryRecord>,
}

/// The account carries exactly what the flat record describes: every
/// attribute carried over, ownership and synchronization fields empty, and
/// one creation history event when the record carries a creation date. The
/// derived indirect set is not constrained here: it is filled later.
pub open spec fn account_of_dto(dto: AccountDTO, r: Account) -> bool {
    &&& r.unique_id == dto.unique_id
    &&& r.display_name == dto.display_name
    &&& r.description == dto.description
    &&& r.created == dto.created
    &&& r.last_logon == dto.last_logon
    &&& r.password_last_set == dto.password_last_set
    &&& r.expiration_date == dto.expiration_date
    &&& r.enabled == dto.enabled
    &&& r.deleted == dto.deleted
    &&& r.locked == dto.locked
    &&& r.memberof == dto.memberof
    &&& r.ou == dto.ou
    &&& r.other_attributes == dto.other_attributes
    &&& r.account_type@ == Seq::<char>::empty()
    &&& r.syncs_from_ts is None
    &&& r.syncs_from_account is None
    &&& r.syncs_to_ts is None
    &&& r.syncs_to_account is None
    &&& r.identity_owners@ == Seq::<String>::empty()
    &&& (dto.created is None ==> r.history@.len() == 0)
    &&& (dto.created matches Some(d) ==> r.history@.len() == 1 && r.history@[0].date == d
        && r.history@[0].source@ == "Account data"@ && r.history@[0].event_name@
        == "Account creation"@ && r.history@[0].link_key@ == Seq::<char>::empty()
        && r.history@[0].initiator@ == Seq::<char>::empty() && r.history@[0].state@
        == Seq::<char>::empty() && r.history@[0].description@ == Seq::<char>::empty())
}

/// The entitlement carries exactly what the flat record describes: every
/// attribute carried over (the derived ancestor list included), ownership and
/// synchronization fields empty, and one creation history event when the
/// record carries a creation date.
pub open spec fn entitlement_of_dto(dto: EntitlementDTO, r: Entitlement) -> bool {
    &&& r.unique_id == dto.unique_id
    &&& r.display_name == dto.display_name
    &&& r.description == dto.description
    &&& r.created == dto.created
    &&& r.memberof == dto.memberof
    &&& r.all_indirect_memberof == dto.all_indirect_memberof
    &&& r.members == dto.members
    &&& r.ou == dto.ou
    &&& r.other_attributes == dto.other_attributes
    &&& r.entitlement_type@ == Seq::<char>::empty()
    &&& r.syncs_from_ts is None
    &&& r.syncs_from_entitlement is None
    &&& r.syncs_to_ts is None
    &&& r.syncs_to_entitlement is None
    &&& r.identity_owners@ == Seq::<String>::empty()
    &&& r.ts_owners is None
    &&& (dto.created is None ==> r.history@.len() == 0)
    &&& (dto.created matches Some(d) ==> r.history@.len() == 1 && r.history@[0].date == d
        && r.history@[0].source@ == "Group data"@ && r.history@[0].event_name@
        == "Group creation"@ && r.history@[0].link_key@ == Seq::<char>::empty()
        && r.history@[0].initiator@ == Seq::<char>::empty() && r.history@[0].state@
        == Seq::<char>::empty() && r.history@[0].description@ == Seq::<char>::empty())
}

impl Account {
    /// Builds the account a flat record describes: every attribute carried
    /// over, derived and ownership fields empty, and one creation history
    /// event when the record carries a creation date.
    pub fn from_dto(dto: AccountDTO) -> (r: Self)
        ensures
            account_of_dto(dto, r),
            r.memberof_indirect@ =~= Seq::<String>::empty(),
    {
        let mut history: Vec<HistoryRecord> = Vec::new();
        if let Some(created) = dto.created {
            history.push(
                HistoryRecord {
                    link_key: String::new(),
                    date: created,
                    source: "Account data".to_owned(),
                    event_name: "Account creation".to_owned(),
                    initiator: String::new(),
                    state: String::new(),
                    description: String::new(),
                },
            );
        }
        Account {
            unique_id: dto.unique_id,
            display_name: dto.display_name,
            description: dto.description,
            created: dto.created,
            last_logon: dto.last_logon,
            password_last_set: dto.password_last_set,
            expiration_date: dto.expiration_date,
            enabled: dto.enabled,
            deleted: dto.deleted,
            locked: dto.locked,
            memberof: dto.memberof,
            memberof_indirect: Vec::new(),
            ou: dto.ou,
            other_attributes: dto.other_attributes,
            account_type: String::new(),
            syncs_from_ts: None,
            syncs_from_account: None,
            syncs_to_ts: None,
            syncs_to_account: None,
            identity_owners: Vec::new(),
            history,
        }
    }
}

impl Entitlement {
    /// Builds the entitlement a flat record describes: every attribute
    /// carried over, ownership fields empty, and one creation history event
    /// when the record carries a creation date.
    pub fn from_dto(dto: EntitlementDTO) -> (r: Self)
        ensures
            entitlement_of_dto(dto, r),
    {
        let mut history: Vec<HistoryRecord> = Vec::new();
        if let Some(created) = dto.created {
            history.push(
                HistoryRecord {
                    link_key: String::new(),
                    date: created,
                    source: "Group data".to_owned(),
                    event_name: "Group creation".to_owned(),
                    initiator: String::new(),
                    state: String::new(),
                    description: String::new(),
                },
            );
        }
        Entitlement {
            unique_id: dto.unique_id,
            display_name: dto.display_name,
            description: dto.description,
            created: dto.created,
            memberof: dto.memberof,
            all_indirect_memberof: dto.all_indirect_memberof,
            members: dto.members,
            ou: dto.ou,
            other_attributes: dto.other_attributes,
            entitlement_type: String::new(),
            syncs_from_ts: None,
            syncs_from_entitlement: None,
            syncs_to_ts: None,
            syncs_to_entitlement: None,
            identity_owners: Vec::new(),
            ts_owners: None,
            history,
        }
    }
}

/// No record after `i` carries the identifier of the record at `i`.
pub open spec fn last_ent_occurrence(input: Seq<EntitlementDTO>, i: int) -> bool {
    forall|i2: int|
        i < i2 < input.len() ==> (#[trigger] input[i2]).unique_id@ != input[i].unique_id@
}

/// Some flat account record of the collection carries `id`.
pub open spec fn has_acct_dto(s: Seq<AccountDTO>, id: Seq<char>) -> bool {
    exists|i: int| 0 <= i < s.len() && #[trigger] s[i].unique_id@ == id
}

/// No two flat account records of the collection carry the same identifier.
pub open spec fn unique_acct_dto_ids(s: Seq<AccountDTO>) -> bool {
    forall|i: int, j: int| #![trigger s[i], s[j]]
        0 <= i < j < s.len() ==> s[i].unique_id@ != s[j].unique_id@
}

/// No flat account record after `i` carries the identifier of the one at `i`.
pub open spec fn last_acct_dto_occurrence(input: Seq<AccountDTO>, i: int) -> bool {
    forall|i2: int|
        i < i2 < input.len() ==> (#[trigger] input[i2]).unique_id@ != input[i].unique_id@
}

/// `x` is a record of `orig` at or after position `lo`, and no later record
/// of `orig` carries its identifier.
pub open spec fn kept_from_ent(orig: Seq<EntitlementDTO>, lo: int, x: EntitlementDTO) -> bool {
    exists|i: int| lo <= i < orig.len() && x == #[trigger] orig[i] && last_ent_occurrence(orig, i)
}

/// `x` is a record of `orig` at or after position `lo`, and no later record
/// of `orig` carries its identifier.
pub open spec fn kept_from_acct_dto(orig: Seq<AccountDTO>, lo: int, x: AccountDTO) -> bool {
    exists|i: int|
        lo <= i < orig.len() && x == #[trigger] orig[i] && last_acct_dto_occurrence(orig, i)
}

/// Exactly the relation the entitlement dedup establishes: identifiers are
/// unique in the result, each kept record is a last occurrence of its
/// identifier in the input, and every input identifier is kept.
pub open spec fn dedup_ents_rel(input: Seq<EntitlementDTO>, out: Seq<EntitlementDTO>) -> bool {
    &&& unique_ids(out)
    &&& forall|j: int| 0 <= j < out.len() ==> kept_from_ent(input, 0, #[trigger] out[j])
    &&& forall|i: int| 0 <= i < input.len() ==> has_ent(out, (#[trigger] input[i]).unique_id@)
}

/// Exactly the relation the account dedup establishes.
pub open spec fn dedup_accts_rel(input: Seq<AccountDTO>, out: Seq<AccountDTO>) -> bool {
    &&& unique_acct_dto_ids(out)
    &&& forall|j: int| 0 <= j < out.len() ==> kept_from_acct_dto(input, 0, #[trigger] out[j])
    &&& forall|i: int|
        0 <= i < input.len() ==> has_acct_dto(out, (#[trigger] input[i]).unique_id@)
}

/// Some stored entitlement of the collection carries `id`.
pub open spec fn has_entitlement(s: Seq<Entitlement>, id: Seq<char>) -> bool {
    exists|i: int| 0 <= i < s.len() && #[trigger] s[i].unique_id@ == id
}

/// No two stored entitlements of the collection carry the same identifier.
pub open spec fn unique_entitlement_ids(s: Seq<Entitlement>) -> bool {
    forall|i: int, j: int| #![trigger s[i], s[j]]
        0 <= i < j < s.len() ==> s[i].unique_id@ != s[j].unique_id@
}

/// The stored entitlement of the collection carrying `id`.
pub open spec fn entitlement_at(s: Seq<Entitlement>, id: Seq<char>) -> Entitlement
    recommends
        has_entitlement(s, id),
{
    s[choose|i: int| 0 <= i < s.len() && #[trigger] s[i].unique_id@ == id]
}

/// Some stored account of the collection carries `id`.
pub open spec fn has_account(s: Seq<Account>, id: Seq<char>) -> bool {
    exists|i: int| 0 <= i < s.len() && #[trigger] s[i].unique_id@ == id
}

/// No two stored accounts of the collection carry the same identifier.
pub open spec fn unique_account_ids(s: Seq<Account>) -> bool {
    forall|i: int, j: int| #![trigger s[i], s[j]]
        0 <= i < j < s.len() ==> s[i].unique_id@ != s[j].unique_id@
}

/// Collapses duplicate identifiers among flat entitlement records: of
/// several records carrying one identifier the last wins, as in a store
/// keyed by identifier. Order beyond that is not pinned.
pub fn dedup_entitlement_dtos(input: Vec<EntitlementDTO>) -> (r: Vec<EntitlementDTO>)
    ensures
        dedup_ents_rel(input@, r@),
{
    let ghost orig = input@;
    let mut input = input;
    let mut r: Vec<EntitlementDTO> = Vec::new();
    while input.len() > 0
        invariant
            input@ =~= orig.take(input@.len() as int),
            input@.len() <= orig.len(),
            unique_ids(r@),
            forall|j: int|
                0 <= j < r@.len() ==> kept_from_ent(orig, input@.len() as int, #[trigger] r@[j]),
            forall|i: int|
                input@.len() <= i < orig.len() ==> has_ent(r@, (#[trigger] orig[i]).unique_id@),
        decreases input@.len(),
    {
        let ghost m = input@.len() as int;
        let ghost r_pre = r@;
        let e = input.pop().unwrap();
        proof {
            assert(e == orig[m - 1]);
            assert(input@ =~= orig.take(m - 1));
        }
        let present = match crate::closure::find_ent(&r, &e.unique_id) {
            Some(_) => true,
            None => false,
        };
        if !present {
            r.push(e);
            proof {
                assert forall|a: int, b: int| #![trigger r@[a], r@[b]]
                    0 <= a < b < r@.len() implies r@[a].unique_id@ != r@[b].unique_id@ by {
                    if b < r@.len() - 1 {
                        assert(r_pre[a].unique_id@ != r_pre[b].unique_id@);
                    } else {
                        if r@[a].unique_id@ == r@[b].unique_id@ {
                            assert(has_ent(r_pre, orig[m - 1].unique_id@));
                        }
                    }
                }
                // The record just kept has no later record with its
                // identifier: any such record's identifier was already kept.
                assert(last_ent_occurrence(orig, m - 1)) by {
                    assert forall|i2: int| m - 1 < i2 < orig.len() implies (#[trigger] orig[i2]).unique_id@
                        != orig[m - 1].unique_id@ by {
                        if orig[i2].unique_id@ == orig[m - 1].unique_id@ {
                            assert(has_ent(r_pre, orig[i2].unique_id@));
                        }
                    }
                }
                assert forall|j: int| 0 <= j < r@.len() implies kept_from_ent(
                    orig,
                    m - 1,
                    #[trigger] r@[j],
                ) by {
                    if j < r@.len() - 1 {
                        let i = choose|i: int|
                            m <= i < orig.len() && r_pre[j] == #[trigger] orig[i]
                                && last_ent_occurrence(orig, i);
                        assert(r@[j] == orig[i]);
                    } else {
                        assert(r@[j] == orig[m - 1]);
                    }
                }
                assert forall|i: int| m - 1 <= i < orig.len() implies has_ent(
                    r@,
                    (#[trigger] orig[i]).unique_id@,
                ) by {
                    if i >= m {
                        let w = choose|w: int|
                            0 <= w < r_pre.len() && #[trigger] r_pre[w].unique_id@
                                == orig[i].unique_id@;
                        assert(r@[w].unique_id@ == orig[i].unique_id@);
                    } else {
                        assert(r@[r@.len() - 1].unique_id@ == orig[m - 1].unique_id@);
                    }
                }
            }
        } else {
            proof {
                assert(has_ent(r@, orig[m - 1].unique_id@));
                assert forall|j: int| 0 <= j < r@.len() implies kept_from_ent(
                    orig,
                    m - 1,
                    #[trigger] r@[j],
                ) by {
                    let i = choose|i: int|
                        m <= i < orig.len() && r@[j] == #[trigger] orig[i] && last_ent_occurrence(
                            orig,
                            i,
                        );
                }
            }
        }
    }
    r
}

/// Collapses duplicate identifiers among flat account records: of several
/// records carrying one identifier the last wins. Order beyond that is not
/// pinned.
pub fn dedup_account_dtos(input: Vec<AccountDTO>) -> (r: Vec<AccountDTO>)
    ensures
        dedup_accts_rel(input@, r@),
{
    let ghost orig = input@;
    let mut input = input;
    let mut r: Vec<AccountDTO> = Vec::new();
    while input.len() > 0
        invariant
            input@ =~= orig.take(input@.len() as int),
            input@.len() <= orig.len(),
            unique_acct_dto_ids(r@),
            forall|j: int|
                0 <= j < r@.len() ==> kept_from_acct_dto(
                    orig,
                    input@.len() as int,
                    #[trigger] r@[j],
                ),
            forall|i: int|
                input@.len() <= i < orig.len() ==> has_acct_dto(
                    r@,
                    (#[trigger] orig[i]).unique_id@,
                ),
        decreases input@.len(),
    {
        let ghost m = input@.len() as int;
        let ghost r_pre = r@;
        let a = input.pop().unwrap();
        proof {
            assert(a == orig[m - 1]);
            assert(input@ =~= orig.take(m - 1));
        }
        let mut present = false;
        let mut w: usize = 0;
        while w < r.len()
            invariant
                0 <= w <= r@.len(),
                a == orig[m - 1],
                present == exists|x: int| 0 <= x < w && (#[trigger] r@[x]).unique_id@ == a.unique_id@,
            decreases r@.len() - w,
        {
            if r[w].unique_id.eq(&a.unique_id) {
                present = true;
            }
            w += 1;
        }
        if !present {
            r.push(a);
            proof {
                assert forall|x: int, y: int| #![trigger r@[x], r@[y]]
                    0 <= x < y < r@.len() implies r@[x].unique_id@ != r@[y].unique_id@ by {
                    if y < r@.len() - 1 {
                        assert(r_pre[x].unique_id@ != r_pre[y].unique_id@);
                    } else {
                        if r@[x].unique_id@ == r@[y].unique_id@ {
                            assert(has_acct_dto(r_pre, orig[m - 1].unique_id@));
                        }
                    }
                }
                assert(last_acct_dto_occurrence(orig, m - 1)) by {
                    assert forall|i2: int| m - 1 < i2 < orig.len() implies (#[trigger] orig[i2]).unique_id@
                        != orig[m - 1].unique_id@ by {
                        if orig[i2].unique_id@ == orig[m - 1].unique_id@ {
                            assert(has_acct_dto(r_pre, orig[i2].unique_id@));
                        }
                    }
                }
                assert forall|j: int| 0 <= j < r@.len() implies kept_from_acct_dto(
                    orig,
                    m - 1,
                    #[trigger] r@[j],
                ) by {
                    if j < r@.len() - 1 {
                        let i = choose|i: int|
                            m <= i < orig.len() && r_pre[j] == #[trigger] orig[i]
                                && last_acct_dto_occurrence(orig, i);
                        assert(r@[j] == orig[i]);
                    } else {
                        assert(r@[j] == orig[m - 1]);
                    }
                }
                assert forall|i: int| m - 1 <= i < orig.len() implies has_acct_dto(
                    r@,
                    (#[trigger] orig[i]).unique_id@,
                ) by {
                    if i >= m {
                        let x = choose|x: int|
                            0 <= x < r_pre.len() && #[trigger] r_pre[x].unique_id@
                                == orig[i].unique_id@;
                        assert(r@[x].unique_id@ == orig[i].unique_id@);
                    } else {
                        assert(r@[r@.len() - 1].unique_id@ == orig[m - 1].unique_id@);
                    }
                }
            }
        } else {
            proof {
                assert(has_acct_dto(r@, orig[m - 1].unique_id@));
                assert forall|j: int| 0 <= j < r@.len() implies kept_from_acct_dto(
                    orig,
                    m - 1,
                    #[trigger] r@[j],
                ) by {
                    let i = choose|i: int|
                        m <= i < orig.len() && r@[j] == #[trigger] orig[i]
                            && last_acct_dto_occurrence(orig, i);
                }
            }
        }
    }
    r
}

/// First stored entitlement carrying the given identifier.
pub fn find_entitlement(ents: &Vec<Entitlement>, id: &String) -> (r: Option<usize>)
    ensures
        match r {
            Some(j) => j < ents@.len() && ents@[j as int].unique_id@ == id@,
            None => !has_entitlement(ents@, id@),
        },
{
    let mut j: usize = 0;
    while j < ents.len()
        invariant
            0 <= j <= ents@.len(),
            forall|m: int| 0 <= m < j ==> (#[trigger] ents@[m]).unique_id@ != id@,
        decreases ents@.len() - j,
    {
        if ents[j].unique_id.eq(id) {
            return Some(j);
        }
        j += 1;
    }
    None
}

/// With unique identifiers, the stored entitlement found at an index is the
/// one the lookup by its identifier yields.
proof fn lemma_entitlement_at_index(ents: Seq<Entitlement>, j: int)
    requires
        unique_entitlement_ids(ents),
        0 <= j < ents.len(),
    ensures
        has_entitlement(ents, ents[j].unique_id@),
        entitlement_at(ents, ents[j].unique_id@) == ents[j],
{
    let id = ents[j].unique_id@;
    assert(has_entitlement(ents, id));
    let w = choose|i: int| 0 <= i < ents.len() && #[trigger] ents[i].unique_id@ == id;
    assert(w == j);
}

/// The indirect access a direct membership list yields over a store: the
/// union of the stored ancestor sets of the entitlements the list resolves
/// to, minus what the list holds directly. An identifier that resolves to no
/// stored entitlement contributes nothing.
pub open spec fn indirect_access(ents: Seq<Entitlement>, direct: Seq<String>) -> Set<Seq<char>> {
    Set::new(
        |x: Seq<char>|
            !seq_has_str(direct, x) && exists|k: int|
                0 <= k < direct.len() && has_entitlement(ents, (#[trigger] direct[k])@) && str_set(
                    entitlement_at(ents, direct[k]@).all_indirect_memberof@,
                ).contains(x),
    )
}

/// As `indirect_access`, over the first `k` entries of the list only.
pub open spec fn indirect_access_upto(
    ents: Seq<Entitlement>,
    direct: Seq<String>,
    k: int,
) -> Set<Seq<char>> {
    Set::new(
        |x: Seq<char>|
            !seq_has_str(direct, x) && exists|k2: int|
                0 <= k2 < k && has_entitlement(ents, (#[trigger] direct[k2])@) && str_set(
                    entitlement_at(ents, direct[k2]@).all_indirect_memberof@,
                ).contains(x),
    )
}

/// The identifiers among the first `m` strings of the list.
pub open spec fn prefix_views(v: Seq<String>, m: int) -> Set<Seq<char>> {
    Set::new(|x: Seq<char>| exists|t: int| 0 <= t < m && (#[trigger] v[t])@ == x)
}

/// Direct access is never reported as indirect: what the derived set holds
/// is, by construction, outside the direct membership list.
pub proof fn lemma_member_disjointness(
    ents: Seq<Entitlement>,
    direct: Seq<String>,
    x: Seq<char>,
)
    ensures
        indirect_access(ents, direct).contains(x) ==> !seq_has_str(direct, x),
{
}

/// For every account of a propagated store, direct and derived indirect
/// membership are disjoint: no identifier stands in both lists.
pub proof fn lemma_account_membership_disjoint(
    accounts: Seq<Account>,
    ents: Seq<Entitlement>,
    i: int,
    x: Seq<char>,
)
    requires
        accounts_propagated(accounts, ents),
        0 <= i < accounts.len(),
    ensures
        !(str_set(accounts[i].memberof_indirect@).contains(x) && seq_has_str(
            member_list_strings(accounts[i].memberof),
            x,
        )),
{
    if str_set(accounts[i].memberof_indirect@).contains(x) {
        assert(indirect_access(ents, member_list_strings(accounts[i].memberof)).contains(x));
    }
}

/// The indirect access of one direct membership list over a store, as a
/// duplicate-free list of identifiers.
pub fn compute_indirect_access(direct: &Option<Vec<String>>, ents: &Vec<Entitlement>) -> (r: Vec<
    String,
>)
    requires
        unique_entitlement_ids(ents@),
    ensures
        views_distinct(r@),
        str_set(r@) =~= indirect_access(ents@, member_list_strings(*direct)),
{
    let mut r: Vec<String> = Vec::new();
    match direct {
        None => {
            proof {
                lemma_str_set_has(r@);
                assert(str_set(r@) =~= indirect_access(
                    ents@,
                    member_list_strings(None::<Vec<String>>),
                ));
            }
        },
        Some(d) => {
            let mut k: usize = 0;
            proof {
                lemma_str_set_has(r@);
                assert(str_set(r@) =~= indirect_access_upto(ents@, d@, 0));
            }
            while k < d.len()
                invariant
                    0 <= k <= d@.len(),
                    unique_entitlement_ids(ents@),
                    views_distinct(r@),
                    str_set(r@) =~= indirect_access_upto(ents@, d@, k as int),
                decreases d@.len() - k,
            {
                let found = find_entitlement(ents, &d[k]);
                match found {
                    Some(j) => {
                        proof {
                            lemma_entitlement_at_index(ents@, j as int);
                        }
                        let ghost base = str_set(r@);
                        let ghost aim = ents@[j as int].all_indirect_memberof@;
                        let mut m: usize = 0;
                        while m < ents[j].all_indirect_memberof.len()
                            invariant
                                0 <= m <= aim.len(),
                                j < ents@.len(),
                                k < d@.len(),
                                unique_entitlement_ids(ents@),
                                aim == ents@[j as int].all_indirect_memberof@,
                                ents@[j as int].unique_id@ == d@[k as int]@,
                                views_distinct(r@),
                                base =~= indirect_access_upto(ents@, d@, k as int),
                                forall|x: Seq<char>| #[trigger]
                                    str_set(r@).contains(x) <==> base.contains(x) || (
                                    prefix_views(aim, m as int).contains(x) && !seq_has_str(
                                        d@,
                                        x,
                                    )),
                            decreases aim.len() - m,
                        {
                            let ghost r_pre = r@;
                            let in_direct = vec_contains_str(d, &ents[j].all_indirect_memberof[m]);
                            let in_result = vec_contains_str(&r, &ents[j].all_indirect_memberof[m]);
                            if !in_direct && !in_result {
                                r.push(ents[j].all_indirect_memberof[m].clone());
                            }
                            proof {
                                lemma_str_set_has(r_pre);
                                lemma_str_set_has(r@);
                                let xm = aim[m as int]@;
                                if !in_direct && !in_result {
                                    assert(r@[r@.len() - 1]@ == xm);
                                    assert forall|a: int, b: int| #![trigger r@[a], r@[b]]
                                        0 <= a < b < r@.len() implies r@[a]@ != r@[b]@ by {
                                        if b < r@.len() - 1 {
                                            assert(r_pre[a]@ != r_pre[b]@);
                                        } else {
                                            assert(!seq_has_str(r_pre, xm));
                                            assert(r_pre[a]@ != xm);
                                        }
                                    }
                                }
                                assert forall|x: Seq<char>| #[trigger] str_set(r@).contains(x)
                                    implies base.contains(x) || (prefix_views(
                                    aim,
                                    m + 1,
                                ).contains(x) && !seq_has_str(d@, x)) by {
                                    let w = choose|w: int|
                                        0 <= w < r@.len() && #[trigger] r@[w]@ == x;
                                    if w < r_pre.len() {
                                        assert(str_set(r_pre).contains(x));
                                        if !base.contains(x) {
                                            assert(prefix_views(aim, m as int).contains(x));
                                            let t = choose|t: int|
                                                0 <= t < m && (#[trigger] aim[t])@ == x;
                                            assert(prefix_views(aim, m + 1).contains(x));
                                        }
                                    } else {
                                        assert(x == xm);
                                        assert((#[trigger] aim[m as int])@ == x);
                                        assert(prefix_views(aim, m + 1).contains(x));
                                    }
                                }
                                assert forall|x: Seq<char>|
                                    base.contains(x) || (prefix_views(aim, m + 1).contains(x)
                                        && !seq_has_str(d@, x)) implies #[trigger] str_set(
                                    r@,
                                ).contains(x) by {
                                    if base.contains(x) || (prefix_views(aim, m as int).contains(
                                        x,
                                    ) && !seq_has_str(d@, x)) {
                                        assert(str_set(r_pre).contains(x));
                                        let w = choose|w: int|
                                            0 <= w < r_pre.len() && #[trigger] r_pre[w]@ == x;
                                        assert(r@[w]@ == x);
                                        assert(seq_has_str(r@, x));
                                    } else {
                                        let t = choose|t: int|
                                            0 <= t < m + 1 && (#[trigger] aim[t])@ == x;
                                        assert(t == m);
                                        assert(x == xm);
                                        assert(!seq_has_str(d@, x));
                                        assert(!in_direct);
                                        if in_result {
                                            assert(seq_has_str(r_pre, xm));
                                            let w = choose|w: int|
                                                0 <= w < r_pre.len() && #[trigger] r_pre[w]@
                                                    == x;
                                            assert(r@[w]@ == x);
                                        } else {
                                            assert(r@[r@.len() - 1]@ == x);
                                        }
                                        assert(seq_has_str(r@, x));
                                    }
                                }
                            }
                            m += 1;
                        }
                        proof {
                            // The whole ancestor list of this entitlement is
                            // now folded in: one more list entry is covered.
                            lemma_str_set_has(aim);
                            assert forall|x: Seq<char>| #[trigger] str_set(r@).contains(x)
                                implies indirect_access_upto(ents@, d@, k + 1).contains(x) by {
                                if base.contains(x) {
                                    let k2 = choose|k2: int|
                                        0 <= k2 < k && has_entitlement(
                                            ents@,
                                            (#[trigger] d@[k2])@,
                                        ) && str_set(
                                            entitlement_at(
                                                ents@,
                                                d@[k2]@,
                                            ).all_indirect_memberof@,
                                        ).contains(x);
                                } else {
                                    assert(prefix_views(aim, aim.len() as int).contains(x)
                                        && !seq_has_str(d@, x));
                                    let t = choose|t: int|
                                        0 <= t < aim.len() && (#[trigger] aim[t])@ == x;
                                    assert(seq_has_str(aim, x));
                                    assert(str_set(aim).contains(x));
                                    assert(has_entitlement(ents@, (d@[k as int])@));
                                    assert(entitlement_at(ents@, d@[k as int]@)
                                        == ents@[j as int]);
                                }
                            }
                            assert forall|x: Seq<char>| indirect_access_upto(
                                ents@,
                                d@,
                                k + 1,
                            ).contains(x) implies #[trigger] str_set(r@).contains(x) by {
                                let k2 = choose|k2: int|
                                    0 <= k2 < k + 1 && has_entitlement(
                                        ents@,
                                        (#[trigger] d@[k2])@,
                                    ) && str_set(
                                        entitlement_at(ents@, d@[k2]@).all_indirect_memberof@,
                                    ).contains(x);
                                if k2 < k {
                                    assert(indirect_access_upto(ents@, d@, k as int).contains(
                                        x,
                                    ));
                                } else {
                                    assert(entitlement_at(ents@, d@[k as int]@)
                                        == ents@[j as int]);
                                    assert(str_set(aim).contains(x));
                                    assert(seq_has_str(aim, x));
                                    let t = choose|t: int|
                                        0 <= t < aim.len() && #[trigger] aim[t]@ == x;
                                    assert(prefix_views(aim, aim.len() as int).contains(x));
                                }
                            }
                            assert(str_set(r@) =~= indirect_access_upto(ents@, d@, k + 1));
                        }
                    },
                    None => {
                        proof {
                            assert forall|x: Seq<char>| indirect_access_upto(
                                ents@,
                                d@,
                                k + 1,
                            ).contains(x) implies #[trigger] indirect_access_upto(
                                ents@,
                                d@,
                                k as int,
                            ).contains(x) by {
                                let k2 = choose|k2: int|
                                    0 <= k2 < k + 1 && has_entitlement(
                                        ents@,
                                        (#[trigger] d@[k2])@,
                                    ) && str_set(
                                        entitlement_at(ents@, d@[k2]@).all_indirect_memberof@,
                                    ).contains(x);
                                assert(k2 < k);
                            }
                            assert forall|x: Seq<char>| indirect_access_upto(
                                ents@,
                                d@,
                                k as int,
                            ).contains(x) implies #[trigger] indirect_access_upto(
                                ents@,
                                d@,
                                k + 1,
                            ).contains(x) by {
                                let k2 = choose|k2: int|
                                    0 <= k2 < k && has_entitlement(
                                        ents@,
                                        (#[trigger] d@[k2])@,
                                    ) && str_set(
                                        entitlement_at(ents@, d@[k2]@).all_indirect_memberof@,
                                    ).contains(x);
                            }
                            assert(str_set(r@) =~= indirect_access_upto(ents@, d@, k + 1));
                        }
                    },
                }
                k += 1;
            }
            proof {
                assert forall|x: Seq<char>| #[trigger] indirect_access(ents@, d@).contains(x)
                    implies indirect_access_upto(ents@, d@, d@.len() as int).contains(x) by {
                    let k2 = choose|k2: int|
                        0 <= k2 < d@.len() && has_entitlement(ents@, (#[trigger] d@[k2])@)
                            && str_set(
                            entitlement_at(ents@, d@[k2]@).all_indirect_memberof@,
                        ).contains(x);
                }
                assert forall|x: Seq<char>| indirect_access_upto(
                    ents@,
                    d@,
                    d@.len() as int,
                ).contains(x) implies #[trigger] indirect_access(ents@, d@).contains(x) by {
                    let k2 = choose|k2: int|
                        0 <= k2 < d@.len() && has_entitlement(ents@, (#[trigger] d@[k2])@)
                            && str_set(
                            entitlement_at(ents@, d@[k2]@).all_indirect_memberof@,
                        ).contains(x);
                }
                assert(str_set(r@) =~= indirect_access(ents@, member_list_strings(*direct)));
            }
        },
    }
    r
}

/// The two accounts agree on everything but the derived indirect set.
pub open spec fn same_except_indirect_access(a: Account, b: Account) -> bool {
    &&& b.unique_id == a.unique_id
    &&& b.display_name == a.display_name
    &&& b.description == a.description
    &&& b.created == a.created
    &&& b.last_logon == a.last_logon
    &&& b.password_last_set == a.password_last_set
    &&& b.expiration_date == a.expiration_date
    &&& b.enabled == a.enabled
    &&& b.deleted == a.deleted
    &&& b.locked == a.locked
    &&& b.memberof == a.memberof
    &&& b.ou == a.ou
    &&& b.other_attributes == a.other_attributes
    &&& b.account_type == a.account_type
    &&& b.syncs_from_ts == a.syncs_from_ts
    &&& b.syncs_from_account == a.syncs_from_account
    &&& b.syncs_to_ts == a.syncs_to_ts
    &&& b.syncs_to_account == a.syncs_to_account
    &&& b.identity_owners == a.identity_owners
    &&& b.history == a.history
}

/// Every account's derived indirect set is exactly the indirect access its
/// direct membership list yields over the store's entitlements — in
/// particular, disjoint from the direct list.
pub open spec fn accounts_propagated(accounts: Seq<Account>, ents: Seq<Entitlement>) -> bool {
    forall|i: int|
        0 <= i < accounts.len() ==> str_set((#[trigger] accounts[i]).memberof_indirect@)
            == indirect_access(ents, member_list_strings(accounts[i].memberof)) && views_distinct(
            accounts[i].memberof_indirect@,
        )
}

/// Derives every account's indirect access over the given entitlements:
/// the union of the ancestor sets of the entitlements it is directly a
/// member of, minus what it holds directly.
pub fn populate_indirect_access(accounts: Vec<Account>, ents: &Vec<Entitlement>) -> (r: Vec<
    Account,
>)
    requires
        unique_entitlement_ids(ents@),
    ensures
        r@.len() == accounts@.len(),
        forall|i: int|
            0 <= i < accounts@.len() ==> same_except_indirect_access(
                accounts@[i],
                #[trigger] r@[i],
            ),
        accounts_propagated(r@, ents@),
{
    let ghost orig = accounts@;
    let mut rest = accounts;
    let mut r: Vec<Account> = Vec::new();
    while rest.len() > 0
        invariant
            r@.len() + rest@.len() == orig.len(),
            rest@ =~= orig.skip(r@.len() as int),
            unique_entitlement_ids(ents@),
            forall|m: int|
                0 <= m < r@.len() ==> same_except_indirect_access(orig[m], #[trigger] r@[m]),
            forall|m: int|
                0 <= m < r@.len() ==> str_set((#[trigger] r@[m]).memberof_indirect@)
                    == indirect_access(ents@, member_list_strings(r@[m].memberof))
                    && views_distinct(r@[m].memberof_indirect@),
        decreases rest@.len(),
    {
        let ghost n = r@.len() as int;
        let mut a = rest.remove(0);
        let ind = compute_indirect_access(&a.memberof, ents);
        a.memberof_indirect = ind;
        r.push(a);
        proof {
            assert(rest@ =~= orig.skip(n + 1));
        }
    }
    r
}

/// The parents of `id` over a store: what its entitlement lists directly,
/// nothing when the store holds no entitlement with `id`.
pub open spec fn store_parents_of(ents: Seq<Entitlement>, id: Seq<char>) -> Set<Seq<char>> {
    if has_entitlement(ents, id) {
        member_list_view(entitlement_at(ents, id).memberof).to_set()
    } else {
        Set::<Seq<char>>::empty()
    }
}

/// `id` lies within `n` parent hops of the source set, over a store.
pub open spec fn store_reaches_in(
    ents: Seq<Entitlement>,
    src: Set<Seq<char>>,
    id: Seq<char>,
    n: nat,
) -> bool
    decreases n,
{
    if n == 0 {
        src.contains(id)
    } else {
        store_reaches_in(ents, src, id, (n - 1) as nat) || exists|mid: Seq<char>|
            store_reaches_in(ents, src, mid, (n - 1) as nat) && #[trigger] store_parents_of(
                ents,
                mid,
            ).contains(id)
    }
}

/// `id` is reachable from the source set by zero or more parent hops, over a
/// store.
pub open spec fn store_reachable(
    ents: Seq<Entitlement>,
    src: Set<Seq<char>>,
    id: Seq<char>,
) -> bool {
    exists|n: nat| store_reaches_in(ents, src, id, n)
}

/// The full transitive ancestor set of a stored entitlement.
pub open spec fn store_ancestor_closure(ents: Seq<Entitlement>, e: Entitlement) -> Set<
    Seq<char>,
> {
    Set::new(
        |id: Seq<char>|
            store_reachable(ents, member_list_view(e.memberof).to_set(), id) && id
                != e.unique_id@,
    )
}

/// Every stored entitlement's derived ancestor list holds exactly its
/// transitive ancestor set over the store, free of duplicates: the store is
/// query-ready.
pub open spec fn closure_complete(ents: Seq<Entitlement>) -> bool {
    forall|j: int|
        0 <= j < ents.len() ==> str_set((#[trigger] ents[j]).all_indirect_memberof@)
            == store_ancestor_closure(ents, ents[j]) && views_distinct(
            ents[j].all_indirect_memberof@,
        )
}

/// A store built record-for-record from flat records has the same parent
/// graph as those records.
proof fn lemma_store_parents_match(ds: Seq<EntitlementDTO>, ss: Seq<Entitlement>)
    requires
        unique_ids(ds),
        ss.len() == ds.len(),
        forall|i: int|
            0 <= i < ds.len() ==> (#[trigger] ss[i]).unique_id == ds[i].unique_id && ss[i].memberof
                == ds[i].memberof,
    ensures
        forall|x: Seq<char>| #[trigger] store_parents_of(ss, x) == crate::closure::parents_of(
            ds,
            x,
        ),
{
    assert forall|x: Seq<char>| #[trigger] store_parents_of(ss, x) == crate::closure::parents_of(
        ds,
        x,
    ) by {
        if has_ent(ds, x) {
            let i0 = choose|i: int| 0 <= i < ds.len() && #[trigger] ds[i].unique_id@ == x;
            assert(ss[i0].unique_id@ == x);
            assert(has_entitlement(ss, x));
            let j0 = choose|i: int| 0 <= i < ds.len() && #[trigger] ds[i].unique_id@ == x;
            let j1 = choose|i: int| 0 <= i < ss.len() && #[trigger] ss[i].unique_id@ == x;
            assert(ds[j1].unique_id@ == x);
            assert(j0 == j1);
            assert(entitlement_at(ss, x).memberof == crate::closure::ent_at(ds, x).memberof);
        } else {
            if has_entitlement(ss, x) {
                let i1 = choose|i: int| 0 <= i < ss.len() && #[trigger] ss[i].unique_id@ == x;
                assert(ds[i1].unique_id@ == x);
            }
            assert(!has_entitlement(ss, x));
        }
    }
}

/// Hop-bounded reachability over a store coincides with reachability over
/// flat records whose parent graph is the same.
proof fn lemma_store_reaches_match(
    ds: Seq<EntitlementDTO>,
    ss: Seq<Entitlement>,
    src: Set<Seq<char>>,
    id: Seq<char>,
    n: nat,
)
    requires
        forall|x: Seq<char>| #[trigger] store_parents_of(ss, x) == crate::closure::parents_of(
            ds,
            x,
        ),
    ensures
        store_reaches_in(ss, src, id, n) == crate::closure::reaches_in(ds, src, id, n),
    decreases n,
{
    if n > 0 {
        lemma_store_reaches_match(ds, ss, src, id, (n - 1) as nat);
        if store_reaches_in(ss, src, id, n) && !store_reaches_in(ss, src, id, (n - 1) as nat) {
            let mid = choose|mid: Seq<char>|
                store_reaches_in(ss, src, mid, (n - 1) as nat) && #[trigger] store_parents_of(
                    ss,
                    mid,
                ).contains(id);
            lemma_store_reaches_match(ds, ss, src, mid, (n - 1) as nat);
            assert(crate::closure::parents_of(ds, mid).contains(id));
            assert(crate::closure::reaches_in(ds, src, id, n));
        }
        if crate::closure::reaches_in(ds, src, id, n) && !crate::closure::reaches_in(
            ds,
            src,
            id,
            (n - 1) as nat,
        ) {
            let mid = choose|mid: Seq<char>|
                crate::closure::reaches_in(ds, src, mid, (n - 1) as nat)
                    && #[trigger] crate::closure::parents_of(ds, mid).contains(id);
            lemma_store_reaches_match(ds, ss, src, mid, (n - 1) as nat);
            assert(store_parents_of(ss, mid).contains(id));
            assert(store_reaches_in(ss, src, id, n));
        }
    }
}

/// One target system: its configuration and its record store.
#[derive(Debug)]
pub struct TargetSystem {
    pub config: TargetSystemConfig,
    pub accounts: Vec<Account>,
    pub entitlements: Vec<Entitlement>,
}

/// The records of one load: duplicates collapsed last-wins, then — when the
/// connector's schema expresses membership in reverse — normalized by
/// inversion, then closed under the ancestor computation, then carried into
/// store records.
pub open spec fn entitlements_loaded(
    input: Seq<EntitlementDTO>,
    invert: bool,
    out: Seq<Entitlement>,
) -> bool {
    exists|kept: Seq<EntitlementDTO>, norm: Seq<EntitlementDTO>, closed: Seq<EntitlementDTO>|
        #![trigger dedup_ents_rel(input, kept), closure_pass(norm, closed)]
        {
            &&& dedup_ents_rel(input, kept)
            &&& if invert {
                crate::closure::inversion_rel(kept, norm)
            } else {
                norm == kept
            }
            &&& closure_pass(norm, closed)
            &&& out.len() == closed.len()
            &&& forall|i: int|
                0 <= i < closed.len() ==> entitlement_of_dto(closed[i], #[trigger] out[i])
        }
}

/// The accounts of one load: duplicates collapsed last-wins, then carried
/// into store records.
pub open spec fn accounts_loaded(input: Seq<AccountDTO>, out: Seq<Account>) -> bool {
    exists|kept: Seq<AccountDTO>|
        {
            &&& #[trigger] dedup_accts_rel(input, kept)
            &&& out.len() == kept.len()
            &&& forall|i: int|
                0 <= i < kept.len() ==> account_of_dto(kept[i], #[trigger] out[i])
        }
}

impl TargetSystem {
    /// Identifiers are unique within each record collection of the store.
    pub open spec fn wf(self) -> bool {
        unique_account_ids(self.accounts@) && unique_entitlement_ids(self.entitlements@)
    }

    /// An empty store under the given configuration.
    pub fn new(config: TargetSystemConfig) -> (r: Self)
        ensures
            r.config == config,
            r.accounts@ =~= Seq::<Account>::empty(),
            r.entitlements@ =~= Seq::<Entitlement>::empty(),
            r.wf(),
    {
        TargetSystem { config, accounts: Vec::new(), entitlements: Vec::new() }
    }

    /// Populates the store from one connector's flat records and makes it
    /// query-ready: duplicate identifiers collapse (last wins),
    /// reverse-expressed membership is normalized when the connector's
    /// schema demands it, every entitlement receives its transitive ancestor
    /// set, and every account its derived indirect access.
    pub fn load(
        &mut self,
        users_dto: Vec<AccountDTO>,
        entitlements_dto: Vec<EntitlementDTO>,
        invert_member_groups: bool,
    )
        ensures
            final(self).config == old(self).config,
            final(self).wf(),
            accounts_loaded(users_dto@, final(self).accounts@),
            entitlements_loaded(
                entitlements_dto@,
                invert_member_groups,
                final(self).entitlements@,
            ),
            closure_complete(final(self).entitlements@),
            accounts_propagated(final(self).accounts@, final(self).entitlements@),
    {
        // Entitlements: collapse, normalize, close.
        let kept_e = dedup_entitlement_dtos(entitlements_dto);
        let ghost kept_eg = kept_e@;
        let norm_e = if invert_member_groups {
            calculate_memberof(kept_e)
        } else {
            kept_e
        };
        let ghost norm_eg = norm_e@;
        proof {
            if invert_member_groups {
                assert forall|a: int, b: int| #![trigger norm_eg[a], norm_eg[b]]
                    0 <= a < b < norm_eg.len() implies norm_eg[a].unique_id@
                    != norm_eg[b].unique_id@ by {
                    assert(crate::closure::same_except_memberof(kept_eg[a], norm_eg[a]));
                    assert(crate::closure::same_except_memberof(kept_eg[b], norm_eg[b]));
                }
            }
            assert(unique_ids(norm_eg));
        }
        let closed_e = calculate_indirect_memberof(norm_e);
        let ghost closed_eg = closed_e@;
        proof {
            assert forall|a: int, b: int| #![trigger closed_eg[a], closed_eg[b]]
                0 <= a < b < closed_eg.len() implies closed_eg[a].unique_id@
                != closed_eg[b].unique_id@ by {
                assert(crate::closure::same_except_indirect(norm_eg[a], closed_eg[a]));
                assert(crate::closure::same_except_indirect(norm_eg[b], closed_eg[b]));
            }
        }
        // Carry the closed records into the store.
        let mut rest_e = closed_e;
        let mut ents: Vec<Entitlement> = Vec::new();
        while rest_e.len() > 0
            invariant
                ents@.len() + rest_e@.len() == closed_eg.len(),
                rest_e@ =~= closed_eg.skip(ents@.len() as int),
                forall|m: int|
                    0 <= m < ents@.len() ==> entitlement_of_dto(closed_eg[m], #[trigger] ents@[m]),
            decreases rest_e@.len(),
        {
            let ghost n = ents@.len() as int;
            let e = rest_e.remove(0);
            ents.push(Entitlement::from_dto(e));
            proof {
                assert(rest_e@ =~= closed_eg.skip(n + 1));
            }
        }
        proof {
            assert forall|a: int, b: int| #![trigger ents@[a], ents@[b]]
                0 <= a < b < ents@.len() implies ents@[a].unique_id@ != ents@[b].unique_id@ by {
                assert(closed_eg[a].unique_id@ != closed_eg[b].unique_id@);
            }
            assert(unique_entitlement_ids(ents@));
            // The store's graph is the graph the closure ran on, so every
            // stored ancestor list is the store-level ancestor closure.
            lemma_store_parents_match(closed_eg, ents@);
            crate::closure::lemma_parents_preserved(norm_eg, closed_eg);
            assert forall|j: int| 0 <= j < ents@.len() implies str_set(
                (#[trigger] ents@[j]).all_indirect_memberof@,
            ) == store_ancestor_closure(ents@, ents@[j]) && views_distinct(
                ents@[j].all_indirect_memberof@,
            ) by {
                let e = ents@[j];
                let src = member_list_view(e.memberof).to_set();
                assert(e.memberof == closed_eg[j].memberof);
                assert(closed_eg[j].memberof == norm_eg[j].memberof);
                assert(src == crate::closure::direct_parents(norm_eg[j]));
                assert forall|id: Seq<char>|
                    store_ancestor_closure(ents@, e).contains(id) == crate::closure
                        ::ancestor_closure(norm_eg, norm_eg[j]).contains(id) by {
                    if store_reachable(ents@, src, id) {
                        let n = choose|n: nat| store_reaches_in(ents@, src, id, n);
                        lemma_store_reaches_match(closed_eg, ents@, src, id, n);
                        crate::closure::lemma_reaches_same(closed_eg, norm_eg, src, id, n);
                        assert(crate::closure::reaches_in(norm_eg, src, id, n));
                        assert(crate::closure::reachable(norm_eg, src, id));
                    }
                    if crate::closure::reachable(norm_eg, src, id) {
                        let n = choose|n: nat| crate::closure::reaches_in(norm_eg, src, id, n);
                        crate::closure::lemma_reaches_same(closed_eg, norm_eg, src, id, n);
                        lemma_store_reaches_match(closed_eg, ents@, src, id, n);
                        assert(store_reaches_in(ents@, src, id, n));
                        assert(store_reachable(ents@, src, id));
                    }
                    assert(e.unique_id@ == norm_eg[j].unique_id@);
                }
                assert(store_ancestor_closure(ents@, e) =~= crate::closure::ancestor_closure(
                    norm_eg,
                    norm_eg[j],
                ));
                assert(e.all_indirect_memberof == closed_eg[j].all_indirect_memberof);
            }
        }
        // Accounts: collapse, carry over, derive indirect access.
        let kept_a = dedup_account_dtos(users_dto);
        let ghost kept_ag = kept_a@;
        let mut rest_a = kept_a;
        let mut accts0: Vec<Account> = Vec::new();
        while rest_a.len() > 0
            invariant
                accts0@.len() + rest_a@.len() == kept_ag.len(),
                rest_a@ =~= kept_ag.skip(accts0@.len() as int),
                forall|m: int|
                    0 <= m < accts0@.len() ==> account_of_dto(kept_ag[m], #[trigger] accts0@[m]),
            decreases rest_a@.len(),
        {
            let ghost n = accts0@.len() as int;
            let a = rest_a.remove(0);
            accts0.push(Account::from_dto(a));
            proof {
                assert(rest_a@ =~= kept_ag.skip(n + 1));
            }
        }
        let accts = populate_indirect_access(accts0, &ents);
        proof {
            assert forall|m: int| 0 <= m < kept_ag.len() implies account_of_dto(
                kept_ag[m],
                #[trigger] accts@[m],
            ) by {
                assert(same_except_indirect_access(accts0@[m], accts@[m]));
            }
            assert forall|a: int, b: int| #![trigger accts@[a], accts@[b]]
                0 <= a < b < accts@.len() implies accts@[a].unique_id@ != accts@[b].unique_id@ by {
                assert(kept_ag[a].unique_id@ != kept_ag[b].unique_id@);
            }
            assert(unique_account_ids(accts@));
        }
        self.accounts = accts;
        self.entitlements = ents;
        proof {
            assert(dedup_accts_rel(users_dto@, kept_ag));
            assert(accounts_loaded(users_dto@, self.accounts@));
            assert(dedup_ents_rel(entitlements_dto@, kept_eg));
            assert(closure_pass(norm_eg, closed_eg));
            assert(entitlements_loaded(entitlements_dto@, invert_member_groups, self.entitlements@));
        }
    }
}

/// The stored account of the collection carrying `id`.
pub open spec fn account_at(s: Seq<Account>, id: Seq<char>) -> Account
    recommends
        has_account(s, id),
{
    s[choose|i: int| 0 <= i < s.len() && #[trigger] s[i].unique_id@ == id]
}

/// First stored account carrying the given identifier.
pub fn find_account(accts: &Vec<Account>, id: &String) -> (r: Option<usize>)
    ensures
        match r {
            Some(j) => j < accts@.len() && accts@[j as int].unique_id@ == id@,
            None => !has_account(accts@, id@),
        },
{
    let mut j: usize = 0;
    while j < accts.len()
        invariant
            0 <= j <= accts@.len(),
            forall|m: int| 0 <= m < j ==> (#[trigger] accts@[m]).unique_id@ != id@,
        decreases accts@.len() - j,
    {
        if accts[j].unique_id.eq(id) {
            return Some(j);
        }
        j += 1;
    }
    None
}

/// With unique identifiers, the stored account found at an index is the one
/// the lookup by its identifier yields.
proof fn lemma_account_at_index(accts: Seq<Account>, j: int)
    requires
        unique_account_ids(accts),
        0 <= j < accts.len(),
    ensures
        has_account(accts, accts[j].unique_id@),
        account_at(accts, accts[j].unique_id@) == accts[j],
{
    let id = accts[j].unique_id@;
    assert(has_account(accts, id));
    let w = choose|i: int| 0 <= i < accts.len() && #[trigger] accts[i].unique_id@ == id;
    assert(w == j);
}

/// The characters of an optional string; empty when absent.
pub open spec fn opt_str_view(o: Option<String>) -> Seq<char> {
    match o {
        Some(s) => s@,
        None => Seq::<char>::empty(),
    }
}

/// Display fallback: the display name when present, else the identifier.
pub open spec fn display_or_id(d: Option<String>, uid: String) -> Seq<char> {
    match d {
        Some(s) => s@,
        None => uid@,
    }
}

/// The report label of an optional enabled flag.
pub open spec fn enabled_label(e: Option<bool>) -> Seq<char> {
    match e {
        Some(true) => "Yes "@,
        Some(false) => "No "@,
        None => "N/A"@,
    }
}

/// Position of the first comma, or the length when there is none.
pub open spec fn first_comma(s: Seq<char>) -> int
    decreases s.len(),
{
    if s.len() == 0 {
        0
    } else if s[0] == ',' {
        0
    } else {
        1 + first_comma(s.drop_first())
    }
}

/// The string with every leading name-prefix marker removed.
pub open spec fn strip_cn(s: Seq<char>) -> Seq<char>
    decreases s.len(),
{
    if s.len() >= 3 && s[0] == 'C' && s[1] == 'N' && s[2] == '=' {
        strip_cn(s.skip(3))
    } else {
        s
    }
}

/// The member name a distinguished name denotes: the part before the first
/// comma with its name-prefix markers removed when it carries one, else the
/// whole string unchanged.
pub open spec fn cn_of(s: Seq<char>) -> Seq<char> {
    let p = s.take(first_comma(s));
    if p.len() >= 3 && p[0] == 'C' && p[1] == 'N' && p[2] == '=' {
        strip_cn(p)
    } else {
        s
    }
}

/// The first comma's position is the least position holding a comma.
proof fn lemma_first_comma(s: Seq<char>)
    ensures
        0 <= first_comma(s) <= s.len(),
        first_comma(s) < s.len() ==> s[first_comma(s)] == ',',
        forall|m: int| 0 <= m < first_comma(s) ==> s[m] != ',',
    decreases s.len(),
{
    if s.len() > 0 && s[0] != ',' {
        lemma_first_comma(s.drop_first());
        assert forall|m: int| 0 <= m < first_comma(s) implies s[m] != ',' by {
            if m > 0 {
                assert(s.drop_first()[m - 1] != ',');
            }
        }
    }
}

/// Extracts the member name from one distinguished name.
pub fn extract_cn(dn: &String) -> (r: String)
    ensures
        r@ == cn_of(dn@),
{
    let s = dn.as_str();
    let n = s.unicode_len();
    let mut i: usize = 0;
    let mut stop = false;
    while i < n && !stop
        invariant
            0 <= i <= n,
            n == s@.len(),
            s@ == dn@,
            forall|m: int| 0 <= m < i ==> s@[m] != ',',
            stop ==> i < n && s@[i as int] == ',',
        decreases n - i + (if stop {
            0int
        } else {
            1int
        }),
    {
        if s.get_char(i) == ',' {
            stop = true;
        } else {
            i += 1;
        }
    }
    proof {
        lemma_first_comma(s@);
        if stop {
            assert(first_comma(s@) <= i);
            assert(first_comma(s@) == i);
        } else {
            assert(i == n);
            if first_comma(s@) < n {
                assert(s@[first_comma(s@)] == ',');
            }
            assert(first_comma(s@) == i);
        }
    }
    let p = s.substring_char(0, i);
    proof {
        assert(p@ =~= s@.take(first_comma(s@)));
    }
    let plen = p.unicode_len();
    let has_marker = plen >= 3 && p.get_char(0) == 'C' && p.get_char(1) == 'N' && p.get_char(2)
        == '=';
    if has_marker {
        let mut cur: String = p.to_owned();
        let mut cur_len = plen;
        while cur_len >= 3 && cur.as_str().get_char(0) == 'C' && cur.as_str().get_char(1) == 'N'
            && cur.as_str().get_char(2) == '='
            invariant
                cur_len == cur@.len(),
                strip_cn(cur@) == strip_cn(p@),
            decreases cur@.len(),
        {
            let next = cur.as_str().substring_char(3, cur_len).to_owned();
            proof {
                assert(next@ =~= cur@.skip(3));
            }
            cur_len = cur_len - 3;
            cur = next;
        }
        proof {
            assert(strip_cn(cur@) == cur@);
        }
        cur
    } else {
        let r = dn.clone();
        proof {
            assert(r@ == cn_of(dn@));
        }
        r
    }
}

/// Scalar projection of one entitlement: attributes carried over with their
/// display fallbacks, match flag clear.
pub open spec fn ent_data_scalar_rel(e: Entitlement, d: EntitlementData) -> bool {
    &&& d.uid == e.unique_id
    &&& d.display_name@ == display_or_id(e.display_name, e.unique_id)
    &&& d.description@ == opt_str_view(e.description)
    &&& d.entitlement_type == e.entitlement_type
    &&& d.ou@ == opt_str_view(e.ou)
    &&& d.syncs_to_ts@ == opt_str_view(e.syncs_to_ts)
    &&& d.syncs_to_entitlement@ == opt_str_view(e.syncs_to_entitlement)
    &&& d.identity_owners@ == e.identity_owners@
    &&& d.macheo == false
    &&& d.history@ == e.history@
}

/// Projection of one entitlement without membership detail.
pub open spec fn ent_data_basic_rel(e: Entitlement, d: EntitlementData) -> bool {
    &&& ent_data_scalar_rel(e, d)
    &&& d.member_accounts@.len() == 0
    &&& d.member_groups@.len() == 0
}

/// The identifiers of the list that resolve to a stored entitlement, in
/// order; a dangling identifier is silently skipped.
pub open spec fn resolved_ent_ids(ents: Seq<Entitlement>, ids: Seq<String>) -> Seq<String> {
    ids.filter(|s: String| has_entitlement(ents, s@))
}

/// One projection per resolving identifier, in order.
pub open spec fn ent_datas_rel(
    ents: Seq<Entitlement>,
    ids: Seq<String>,
    ds: Seq<EntitlementData>,
) -> bool {
    &&& ds.len() == resolved_ent_ids(ents, ids).len()
    &&& forall|k: int|
        0 <= k < ds.len() ==> ent_data_basic_rel(
            entitlement_at(ents, resolved_ent_ids(ents, ids)[k]@),
            #[trigger] ds[k],
        )
}

/// Scalar projection of one account.
pub open spec fn acct_data_scalar_rel(a: Account, d: AccountData) -> bool {
    &&& d.uid == a.unique_id
    &&& d.display_name@ == display_or_id(a.display_name, a.unique_id)
    &&& d.description@ == opt_str_view(a.description)
    &&& d.account_type == a.account_type
    &&& d.ou@ == opt_str_view(a.ou)
    &&& d.enabled@ == enabled_label(a.enabled)
    &&& d.syncs_to_ts@ == opt_str_view(a.syncs_to_ts)
    &&& d.syncs_to_account@ == opt_str_view(a.syncs_to_account)
    &&& d.identity_owners@ == a.identity_owners@
    &&& d.macheo == false
    &&& d.history@ == a.history@
}

/// Projection of one account: scalars, plus one entitlement projection per
/// resolving direct and indirect membership identifier.
pub open spec fn acct_data_rel(ents: Seq<Entitlement>, a: Account, d: AccountData) -> bool {
    &&& acct_data_scalar_rel(a, d)
    &&& ent_datas_rel(ents, member_list_strings(a.memberof), d.entitlements@)
    &&& ent_datas_rel(ents, a.memberof_indirect@, d.indirect_entitlements@)
}

/// The identifiers of the list that resolve to a stored account, in order.
pub open spec fn resolved_acct_ids(accts: Seq<Account>, ids: Seq<String>) -> Seq<String> {
    ids.filter(|s: String| has_account(accts, s@))
}

/// One account projection per resolving identifier, in order.
pub open spec fn acct_datas_rel(
    accts: Seq<Account>,
    ents: Seq<Entitlement>,
    ids: Seq<String>,
    ds: Seq<AccountData>,
) -> bool {
    &&& ds.len() == resolved_acct_ids(accts, ids).len()
    &&& forall|k: int|
        0 <= k < ds.len() ==> acct_data_rel(
            ents,
            account_at(accts, resolved_acct_ids(accts, ids)[k]@),
            #[trigger] ds[k],
        )
}

/// `sams` holds the member names the distinguished names denote.
pub open spec fn cn_list_of(ids: Seq<String>, sams: Seq<String>) -> bool {
    &&& sams.len() == ids.len()
    &&& forall|k: int| 0 <= k < ids.len() ==> (#[trigger] sams[k])@ == cn_of(ids[k]@)
}

/// Projection of one entitlement with membership detail: member accounts are
/// looked up under the names their distinguished names denote, member groups
/// under the member identifiers as they stand.
pub open spec fn ent_data_full_rel(
    accts: Seq<Account>,
    ents: Seq<Entitlement>,
    e: Entitlement,
    d: EntitlementData,
) -> bool {
    &&& ent_data_scalar_rel(e, d)
    &&& exists|sams: Seq<String>|
        #[trigger] cn_list_of(member_list_strings(e.members), sams) && acct_datas_rel(
            accts,
            ents,
            sams,
            d.member_accounts@,
        )
    &&& ent_datas_rel(ents, member_list_strings(e.members), d.member_groups@)
}

impl HistoryRecord {
    /// A field-for-field copy.
    pub fn duplicate(&self) -> (r: Self)
        ensures
            r == *self,
    {
        HistoryRecord {
            link_key: self.link_key.clone(),
            date: self.date,
            source: self.source.clone(),
            event_name: self.event_name.clone(),
            initiator: self.initiator.clone(),
            state: self.state.clone(),
            description: self.description.clone(),
        }
    }
}

/// A copy of a list of strings, holding the very same values.
fn clone_strings(v: &Vec<String>) -> (r: Vec<String>)
    ensures
        r@ =~= v@,
{
    let mut r: Vec<String> = Vec::new();
    let mut k: usize = 0;
    while k < v.len()
        invariant
            0 <= k <= v@.len(),
            r@.len() == k,
            forall|m: int| 0 <= m < k ==> r@[m] == v@[m],
        decreases v@.len() - k,
    {
        r.push(v[k].clone());
        k += 1;
    }
    r
}

/// A copy of a history list, holding the very same events.
fn clone_histories(v: &Vec<HistoryRecord>) -> (r: Vec<HistoryRecord>)
    ensures
        r@ =~= v@,
{
    let mut r: Vec<HistoryRecord> = Vec::new();
    let mut k: usize = 0;
    while k < v.len()
        invariant
            0 <= k <= v@.len(),
            r@.len() == k,
            forall|m: int| 0 <= m < k ==> r@[m] == v@[m],
        decreases v@.len() - k,
    {
        r.push(v[k].duplicate());
        k += 1;
    }
    r
}

/// The string when present, else a fresh empty one.
fn opt_or_empty(o: &Option<String>) -> (r: String)
    ensures
        r@ == opt_str_view(*o),
{
    match o {
        Some(s) => s.clone(),
        None => String::new(),
    }
}

/// The display name when present, else the identifier.
fn display_of(d: &Option<String>, uid: &String) -> (r: String)
    ensures
        r@ == display_or_id(*d, *uid),
{
    match d {
        Some(s) => s.clone(),
        None => uid.clone(),
    }
}

impl Entitlement {
    /// Projection without membership detail.
    fn to_data_basic(&self) -> (r: EntitlementData)
        ensures
            ent_data_basic_rel(*self, r),
    {
        EntitlementData {
            uid: self.unique_id.clone(),
            display_name: display_of(&self.display_name, &self.unique_id),
            description: opt_or_empty(&self.description),
            member_accounts: Vec::new(),
            member_groups: Vec::new(),
            entitlement_type: self.entitlement_type.clone(),
            ou: opt_or_empty(&self.ou),
            syncs_to_ts: opt_or_empty(&self.syncs_to_ts),
            syncs_to_entitlement: opt_or_empty(&self.syncs_to_entitlement),
            identity_owners: clone_strings(&self.identity_owners),
            macheo: false,
            history: clone_histories(&self.history),
        }
    }
}

/// One basic projection per identifier of the list that resolves.
fn ent_datas_basic(ents: &Vec<Entitlement>, ids: &Vec<String>) -> (r: Vec<EntitlementData>)
    requires
        unique_entitlement_ids(ents@),
    ensures
        ent_datas_rel(ents@, ids@, r@),
{
    let ghost pred = |s: String| has_entitlement(ents@, s@);
    let mut out: Vec<EntitlementData> = Vec::new();
    let mut k: usize = 0;
    proof {
        assert(ids@.take(0) =~= Seq::<String>::empty());
        reveal_with_fuel(Seq::filter, 2);
        assert(resolved_ent_ids(ents@, ids@.take(0)) =~= Seq::<String>::empty());
    }
    while k < ids.len()
        invariant
            0 <= k <= ids@.len(),
            unique_entitlement_ids(ents@),
            out@.len() == resolved_ent_ids(ents@, ids@.take(k as int)).len(),
            forall|m: int|
                0 <= m < out@.len() ==> ent_data_basic_rel(
                    entitlement_at(
                        ents@,
                        resolved_ent_ids(ents@, ids@.take(k as int))[m]@,
                    ),
                    #[trigger] out@[m],
                ),
        decreases ids@.len() - k,
    {
        let ghost res_pre = resolved_ent_ids(ents@, ids@.take(k as int));
        let found = find_entitlement(ents, &ids[k]);
        match found {
            Some(j) => {
                proof {
                    lemma_entitlement_at_index(ents@, j as int);
                }
                out.push(ents[j].to_data_basic());
            },
            None => {},
        }
        proof {
            let tk1 = ids@.take(k + 1);
            assert(tk1.drop_last() =~= ids@.take(k as int));
            assert(tk1.last() == ids@[k as int]);
            reveal_with_fuel(Seq::filter, 2);
            assert(resolved_ent_ids(ents@, tk1) == if has_entitlement(ents@, ids@[k as int]@) {
                res_pre.push(ids@[k as int])
            } else {
                res_pre
            });
            if found is Some {
                let j = found->0;
                assert(entitlement_at(ents@, ids@[k as int]@) == ents@[j as int]);
            }
        }
        k += 1;
    }
    proof {
        assert(ids@.take(ids@.len() as int) =~= ids@);
    }
    out
}

impl Account {
    /// Read-only projection of this account over the given entitlements:
    /// attributes with display fallbacks, and one entitlement projection per
    /// resolving direct and indirect membership identifier.
    fn to_data_over(&self, ents: &Vec<Entitlement>) -> (r: AccountData)
        requires
            unique_entitlement_ids(ents@),
        ensures
            acct_data_rel(ents@, *self, r),
    {
        let entitlements = match &self.memberof {
            Some(ids) => ent_datas_basic(ents, ids),
            None => Vec::new(),
        };
        proof {
            if self.memberof is None {
                reveal_with_fuel(Seq::filter, 2);
                assert(member_list_strings(self.memberof) =~= Seq::<String>::empty());
                assert(resolved_ent_ids(ents@, member_list_strings(self.memberof))
                    =~= Seq::<String>::empty());
            }
        }
        let indirect_entitlements = ent_datas_basic(ents, &self.memberof_indirect);
        let enabled: String = match self.enabled {
            Some(true) => "Yes ".to_owned(),
            Some(false) => "No ".to_owned(),
            None => "N/A".to_owned(),
        };
        AccountData {
            uid: self.unique_id.clone(),
            display_name: display_of(&self.display_name, &self.unique_id),
            description: opt_or_empty(&self.description),
            entitlements,
            indirect_entitlements,
            account_type: self.account_type.clone(),
            ou: opt_or_empty(&self.ou),
            enabled,
            syncs_to_ts: opt_or_empty(&self.syncs_to_ts),
            syncs_to_account: opt_or_empty(&self.syncs_to_account),
            identity_owners: clone_strings(&self.identity_owners),
            macheo: false,
            history: clone_histories(&self.history),
        }
    }

    /// Read-only projection of this account within its target system.
    pub fn to_data(&self, ts: &TargetSystem) -> (r: AccountData)
        requires
            unique_entitlement_ids(ts.entitlements@),
        ensures
            acct_data_rel(ts.entitlements@, *self, r),
    {
        self.to_data_over(&ts.entitlements)
    }
}

/// One account projection per identifier of the list that resolves.
fn acct_datas(accts: &Vec<Account>, ents: &Vec<Entitlement>, ids: &Vec<String>) -> (r: Vec<
    AccountData,
>)
    requires
        unique_account_ids(accts@),
        unique_entitlement_ids(ents@),
    ensures
        acct_datas_rel(accts@, ents@, ids@, r@),
{
    let mut out: Vec<AccountData> = Vec::new();
    let mut k: usize = 0;
    proof {
        assert(ids@.take(0) =~= Seq::<String>::empty());
        reveal_with_fuel(Seq::filter, 2);
        assert(resolved_acct_ids(accts@, ids@.take(0)) =~= Seq::<String>::empty());
    }
    while k < ids.len()
        invariant
            0 <= k <= ids@.len(),
            unique_account_ids(accts@),
            unique_entitlement_ids(ents@),
            out@.len() == resolved_acct_ids(accts@, ids@.take(k as int)).len(),
            forall|m: int|
                0 <= m < out@.len() ==> acct_data_rel(
                    ents@,
                    account_at(accts@, resolved_acct_ids(accts@, ids@.take(k as int))[m]@),
                    #[trigger] out@[m],
                ),
        decreases ids@.len() - k,
    {
        let ghost res_pre = resolved_acct_ids(accts@, ids@.take(k as int));
        let found = find_account(accts, &ids[k]);
        match found {
            Some(j) => {
                proof {
                    lemma_account_at_index(accts@, j as int);
                }
                out.push(accts[j].to_data_over(ents));
            },
            None => {},
        }
        proof {
            let tk1 = ids@.take(k + 1);
            assert(tk1.drop_last() =~= ids@.take(k as int));
            assert(tk1.last() == ids@[k as int]);
            reveal_with_fuel(Seq::filter, 2);
            assert(resolved_acct_ids(accts@, tk1) == if has_account(accts@, ids@[k as int]@) {
                res_pre.push(ids@[k as int])
            } else {
                res_pre
            });
            if found is Some {
                let j = found->0;
                assert(account_at(accts@, ids@[k as int]@) == accts@[j as int]);
            }
        }
        k += 1;
    }
    proof {
        assert(ids@.take(ids@.len() as int) =~= ids@);
    }
    out
}

impl Entitlement {
    /// Read-only projection of this entitlement within its target system;
    /// with `memberships`, member accounts are looked up under the names
    /// their distinguished names denote and member groups under the member
    /// identifiers as they stand.
    pub fn to_data(&self, memberships: bool, ts: &TargetSystem) -> (r: EntitlementData)
        requires
            unique_account_ids(ts.accounts@),
            unique_entitlement_ids(ts.entitlements@),
        ensures
            !memberships ==> ent_data_basic_rel(*self, r),
            memberships ==> ent_data_full_rel(ts.accounts@, ts.entitlements@, *self, r),
    {
        if !memberships {
            self.to_data_basic()
        } else {
            let mut sams: Vec<String> = Vec::new();
            match &self.members {
                Some(member_uids) => {
                    let mut k: usize = 0;
                    while k < member_uids.len()
                        invariant
                            0 <= k <= member_uids@.len(),
                            sams@.len() == k,
                            forall|m: int|
                                0 <= m < k ==> (#[trigger] sams@[m])@ == cn_of(member_uids@[m]@),
                        decreases member_uids@.len() - k,
                    {
                        sams.push(extract_cn(&member_uids[k]));
                        k += 1;
                    }
                },
                None => {},
            }
            proof {
                assert(cn_list_of(member_list_strings(self.members), sams@));
            }
            let member_accounts = acct_datas(&ts.accounts, &ts.entitlements, &sams);
            let member_groups = match &self.members {
                Some(member_uids) => ent_datas_basic(&ts.entitlements, member_uids),
                None => Vec::new(),
            };
            proof {
                if self.members is None {
                    reveal_with_fuel(Seq::filter, 2);
                    assert(member_list_strings(self.members) =~= Seq::<String>::empty());
                    assert(resolved_ent_ids(ts.entitlements@, member_list_strings(self.members))
                        =~= Seq::<String>::empty());
                }
            }
            let mut r = self.to_data_basic();
            r.member_accounts = member_accounts;
            r.member_groups = member_groups;
            r
        }
    }
}

/// One full projection per resolving identifier, in order.
pub open spec fn ent_datas_full_rel(
    accts: Seq<Account>,
    ents: Seq<Entitlement>,
    ids: Seq<String>,
    ds: Seq<EntitlementData>,
) -> bool {
    &&& ds.len() == resolved_ent_ids(ents, ids).len()
    &&& forall|k: int|
        0 <= k < ds.len() ==> ent_data_full_rel(
            accts,
            ents,
            entitlement_at(ents, resolved_ent_ids(ents, ids)[k]@),
            #[trigger] ds[k],
        )
}

impl TargetSystem {
    /// One account projection per listed identifier that resolves in this
    /// store, in order.
    pub fn get_accounts_data(&self, accts_uids: &Vec<String>) -> (r: Vec<AccountData>)
        requires
            self.wf(),
        ensures
            acct_datas_rel(self.accounts@, self.entitlements@, accts_uids@, r@),
    {
        acct_datas(&self.accounts, &self.entitlements, accts_uids)
    }

    /// One entitlement projection per listed identifier that resolves in
    /// this store, in order, with or without membership detail.
    pub fn get_entitlements_data(&self, memberships: bool, ents_uids: &Vec<String>) -> (r: Vec<
        EntitlementData,
    >)
        requires
            self.wf(),
        ensures
            !memberships ==> ent_datas_rel(self.entitlements@, ents_uids@, r@),
            memberships ==> ent_datas_full_rel(
                self.accounts@,
                self.entitlements@,
                ents_uids@,
                r@,
            ),
    {
        if !memberships {
            let r = ent_datas_basic(&self.entitlements, ents_uids);
            r
        } else {
            let ghost ids = ents_uids@;
            let mut out: Vec<EntitlementData> = Vec::new();
            let mut k: usize = 0;
            proof {
                assert(ids.take(0) =~= Seq::<String>::empty());
                reveal_with_fuel(Seq::filter, 2);
                assert(resolved_ent_ids(self.entitlements@, ids.take(0))
                    =~= Seq::<String>::empty());
            }
            while k < ents_uids.len()
                invariant
                    0 <= k <= ids.len(),
                    ids == ents_uids@,
                    self.wf(),
                    out@.len() == resolved_ent_ids(self.entitlements@, ids.take(k as int)).len(),
                    forall|m: int|
                        0 <= m < out@.len() ==> ent_data_full_rel(
                            self.accounts@,
                            self.entitlements@,
                            entitlement_at(
                                self.entitlements@,
                                resolved_ent_ids(self.entitlements@, ids.take(k as int))[m]@,
                            ),
                            #[trigger] out@[m],
                        ),
                decreases ids.len() - k,
            {
                let ghost res_pre = resolved_ent_ids(self.entitlements@, ids.take(k as int));
                let found = find_entitlement(&self.entitlements, &ents_uids[k]);
                match found {
                    Some(j) => {
                        proof {
                            lemma_entitlement_at_index(self.entitlements@, j as int);
                        }
                        let d = self.entitlements[j].to_data(true, self);
                        out.push(d);
                    },
                    None => {},
                }
                proof {
                    let tk1 = ids.take(k + 1);
                    assert(tk1.drop_last() =~= ids.take(k as int));
                    assert(tk1.last() == ids[k as int]);
                    reveal_with_fuel(Seq::filter, 2);
                    assert(resolved_ent_ids(self.entitlements@, tk1) == if has_entitlement(
                        self.entitlements@,
                        ids[k as int]@,
                    ) {
                        res_pre.push(ids[k as int])
                    } else {
                        res_pre
                    });
                    if found is Some {
                        let j = found->0;
                        assert(entitlement_at(self.entitlements@, ids[k as int]@)
                            == self.entitlements@[j as int]);
                    }
                }
                k += 1;
            }
            proof {
                assert(ids.take(ids.len() as int) =~= ids);
            }
            out
        }
    }
}

/// An account to report as orphan: enabled, with no identity owner.
pub open spec fn is_orphan_spec(a: Account) -> bool {
    a.enabled == Some(true) && a.identity_owners@.len() == 0
}

/// One identity per matched owner, inactive, terminated before `today`.
pub open spec fn owner_inactive_past(idents: Seq<crate::iga::Identity>, uid: Seq<char>, today: i64) -> bool {
    &&& crate::iga::has_identity(idents, uid)
    &&& crate::iga::is_inactive_spec(crate::iga::identity_at(idents, uid))
    &&& match crate::iga::identity_at(idents, uid).termination_date {
        Some(d) => d < today,
        None => false,
    }
}

/// An account to report as persistent leaver on day `today`: enabled, with at
/// least one identity owner, all of whose owners are inactive identities
/// whose termination date lies in the past.
pub open spec fn is_leaver_on(idents: Seq<crate::iga::Identity>, a: Account, today: i64) -> bool {
    &&& a.identity_owners@.len() > 0
    &&& a.enabled == Some(true)
    &&& forall|k: int|
        0 <= k < a.identity_owners@.len() ==> owner_inactive_past(
            idents,
            (#[trigger] a.identity_owners@[k])@,
            today,
        )
}

/// Relies on chrono (Local::now, Datelike::num_days_from_ce) for the
/// machine's current civil date as a day count; nothing is promised of the
/// value, and callers state what holds for every day.
#[verifier::external_body]
pub(crate) fn current_day() -> i64 {
    chrono::Datelike::num_days_from_ce(&chrono::Local::now().date_naive()) as i64
}

impl Account {
    /// How many direct membership edges the account carries.
    pub fn get_total_entitlements(&self) -> (r: usize)
        ensures
            r == member_list_strings(self.memberof).len(),
    {
        match &self.memberof {
            Some(v) => v.len(),
            None => 0,
        }
    }

    /// Enabled with no identity owner.
    pub fn is_orphan(&self) -> (r: bool)
        ensures
            r == is_orphan_spec(*self),
    {
        let enabled = match self.enabled {
            Some(true) => true,
            _ => false,
        };
        enabled && self.identity_owners.len() == 0
    }

    /// Persistent leaver as of the given day.
    pub fn is_persistent_leaver_on(&self, idents: &Vec<crate::iga::Identity>, today: i64) -> (r:
        bool)
        requires
            crate::iga::unique_identity_ids(idents@),
        ensures
            r == is_leaver_on(idents@, *self, today),
    {
        if self.identity_owners.len() == 0 {
            return false;
        }
        let enabled = match self.enabled {
            Some(true) => true,
            _ => false,
        };
        if !enabled {
            return false;
        }
        let mut k: usize = 0;
        while k < self.identity_owners.len()
            invariant
                0 <= k <= self.identity_owners@.len(),
                crate::iga::unique_identity_ids(idents@),
                forall|m: int|
                    0 <= m < k ==> owner_inactive_past(
                        idents@,
                        (#[trigger] self.identity_owners@[m])@,
                        today,
                    ),
            decreases self.identity_owners@.len() - k,
        {
            let found = crate::iga::find_identity(idents, &self.identity_owners[k]);
            match found {
                Some(j) => {
                    proof {
                        crate::iga::lemma_identity_at_index(idents@, j as int);
                    }
                    if !idents[j].is_inactive() {
                        return false;
                    }
                    match idents[j].termination_date {
                        Some(d) => {
                            if !(d < today) {
                                return false;
                            }
                        },
                        None => {
                            return false;
                        },
                    }
                },
                None => {
                    return false;
                },
            }
            k += 1;
        }
        true
    }

    /// Persistent leaver as of the day the call is made. The current day is
    /// read from the clock: the result is the day-parameterized test for
    /// whatever day that was.
    pub fn is_persistent_leaver(&self, idents: &Vec<crate::iga::Identity>) -> (r: bool)
        requires
            crate::iga::unique_identity_ids(idents@),
        ensures
            exists|today: i64| r == is_leaver_on(idents@, *self, today),
    {
        let today = current_day();
        let r = self.is_persistent_leaver_on(idents, today);
        proof {
            assert(r == is_leaver_on(idents@, *self, today));
        }
        r
    }
}

/// Pointwise account projection of a filtered collection.
pub open spec fn acct_list_rel(
    ents: Seq<Entitlement>,
    srcs: Seq<Account>,
    ds: Seq<AccountData>,
) -> bool {
    &&& ds.len() == srcs.len()
    &&& forall|m: int| 0 <= m < srcs.len() ==> acct_data_rel(ents, srcs[m], #[trigger] ds[m])
}

/// Pointwise entitlement projection of a filtered collection.
pub open spec fn ent_list_rel(srcs: Seq<Entitlement>, ds: Seq<EntitlementData>) -> bool {
    &&& ds.len() == srcs.len()
    &&& forall|m: int| 0 <= m < srcs.len() ==> ent_data_basic_rel(srcs[m], #[trigger] ds[m])
}

/// How many accounts carry the category label.
pub open spec fn count_acct_type(accts: Seq<Account>, t: Seq<char>) -> nat {
    accts.filter(|a: Account| a.account_type@ == t).len()
}

/// How many entitlements carry the category label.
pub open spec fn count_ent_type(ents: Seq<Entitlement>, t: Seq<char>) -> nat {
    ents.filter(|e: Entitlement| e.entitlement_type@ == t).len()
}

/// The organizational-unit label of an entitlement.
pub open spec fn ou_label(e: Entitlement) -> Seq<char> {
    match e.ou {
        Some(s) => s@,
        None => "No OU"@,
    }
}

/// How many entitlements fall under the organizational-unit label.
pub open spec fn count_ent_ou(ents: Seq<Entitlement>, t: Seq<char>) -> nat {
    ents.filter(|e: Entitlement| ou_label(e) == t).len()
}

/// The keys are pairwise distinct, each occurs among the labels, and every
/// label occurs among the keys: a totals table keyed by label.
pub open spec fn label_keys_exact(keys: Seq<String>, labels: Seq<String>) -> bool {
    &&& views_distinct(keys)
    &&& forall|k: int| 0 <= k < keys.len() ==> seq_has_str(labels, (#[trigger] keys[k])@)
    &&& forall|i: int| 0 <= i < labels.len() ==> seq_has_str(keys, (#[trigger] labels[i])@)
}

/// The distinct labels of the list, each once, in order of first occurrence.
fn distinct_labels_of(labels: &Vec<String>) -> (r: Vec<String>)
    ensures
        label_keys_exact(r@, labels@),
{
    let mut r: Vec<String> = Vec::new();
    let mut k: usize = 0;
    while k < labels.len()
        invariant
            0 <= k <= labels@.len(),
            views_distinct(r@),
            forall|x: int| 0 <= x < r@.len() ==> seq_has_str(labels@, (#[trigger] r@[x])@),
            forall|i: int| 0 <= i < k ==> seq_has_str(r@, (#[trigger] labels@[i])@),
        decreases labels@.len() - k,
    {
        let ghost r_pre = r@;
        let already = vec_contains_str(&r, &labels[k]);
        if !already {
            r.push(labels[k].clone());
        }
        proof {
            if !already {
                assert(r@[r@.len() - 1]@ == labels@[k as int]@);
                assert forall|a: int, b: int| #![trigger r@[a], r@[b]]
                    0 <= a < b < r@.len() implies r@[a]@ != r@[b]@ by {
                    if b < r@.len() - 1 {
                        assert(r_pre[a]@ != r_pre[b]@);
                    } else {
                        assert(r_pre[a]@ != labels@[k as int]@);
                    }
                }
            }
            assert forall|x: int| 0 <= x < r@.len() implies seq_has_str(
                labels@,
                (#[trigger] r@[x])@,
            ) by {
                if x < r_pre.len() {
                    assert(r@[x] == r_pre[x]);
                } else {
                    assert(r@[x]@ == labels@[k as int]@);
                }
            }
            assert forall|i: int| 0 <= i < k + 1 implies seq_has_str(
                r@,
                (#[trigger] labels@[i])@,
            ) by {
                if i < k {
                    let x = choose|x: int| 0 <= x < r_pre.len() && #[trigger] r_pre[x]@ == labels@[i]@;
                    assert(r@[x]@ == labels@[i]@);
                } else {
                    if already {
                        let x = choose|x: int|
                            0 <= x < r_pre.len() && #[trigger] r_pre[x]@ == labels@[k as int]@;
                        assert(r@[x]@ == labels@[i]@);
                    } else {
                        assert(r@[r@.len() - 1]@ == labels@[i]@);
                    }
                }
            }
        }
        k += 1;
    }
    r
}

/// How many accounts of the list carry the category label.
fn count_acct_type_exec(accts: &Vec<Account>, t: &String) -> (c: usize)
    ensures
        c == count_acct_type(accts@, t@),
{
    let ghost pred = |a: Account| a.account_type@ == t@;
    let mut c: usize = 0;
    let mut k: usize = 0;
    proof {
        reveal_with_fuel(Seq::filter, 2);
        assert(accts@.take(0) =~= Seq::<Account>::empty());
    }
    while k < accts.len()
        invariant
            0 <= k <= accts@.len(),
            c <= k,
            c == accts@.take(k as int).filter(|a: Account| a.account_type@ == t@).len(),
        decreases accts@.len() - k,
    {
        let hit = accts[k].account_type.eq(t);
        proof {
            reveal_with_fuel(Seq::filter, 2);
            let tk1 = accts@.take(k + 1);
            assert(tk1.drop_last() =~= accts@.take(k as int));
            assert(tk1.last() == accts@[k as int]);
        }
        if hit {
            c += 1;
        }
        k += 1;
    }
    proof {
        assert(accts@.take(accts@.len() as int) =~= accts@);
    }
    c
}

/// How many entitlements of the list carry the category label.
fn count_ent_type_exec(ents: &Vec<Entitlement>, t: &String) -> (c: usize)
    ensures
        c == count_ent_type(ents@, t@),
{
    let mut c: usize = 0;
    let mut k: usize = 0;
    proof {
        reveal_with_fuel(Seq::filter, 2);
        assert(ents@.take(0) =~= Seq::<Entitlement>::empty());
    }
    while k < ents.len()
        invariant
            0 <= k <= ents@.len(),
            c <= k,
            c == ents@.take(k as int).filter(|e: Entitlement| e.entitlement_type@ == t@).len(),
        decreases ents@.len() - k,
    {
        let hit = ents[k].entitlement_type.eq(t);
        proof {
            reveal_with_fuel(Seq::filter, 2);
            let tk1 = ents@.take(k + 1);
            assert(tk1.drop_last() =~= ents@.take(k as int));
            assert(tk1.last() == ents@[k as int]);
        }
        if hit {
            c += 1;
        }
        k += 1;
    }
    proof {
        assert(ents@.take(ents@.len() as int) =~= ents@);
    }
    c
}

/// How many entitlements of the list fall under the organizational-unit
/// label.
fn count_ent_ou_exec(ents: &Vec<Entitlement>, t: &String) -> (c: usize)
    ensures
        c == count_ent_ou(ents@, t@),
{
    let mut c: usize = 0;
    let mut k: usize = 0;
    proof {
        reveal_with_fuel(Seq::filter, 2);
        assert(ents@.take(0) =~= Seq::<Entitlement>::empty());
    }
    while k < ents.len()
        invariant
            0 <= k <= ents@.len(),
            c <= k,
            c == ents@.take(k as int).filter(|e: Entitlement| ou_label(e) == t@).len(),
        decreases ents@.len() - k,
    {
        let hit = match &ents[k].ou {
            Some(s) => s.eq(t),
            None => {
                let lbl: String = "No OU".to_owned();
                proof {
                    assert(ou_label(ents@[k as int]) == "No OU"@);
                }
                t.eq(&lbl)
            },
        };
        proof {
            reveal_with_fuel(Seq::filter, 2);
            let tk1 = ents@.take(k + 1);
            assert(tk1.drop_last() =~= ents@.take(k as int));
            assert(tk1.last() == ents@[k as int]);
        }
        if hit {
            c += 1;
        }
        k += 1;
    }
    proof {
        assert(ents@.take(ents@.len() as int) =~= ents@);
    }
    c
}

/// Projections of the accounts carrying the category label, in order.
fn accounts_of_type(accts: &Vec<Account>, ents: &Vec<Entitlement>, t: &String) -> (r: Vec<
    AccountData,
>)
    requires
        unique_entitlement_ids(ents@),
    ensures
        acct_list_rel(ents@, accts@.filter(|a: Account| a.account_type@ == t@), r@),
{
    let mut out: Vec<AccountData> = Vec::new();
    let mut k: usize = 0;
    proof {
        reveal_with_fuel(Seq::filter, 2);
        assert(accts@.take(0) =~= Seq::<Account>::empty());
    }
    while k < accts.len()
        invariant
            0 <= k <= accts@.len(),
            unique_entitlement_ids(ents@),
            acct_list_rel(
                ents@,
                accts@.take(k as int).filter(|a: Account| a.account_type@ == t@),
                out@,
            ),
        decreases accts@.len() - k,
    {
        let hit = accts[k].account_type.eq(t);
        if hit {
            out.push(accts[k].to_data_over(ents));
        }
        proof {
            reveal_with_fuel(Seq::filter, 2);
            let tk1 = accts@.take(k + 1);
            assert(tk1.drop_last() =~= accts@.take(k as int));
            assert(tk1.last() == accts@[k as int]);
        }
        k += 1;
    }
    proof {
        assert(accts@.take(accts@.len() as int) =~= accts@);
    }
    out
}

/// Basic projections of the entitlements carrying the category label.
fn entitlements_of_type(ents: &Vec<Entitlement>, t: &String) -> (r: Vec<EntitlementData>)
    ensures
        ent_list_rel(ents@.filter(|e: Entitlement| e.entitlement_type@ == t@), r@),
{
    let mut out: Vec<EntitlementData> = Vec::new();
    let mut k: usize = 0;
    proof {
        reveal_with_fuel(Seq::filter, 2);
        assert(ents@.take(0) =~= Seq::<Entitlement>::empty());
    }
    while k < ents.len()
        invariant
            0 <= k <= ents@.len(),
            ent_list_rel(
                ents@.take(k as int).filter(|e: Entitlement| e.entitlement_type@ == t@),
                out@,
            ),
        decreases ents@.len() - k,
    {
        let hit = ents[k].entitlement_type.eq(t);
        if hit {
            out.push(ents[k].to_data_basic());
        }
        proof {
            reveal_with_fuel(Seq::filter, 2);
            let tk1 = ents@.take(k + 1);
            assert(tk1.drop_last() =~= ents@.take(k as int));
            assert(tk1.last() == ents@[k as int]);
        }
        k += 1;
    }
    proof {
        assert(ents@.take(ents@.len() as int) =~= ents@);
    }
    out
}

/// The projections of exactly the persistent leavers of a store as of one
/// day.
pub open spec fn leavers_listed(
    ents: Seq<Entitlement>,
    accts: Seq<Account>,
    idents: Seq<crate::iga::Identity>,
    today: i64,
    ds: Seq<AccountData>,
) -> bool {
    acct_list_rel(ents, accts.filter(|a: Account| is_leaver_on(idents, a, today)), ds)
}

/// Some row of the table carries the label.
pub open spec fn row_has_label<T>(rows: Seq<(String, T)>, l: Seq<char>) -> bool {
    exists|k: int| 0 <= k < rows.len() && (#[trigger] rows[k]).0@ == l
}

/// Some account carries the category label.
pub open spec fn acct_label_occurs(accts: Seq<Account>, l: Seq<char>) -> bool {
    exists|i: int| 0 <= i < accts.len() && (#[trigger] accts[i]).account_type@ == l
}

/// Some entitlement carries the category label.
pub open spec fn ent_label_occurs(ents: Seq<Entitlement>, l: Seq<char>) -> bool {
    exists|i: int| 0 <= i < ents.len() && (#[trigger] ents[i]).entitlement_type@ == l
}

/// Some entitlement falls under the organizational-unit label.
pub open spec fn ou_label_occurs(ents: Seq<Entitlement>, l: Seq<char>) -> bool {
    exists|i: int| 0 <= i < ents.len() && ou_label(#[trigger] ents[i]) == l
}

/// A correct account-category totals table for the store: labeled with the
/// store's identifier, rows keyed by pairwise-distinct occurring labels,
/// every occurring label listed, each row counting exactly the accounts that
/// carry its label.
pub open spec fn acct_totals_ok(ts: TargetSystem, r: CategoryTotals) -> bool {
    &&& r.ts_uid@ == ts.config.unique_id@
    &&& r.categories@ == "Account type"@
    &&& forall|a: int, b: int| #![trigger r.totals[a], r.totals[b]]
        0 <= a < b < r.totals@.len() ==> r.totals@[a].0@ != r.totals@[b].0@
    &&& forall|k: int|
        0 <= k < r.totals@.len() ==> (#[trigger] r.totals@[k]).1 == count_acct_type(
            ts.accounts@,
            r.totals@[k].0@,
        )
    &&& forall|k: int|
        0 <= k < r.totals@.len() ==> acct_label_occurs(ts.accounts@, (#[trigger] r.totals@[k]).0@)
    &&& forall|i: int|
        0 <= i < ts.accounts@.len() ==> row_has_label(
            r.totals@,
            (#[trigger] ts.accounts@[i]).account_type@,
        )
}

/// A correct entitlement-category totals table for the store.
pub open spec fn ent_totals_ok(ts: TargetSystem, r: CategoryTotals) -> bool {
    &&& r.ts_uid@ == ts.config.unique_id@
    &&& r.categories@ == "Entitlement type"@
    &&& forall|a: int, b: int| #![trigger r.totals[a], r.totals[b]]
        0 <= a < b < r.totals@.len() ==> r.totals@[a].0@ != r.totals@[b].0@
    &&& forall|k: int|
        0 <= k < r.totals@.len() ==> (#[trigger] r.totals@[k]).1 == count_ent_type(
            ts.entitlements@,
            r.totals@[k].0@,
        )
    &&& forall|k: int|
        0 <= k < r.totals@.len() ==> ent_label_occurs(
            ts.entitlements@,
            (#[trigger] r.totals@[k]).0@,
        )
    &&& forall|i: int|
        0 <= i < ts.entitlements@.len() ==> row_has_label(
            r.totals@,
            (#[trigger] ts.entitlements@[i]).entitlement_type@,
        )
}

/// A correct per-organizational-unit totals table for the store.
pub open spec fn ou_totals_ok(ts: TargetSystem, r: CategoryTotals) -> bool {
    &&& r.ts_uid@ == ts.config.unique_id@
    &&& r.categories@ == "Count of entitlements in OU"@
    &&& forall|a: int, b: int| #![trigger r.totals[a], r.totals[b]]
        0 <= a < b < r.totals@.len() ==> r.totals@[a].0@ != r.totals@[b].0@
    &&& forall|k: int|
        0 <= k < r.totals@.len() ==> (#[trigger] r.totals@[k]).1 == count_ent_ou(
            ts.entitlements@,
            r.totals@[k].0@,
        )
    &&& forall|k: int|
        0 <= k < r.totals@.len() ==> ou_label_occurs(
            ts.entitlements@,
            (#[trigger] r.totals@[k]).0@,
        )
    &&& forall|i: int|
        0 <= i < ts.entitlements@.len() ==> row_has_label(
            r.totals@,
            ou_label(#[trigger] ts.entitlements@[i]),
        )
}

/// Correct per-category account groups for the store.
pub open spec fn categorized_accts_ok(ts: TargetSystem, r: CategorizedAccounts) -> bool {
    &&& r.ts_uid@ == ts.config.unique_id@
    &&& forall|a: int, b: int| #![trigger r.type_lists[a], r.type_lists[b]]
        0 <= a < b < r.type_lists@.len() ==> r.type_lists@[a].0@ != r.type_lists@[b].0@
    &&& forall|k: int|
        0 <= k < r.type_lists@.len() ==> acct_list_rel(
            ts.entitlements@,
            ts.accounts@.filter(
                |a: Account| a.account_type@ == (#[trigger] r.type_lists@[k]).0@,
            ),
            r.type_lists@[k].1@,
        )
    &&& forall|i: int|
        0 <= i < ts.accounts@.len() ==> row_has_label(
            r.type_lists@,
            (#[trigger] ts.accounts@[i]).account_type@,
        )
}

/// Correct per-category entitlement groups for the store.
pub open spec fn categorized_ents_ok(ts: TargetSystem, r: CategorizedEntitlements) -> bool {
    &&& r.ts_uid@ == ts.config.unique_id@
    &&& forall|a: int, b: int| #![trigger r.type_lists[a], r.type_lists[b]]
        0 <= a < b < r.type_lists@.len() ==> r.type_lists@[a].0@ != r.type_lists@[b].0@
    &&& forall|k: int|
        0 <= k < r.type_lists@.len() ==> ent_list_rel(
            ts.entitlements@.filter(
                |e: Entitlement| e.entitlement_type@ == (#[trigger] r.type_lists@[k]).0@,
            ),
            r.type_lists@[k].1@,
        )
    &&& forall|i: int|
        0 <= i < ts.entitlements@.len() ==> row_has_label(
            r.type_lists@,
            (#[trigger] ts.entitlements@[i]).entitlement_type@,
        )
}

impl TargetSystem {
    /// Account counts by category label: one row per occurring label, each
    /// row counting exactly the accounts that carry it.
    pub fn get_account_category_totals(&self) -> (r: CategoryTotals)
        ensures
            acct_totals_ok(*self, r),
    {
        let mut labs: Vec<String> = Vec::new();
        let mut i: usize = 0;
        while i < self.accounts.len()
            invariant
                0 <= i <= self.accounts@.len(),
                labs@.len() == i,
                forall|m: int|
                    0 <= m < i ==> (#[trigger] labs@[m])@ == self.accounts@[m].account_type@,
            decreases self.accounts@.len() - i,
        {
            labs.push(self.accounts[i].account_type.clone());
            i += 1;
        }
        let keys = distinct_labels_of(&labs);
        let mut totals: Vec<(String, usize)> = Vec::new();
        let mut k: usize = 0;
        while k < keys.len()
            invariant
                0 <= k <= keys@.len(),
                totals@.len() == k,
                forall|m: int| 0 <= m < k ==> (#[trigger] totals@[m]).0 == keys@[m],
                forall|m: int|
                    0 <= m < k ==> (#[trigger] totals@[m]).1 == count_acct_type(
                        self.accounts@,
                        keys@[m]@,
                    ),
            decreases keys@.len() - k,
        {
            let c = count_acct_type_exec(&self.accounts, &keys[k]);
            totals.push((keys[k].clone(), c));
            k += 1;
        }
        let r = CategoryTotals {
            ts_uid: self.config.unique_id.clone(),
            categories: "Account type".to_owned(),
            totals,
        };
        proof {
            assert forall|x: int| 0 <= x < r.totals@.len() implies acct_label_occurs(
                self.accounts@,
                (#[trigger] r.totals@[x]).0@,
            ) by {
                assert(seq_has_str(labs@, keys@[x]@));
                let w = choose|w: int| 0 <= w < labs@.len() && #[trigger] labs@[w]@ == keys@[x]@;
                assert(self.accounts@[w].account_type@ == r.totals@[x].0@);
            }
            assert forall|i2: int| 0 <= i2 < self.accounts@.len() implies row_has_label(
                r.totals@,
                (#[trigger] self.accounts@[i2]).account_type@,
            ) by {
                assert(labs@[i2]@ == self.accounts@[i2].account_type@);
                assert(seq_has_str(keys@, labs@[i2]@));
                let w = choose|w: int| 0 <= w < keys@.len() && #[trigger] keys@[w]@ == labs@[i2]@;
                assert(r.totals@[w].0@ == self.accounts@[i2].account_type@);
            }
            assert(acct_totals_ok(*self, r));
        }
        r
    }

    /// Entitlement counts by category label.
    pub fn get_entitlement_category_totals(&self) -> (r: CategoryTotals)
        ensures
            ent_totals_ok(*self, r),
    {
        let mut labs: Vec<String> = Vec::new();
        let mut i: usize = 0;
        while i < self.entitlements.len()
            invariant
                0 <= i <= self.entitlements@.len(),
                labs@.len() == i,
                forall|m: int|
                    0 <= m < i ==> (#[trigger] labs@[m])@
                        == self.entitlements@[m].entitlement_type@,
            decreases self.entitlements@.len() - i,
        {
            labs.push(self.entitlements[i].entitlement_type.clone());
            i += 1;
        }
        let keys = distinct_labels_of(&labs);
        let mut totals: Vec<(String, usize)> = Vec::new();
        let mut k: usize = 0;
        while k < keys.len()
            invariant
                0 <= k <= keys@.len(),
                totals@.len() == k,
                forall|m: int| 0 <= m < k ==> (#[trigger] totals@[m]).0 == keys@[m],
                forall|m: int|
                    0 <= m < k ==> (#[trigger] totals@[m]).1 == count_ent_type(
                        self.entitlements@,
                        keys@[m]@,
                    ),
            decreases keys@.len() - k,
        {
            let c = count_ent_type_exec(&self.entitlements, &keys[k]);
            totals.push((keys[k].clone(), c));
            k += 1;
        }
        let r = CategoryTotals {
            ts_uid: self.config.unique_id.clone(),
            categories: "Entitlement type".to_owned(),
            totals,
        };
        proof {
            assert forall|x: int| 0 <= x < r.totals@.len() implies ent_label_occurs(
                self.entitlements@,
                (#[trigger] r.totals@[x]).0@,
            ) by {
                assert(seq_has_str(labs@, keys@[x]@));
                let w = choose|w: int| 0 <= w < labs@.len() && #[trigger] labs@[w]@ == keys@[x]@;
                assert(self.entitlements@[w].entitlement_type@ == r.totals@[x].0@);
            }
            assert forall|i2: int| 0 <= i2 < self.entitlements@.len() implies row_has_label(
                r.totals@,
                (#[trigger] self.entitlements@[i2]).entitlement_type@,
            ) by {
                assert(labs@[i2]@ == self.entitlements@[i2].entitlement_type@);
                assert(seq_has_str(keys@, labs@[i2]@));
                let w = choose|w: int| 0 <= w < keys@.len() && #[trigger] keys@[w]@ == labs@[i2]@;
                assert(r.totals@[w].0@ == self.entitlements@[i2].entitlement_type@);
            }
            assert(ent_totals_ok(*self, r));
        }
        r
    }

    /// Entitlement counts by organizational-unit label; an entitlement
    /// without one counts under a fixed fallback label.
    pub fn get_entitlement_count_per_ou(&self) -> (r: CategoryTotals)
        ensures
            ou_totals_ok(*self, r),
    {
        let mut labs: Vec<String> = Vec::new();
        let mut i: usize = 0;
        while i < self.entitlements.len()
            invariant
                0 <= i <= self.entitlements@.len(),
                labs@.len() == i,
                forall|m: int|
                    0 <= m < i ==> (#[trigger] labs@[m])@ == ou_label(self.entitlements@[m]),
            decreases self.entitlements@.len() - i,
        {
            let lab: String = match &self.entitlements[i].ou {
                Some(s) => s.clone(),
                None => "No OU".to_owned(),
            };
            labs.push(lab);
            i += 1;
        }
        let keys = distinct_labels_of(&labs);
        let mut totals: Vec<(String, usize)> = Vec::new();
        let mut k: usize = 0;
        while k < keys.len()
            invariant
                0 <= k <= keys@.len(),
                totals@.len() == k,
                forall|m: int| 0 <= m < k ==> (#[trigger] totals@[m]).0 == keys@[m],
                forall|m: int|
                    0 <= m < k ==> (#[trigger] totals@[m]).1 == count_ent_ou(
                        self.entitlements@,
                        keys@[m]@,
                    ),
            decreases keys@.len() - k,
        {
            let c = count_ent_ou_exec(&self.entitlements, &keys[k]);
            totals.push((keys[k].clone(), c));
            k += 1;
        }
        let r = CategoryTotals {
            ts_uid: self.config.unique_id.clone(),
            categories: "Count of entitlements in OU".to_owned(),
            totals,
        };
        proof {
            assert forall|x: int| 0 <= x < r.totals@.len() implies ou_label_occurs(
                self.entitlements@,
                (#[trigger] r.totals@[x]).0@,
            ) by {
                assert(seq_has_str(labs@, keys@[x]@));
                let w = choose|w: int| 0 <= w < labs@.len() && #[trigger] labs@[w]@ == keys@[x]@;
                assert(ou_label(self.entitlements@[w]) == r.totals@[x].0@);
            }
            assert forall|i2: int| 0 <= i2 < self.entitlements@.len() implies row_has_label(
                r.totals@,
                ou_label(#[trigger] self.entitlements@[i2]),
            ) by {
                assert(labs@[i2]@ == ou_label(self.entitlements@[i2]));
                assert(seq_has_str(keys@, labs@[i2]@));
                let w = choose|w: int| 0 <= w < keys@.len() && #[trigger] keys@[w]@ == labs@[i2]@;
                assert(r.totals@[w].0@ == ou_label(self.entitlements@[i2]));
            }
            assert(ou_totals_ok(*self, r));
        }
        r
    }

    /// Account projections grouped by category label: one group per
    /// occurring label, holding exactly the accounts that carry it.
    pub fn get_categorized_accounts(&self) -> (r: CategorizedAccounts)
        requires
            self.wf(),
        ensures
            categorized_accts_ok(*self, r),
    {
        let mut labs: Vec<String> = Vec::new();
        let mut i: usize = 0;
        while i < self.accounts.len()
            invariant
                0 <= i <= self.accounts@.len(),
                labs@.len() == i,
                forall|m: int|
                    0 <= m < i ==> (#[trigger] labs@[m])@ == self.accounts@[m].account_type@,
            decreases self.accounts@.len() - i,
        {
            labs.push(self.accounts[i].account_type.clone());
            i += 1;
        }
        let keys = distinct_labels_of(&labs);
        let mut lists: Vec<(String, Vec<AccountData>)> = Vec::new();
        let mut k: usize = 0;
        while k < keys.len()
            invariant
                0 <= k <= keys@.len(),
                self.wf(),
                lists@.len() == k,
                forall|m: int| 0 <= m < k ==> (#[trigger] lists@[m]).0 == keys@[m],
                forall|m: int|
                    0 <= m < k ==> acct_list_rel(
                        self.entitlements@,
                        self.accounts@.filter(
                            |a: Account| a.account_type@ == (#[trigger] lists@[m]).0@,
                        ),
                        lists@[m].1@,
                    ),
            decreases keys@.len() - k,
        {
            let l = accounts_of_type(&self.accounts, &self.entitlements, &keys[k]);
            lists.push((keys[k].clone(), l));
            k += 1;
        }
        let r = CategorizedAccounts { ts_uid: self.config.unique_id.clone(), type_lists: lists };
        proof {
            assert forall|i2: int| 0 <= i2 < self.accounts@.len() implies row_has_label(
                r.type_lists@,
                (#[trigger] self.accounts@[i2]).account_type@,
            ) by {
                assert(labs@[i2]@ == self.accounts@[i2].account_type@);
                assert(seq_has_str(keys@, labs@[i2]@));
                let w = choose|w: int| 0 <= w < keys@.len() && #[trigger] keys@[w]@ == labs@[i2]@;
                assert(r.type_lists@[w].0@ == self.accounts@[i2].account_type@);
            }
            assert(categorized_accts_ok(*self, r));
        }
        r
    }

    /// Entitlement projections grouped by category label.
    pub fn get_categorized_entitlements(&self) -> (r: CategorizedEntitlements)
        ensures
            categorized_ents_ok(*self, r),
    {
        let mut labs: Vec<String> = Vec::new();
        let mut i: usize = 0;
        while i < self.entitlements.len()
            invariant
                0 <= i <= self.entitlements@.len(),
                labs@.len() == i,
                forall|m: int|
                    0 <= m < i ==> (#[trigger] labs@[m])@
                        == self.entitlements@[m].entitlement_type@,
            decreases self.entitlements@.len() - i,
        {
            labs.push(self.entitlements[i].entitlement_type.clone());
            i += 1;
        }
        let keys = distinct_labels_of(&labs);
        let mut lists: Vec<(String, Vec<EntitlementData>)> = Vec::new();
        let mut k: usize = 0;
        while k < keys.len()
            invariant
                0 <= k <= keys@.len(),
                lists@.len() == k,
                forall|m: int| 0 <= m < k ==> (#[trigger] lists@[m]).0 == keys@[m],
                forall|m: int|
                    0 <= m < k ==> ent_list_rel(
                        self.entitlements@.filter(
                            |e: Entitlement| e.entitlement_type@ == (#[trigger] lists@[m]).0@,
                        ),
                        lists@[m].1@,
                    ),
            decreases keys@.len() - k,
        {
            let l = entitlements_of_type(&self.entitlements, &keys[k]);
            lists.push((keys[k].clone(), l));
            k += 1;
        }
        let r = CategorizedEntitlements {
            ts_uid: self.config.unique_id.clone(),
            type_lists: lists,
        };
        proof {
            assert forall|i2: int| 0 <= i2 < self.entitlements@.len() implies row_has_label(
                r.type_lists@,
                (#[trigger] self.entitlements@[i2]).entitlement_type@,
            ) by {
                assert(labs@[i2]@ == self.entitlements@[i2].entitlement_type@);
                assert(seq_has_str(keys@, labs@[i2]@));
                let w = choose|w: int| 0 <= w < keys@.len() && #[trigger] keys@[w]@ == labs@[i2]@;
                assert(r.type_lists@[w].0@ == self.entitlements@[i2].entitlement_type@);
            }
            assert(categorized_ents_ok(*self, r));
        }
        r
    }

    /// Projections of exactly the orphan accounts: enabled, with no identity
    /// owner.
    pub fn get_orphan_accounts(&self) -> (r: Vec<AccountData>)
        requires
            self.wf(),
        ensures
            acct_list_rel(
                self.entitlements@,
                self.accounts@.filter(|a: Account| is_orphan_spec(a)),
                r@,
            ),
    {
        let mut out: Vec<AccountData> = Vec::new();
        let mut k: usize = 0;
        proof {
            reveal_with_fuel(Seq::filter, 2);
            assert(self.accounts@.take(0) =~= Seq::<Account>::empty());
        }
        while k < self.accounts.len()
            invariant
                0 <= k <= self.accounts@.len(),
                self.wf(),
                acct_list_rel(
                    self.entitlements@,
                    self.accounts@.take(k as int).filter(|a: Account| is_orphan_spec(a)),
                    out@,
                ),
            decreases self.accounts@.len() - k,
        {
            if self.accounts[k].is_orphan() {
                out.push(self.accounts[k].to_data_over(&self.entitlements));
            }
            proof {
                reveal_with_fuel(Seq::filter, 2);
                let tk1 = self.accounts@.take(k + 1);
                assert(tk1.drop_last() =~= self.accounts@.take(k as int));
                assert(tk1.last() == self.accounts@[k as int]);
            }
            k += 1;
        }
        proof {
            assert(self.accounts@.take(self.accounts@.len() as int) =~= self.accounts@);
        }
        out
    }

    /// Projections of exactly the persistent-leaver accounts as of the given
    /// day.
    pub fn get_persistent_leaver_accounts_on(
        &self,
        idents: &Vec<crate::iga::Identity>,
        today: i64,
    ) -> (r: Vec<AccountData>)
        requires
            self.wf(),
            crate::iga::unique_identity_ids(idents@),
        ensures
            acct_list_rel(
                self.entitlements@,
                self.accounts@.filter(|a: Account| is_leaver_on(idents@, a, today)),
                r@,
            ),
    {
        let mut out: Vec<AccountData> = Vec::new();
        let mut k: usize = 0;
        proof {
            reveal_with_fuel(Seq::filter, 2);
            assert(self.accounts@.take(0) =~= Seq::<Account>::empty());
        }
        while k < self.accounts.len()
            invariant
                0 <= k <= self.accounts@.len(),
                self.wf(),
                crate::iga::unique_identity_ids(idents@),
                acct_list_rel(
                    self.entitlements@,
                    self.accounts@.take(k as int).filter(
                        |a: Account| is_leaver_on(idents@, a, today),
                    ),
                    out@,
                ),
            decreases self.accounts@.len() - k,
        {
            if self.accounts[k].is_persistent_leaver_on(idents, today) {
                out.push(self.accounts[k].to_data_over(&self.entitlements));
            }
            proof {
                reveal_with_fuel(Seq::filter, 2);
                let tk1 = self.accounts@.take(k + 1);
                assert(tk1.drop_last() =~= self.accounts@.take(k as int));
                assert(tk1.last() == self.accounts@[k as int]);
            }
            k += 1;
        }
        proof {
            assert(self.accounts@.take(self.accounts@.len() as int) =~= self.accounts@);
        }
        out
    }

    /// Projections of the persistent-leaver accounts as of the day the call
    /// is made, read from the clock.
    pub fn get_persistent_leaver_accounts(&self, idents: &Vec<crate::iga::Identity>) -> (r: Vec<
        AccountData,
    >)
        requires
            self.wf(),
            crate::iga::unique_identity_ids(idents@),
        ensures
            exists|today: i64| #[trigger]
                leavers_listed(self.entitlements@, self.accounts@, idents@, today, r@),
    {
        let today = current_day();
        let r = self.get_persistent_leaver_accounts_on(idents, today);
        proof {
            assert(leavers_listed(self.entitlements@, self.accounts@, idents@, today, r@));
        }
        r
    }
}

/// No two history records carry the same link key.
pub open spec fn unique_hist_keys(recs: Seq<(String, HistoryRecord)>) -> bool {
    forall|i: int, j: int| #![trigger recs[i], recs[j]]
        0 <= i < j < recs.len() ==> recs[i].0@ != recs[j].0@
}

/// Some history record is keyed by `uid`.
pub open spec fn has_hist_key(recs: Seq<(String, HistoryRecord)>, uid: Seq<char>) -> bool {
    exists|i: int| 0 <= i < recs.len() && (#[trigger] recs[i]).0@ == uid
}

/// The history record keyed by `uid`.
pub open spec fn hist_at(recs: Seq<(String, HistoryRecord)>, uid: Seq<char>) -> HistoryRecord
    recommends
        has_hist_key(recs, uid),
{
    recs[choose|i: int| 0 <= i < recs.len() && (#[trigger] recs[i]).0@ == uid].1
}

/// The two accounts agree on everything but the history list.
pub open spec fn same_except_history_acct(a: Account, b: Account) -> bool {
    &&& b.unique_id == a.unique_id
    &&& b.display_name == a.display_name
    &&& b.description == a.description
    &&& b.created == a.created
    &&& b.last_logon == a.last_logon
    &&& b.password_last_set == a.password_last_set
    &&& b.expiration_date == a.expiration_date
    &&& b.enabled == a.enabled
    &&& b.deleted == a.deleted
    &&& b.locked == a.locked
    &&& b.memberof == a.memberof
    &&& b.memberof_indirect == a.memberof_indirect
    &&& b.ou == a.ou
    &&& b.other_attributes == a.other_attributes
    &&& b.account_type == a.account_type
    &&& b.syncs_from_ts == a.syncs_from_ts
    &&& b.syncs_from_account == a.syncs_from_account
    &&& b.syncs_to_ts == a.syncs_to_ts
    &&& b.syncs_to_account == a.syncs_to_account
    &&& b.identity_owners == a.identity_owners
}

/// The two entitlements agree on everything but the history list.
pub open spec fn same_except_history_ent(a: Entitlement, b: Entitlement) -> bool {
    &&& b.unique_id == a.unique_id
    &&& b.display_name == a.display_name
    &&& b.description == a.description
    &&& b.created == a.created
    &&& b.memberof == a.memberof
    &&& b.all_indirect_memberof == a.all_indirect_memberof
    &&& b.members == a.members
    &&& b.ou == a.ou
    &&& b.other_attributes == a.other_attributes
    &&& b.entitlement_type == a.entitlement_type
    &&& b.syncs_from_ts == a.syncs_from_ts
    &&& b.syncs_from_entitlement == a.syncs_from_entitlement
    &&& b.syncs_to_ts == a.syncs_to_ts
    &&& b.syncs_to_entitlement == a.syncs_to_entitlement
    &&& b.identity_owners == a.identity_owners
    &&& b.ts_owners == a.ts_owners
}

/// `b` is `a` with the record keyed by its identifier appended to its
/// history, when one is; `a` unchanged otherwise.
pub open spec fn history_appended_acct(
    recs: Seq<(String, HistoryRecord)>,
    a: Account,
    b: Account,
) -> bool {
    &&& same_except_history_acct(a, b)
    &&& if has_hist_key(recs, a.unique_id@) {
        b.history@ == a.history@.push(hist_at(recs, a.unique_id@))
    } else {
        b.history == a.history
    }
}

/// `b` is `a` with the record keyed by its identifier appended to its
/// history, when one is; `a` unchanged otherwise.
pub open spec fn history_appended_ent(
    recs: Seq<(String, HistoryRecord)>,
    a: Entitlement,
    b: Entitlement,
) -> bool {
    &&& same_except_history_ent(a, b)
    &&& if has_hist_key(recs, a.unique_id@) {
        b.history@ == a.history@.push(hist_at(recs, a.unique_id@))
    } else {
        b.history == a.history
    }
}

/// First history record keyed by the identifier.
fn find_hist(recs: &Vec<(String, HistoryRecord)>, uid: &String) -> (r: Option<usize>)
    ensures
        match r {
            Some(j) => j < recs@.len() && recs@[j as int].0@ == uid@,
            None => !has_hist_key(recs@, uid@),
        },
{
    let mut j: usize = 0;
    while j < recs.len()
        invariant
            0 <= j <= recs@.len(),
            forall|m: int| 0 <= m < j ==> (#[trigger] recs@[m]).0@ != uid@,
        decreases recs@.len() - j,
    {
        if recs[j].0.eq(uid) {
            return Some(j);
        }
        j += 1;
    }
    None
}

impl TargetSystem {
    /// Appends, to each account keyed in `records`, its history event. A
    /// record keyed by no stored account is dropped; everything else about
    /// the store is kept.
    pub fn add_account_history(&mut self, records: Vec<(String, HistoryRecord)>)
        requires
            unique_hist_keys(records@),
        ensures
            final(self).config == old(self).config,
            final(self).entitlements == old(self).entitlements,
            final(self).accounts@.len() == old(self).accounts@.len(),
            forall|i: int|
                0 <= i < old(self).accounts@.len() ==> history_appended_acct(
                    records@,
                    old(self).accounts@[i],
                    #[trigger] final(self).accounts@[i],
                ),
    {
        let mut work: Vec<Account> = Vec::new();
        core::mem::swap(&mut work, &mut self.accounts);
        let ghost orig = work@;
        let mut out: Vec<Account> = Vec::new();
        while work.len() > 0
            invariant
                out@.len() + work@.len() == orig.len(),
                work@ =~= orig.skip(out@.len() as int),
                unique_hist_keys(records@),
                forall|i: int|
                    0 <= i < out@.len() ==> history_appended_acct(
                        records@,
                        orig[i],
                        #[trigger] out@[i],
                    ),
            decreases work@.len(),
        {
            let ghost n = out@.len() as int;
            let mut a = work.remove(0);
            let found = find_hist(&records, &a.unique_id);
            match found {
                Some(j) => {
                    proof {
                        let c = choose|c: int|
                            0 <= c < records@.len() && (#[trigger] records@[c]).0@
                                == orig[n].unique_id@;
                        assert(c == j as int);
                    }
                    a.history.push(records[j].1.duplicate());
                },
                None => {},
            }
            out.push(a);
            proof {
                assert(work@ =~= orig.skip(n + 1));
            }
        }
        self.accounts = out;
    }

    /// Appends, to each entitlement keyed in `records`, its history event.
    pub fn add_entitlement_history(&mut self, records: Vec<(String, HistoryRecord)>)
        requires
            unique_hist_keys(records@),
        ensures
            final(self).config == old(self).config,
            final(self).accounts == old(self).accounts,
            final(self).entitlements@.len() == old(self).entitlements@.len(),
            forall|i: int|
                0 <= i < old(self).entitlements@.len() ==> history_appended_ent(
                    records@,
                    old(self).entitlements@[i],
                    #[trigger] final(self).entitlements@[i],
                ),
    {
        let mut work: Vec<Entitlement> = Vec::new();
        core::mem::swap(&mut work, &mut self.entitlements);
        let ghost orig = work@;
        let mut out: Vec<Entitlement> = Vec::new();
        while work.len() > 0
            invariant
                out@.len() + work@.len() == orig.len(),
                work@ =~= orig.skip(out@.len() as int),
                unique_hist_keys(records@),
                forall|i: int|
                    0 <= i < out@.len() ==> history_appended_ent(
                        records@,
                        orig[i],
                        #[trigger] out@[i],
                    ),
            decreases work@.len(),
        {
            let ghost n = out@.len() as int;
            let mut e = work.remove(0);
            let found = find_hist(&records, &e.unique_id);
            match found {
                Some(j) => {
                    proof {
                        let c = choose|c: int|
                            0 <= c < records@.len() && (#[trigger] records@[c]).0@
                                == orig[n].unique_id@;
                        assert(c == j as int);
                    }
                    e.history.push(records[j].1.duplicate());
                },
                None => {},
            }
            out.push(e);
            proof {
                assert(work@ =~= orig.skip(n + 1));
            }
        }
        self.entitlements = out;
    }
}

} // verus!
