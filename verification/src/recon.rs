//! Cross-system reconciliation.
//!
//! Two target systems can be configured as a synchronization pair. Records of
//! the from-side carry a synchronization counterpart identifier; each
//! from-record claims at most the one to-record with that identifier, and two
//! from-records never claim the same to-record — with duplicate counterpart
//! identifiers, the earliest from-record wins. Membership edges of a matched
//! to-record — direct and indirect for accounts, member-account and
//! member-entitlement for entitlements — are flagged when some from-side
//! edge of the same kind names them, so reporting can tell
//! synchronization-driven access from access assigned only on the to-side. To-records never claimed are kept as the unmatched remainder:
//! an absent match is an expected outcome, never an error.

use vstd::prelude::*;
use crate::dtos::{AccountData, EntitlementData};

verus! {

/// One from-account with its matched counterpart, when one was claimed.
pub struct SyncedAccounts {
    pub from: AccountData,
    pub to: Option<AccountData>,
}

/// Some account projection of the collection carries `uid`.
pub open spec fn has_data_uid(s: Seq<AccountData>, uid: Seq<char>) -> bool {
    exists|i: int| 0 <= i < s.len() && (#[trigger] s[i]).uid@ == uid
}

/// No two account projections of the collection carry the same identifier.
pub open spec fn unique_data_uids(s: Seq<AccountData>) -> bool {
    forall|i: int, j: int| #![trigger s[i], s[j]] 0 <= i < j < s.len() ==> s[i].uid@ != s[j].uid@
}

/// The account projection of the collection carrying `uid`.
pub open spec fn data_at(s: Seq<AccountData>, uid: Seq<char>) -> AccountData
    recommends
        has_data_uid(s, uid),
{
    s[choose|i: int| 0 <= i < s.len() && (#[trigger] s[i]).uid@ == uid]
}

/// `x` is one of the collection's records.
pub open spec fn in_data_seq(s: Seq<AccountData>, x: AccountData) -> bool {
    exists|w: int| 0 <= w < s.len() && #[trigger] s[w] == x
}

/// Some edge of the from-side list names `uid` as its counterpart.
pub open spec fn from_has_counterpart(edges: Seq<EntitlementData>, uid: Seq<char>) -> bool {
    exists|k: int| 0 <= k < edges.len() && (#[trigger] edges[k]).syncs_to_entitlement@ == uid
}

/// The edge, flagged as synchronization-driven when `hit` holds; a flag once
/// set is never cleared.
pub open spec fn flag_edge(e: EntitlementData, hit: bool) -> EntitlementData {
    EntitlementData { macheo: e.macheo || hit, ..e }
}

/// `r` is `t` with each direct and indirect membership edge flagged exactly
/// when some from-side edge of the same kind names it; everything else kept.
pub open spec fn marked_account(t: AccountData, f: AccountData, r: AccountData) -> bool {
    &&& r.uid == t.uid
    &&& r.display_name == t.display_name
    &&& r.description == t.description
    &&& r.account_type == t.account_type
    &&& r.ou == t.ou
    &&& r.enabled == t.enabled
    &&& r.syncs_to_ts == t.syncs_to_ts
    &&& r.syncs_to_account == t.syncs_to_account
    &&& r.identity_owners == t.identity_owners
    &&& r.macheo == t.macheo
    &&& r.history == t.history
    &&& r.entitlements@.len() == t.entitlements@.len()
    &&& forall|k: int|
        0 <= k < t.entitlements@.len() ==> #[trigger] r.entitlements@[k] == flag_edge(
            t.entitlements@[k],
            from_has_counterpart(f.entitlements@, t.entitlements@[k].uid@),
        )
    &&& r.indirect_entitlements@.len() == t.indirect_entitlements@.len()
    &&& forall|k: int|
        0 <= k < t.indirect_entitlements@.len() ==> #[trigger] r.indirect_entitlements@[k]
            == flag_edge(
            t.indirect_entitlements@[k],
            from_has_counterpart(f.indirect_entitlements@, t.indirect_entitlements@[k].uid@),
        )
}

/// Some from-record among the first `n` names `uid` as its counterpart.
pub open spec fn claimed_upto(from: Seq<AccountData>, n: int, uid: Seq<char>) -> bool {
    exists|i: int| 0 <= i < n && (#[trigger] from[i]).syncs_to_account@ == uid
}

/// Some from-record names `uid` as its counterpart.
pub open spec fn claimed(from: Seq<AccountData>, uid: Seq<char>) -> bool {
    claimed_upto(from, from.len() as int, uid)
}

/// No earlier from-record names the counterpart the one at `i` names.
pub open spec fn first_claim(from: Seq<AccountData>, i: int) -> bool {
    forall|i2: int|
        0 <= i2 < i ==> (#[trigger] from[i2]).syncs_to_account@ != from[i].syncs_to_account@
}

/// How many pairs of the sequence carry a matched counterpart.
pub open spec fn count_matched(s: Seq<SyncedAccounts>) -> nat
    decreases s.len(),
{
    if s.len() == 0 {
        0
    } else {
        count_matched(s.drop_last()) + if s.last().to is Some {
            1nat
        } else {
            0nat
        }
    }
}

/// Exactly the relation the account pairing establishes. Every from-record is
/// kept in order; it carries a matched to-record exactly when the to-side
/// holds its counterpart identifier and no earlier from-record named the same
/// one; the match is the to-record with that identifier, its edges flagged;
/// the remainder holds exactly the never-claimed to-records; and matches and
/// remainder together account for every to-record.
pub open spec fn accounts_paired(
    from: Seq<AccountData>,
    to: Seq<AccountData>,
    out: Seq<SyncedAccounts>,
    rem: Seq<AccountData>,
) -> bool {
    &&& out.len() == from.len()
    &&& forall|i: int| 0 <= i < from.len() ==> (#[trigger] out[i]).from == from[i]
    &&& forall|i: int|
        0 <= i < from.len() ==> (((#[trigger] out[i]).to) is Some <==> has_data_uid(
            to,
            from[i].syncs_to_account@,
        ) && first_claim(from, i))
    &&& forall|i: int|
        0 <= i < from.len() ==> match (#[trigger] out[i]).to {
            Some(t) => marked_account(data_at(to, from[i].syncs_to_account@), from[i], t),
            None => true,
        }
    &&& count_matched(out) + rem.len() == to.len()
    &&& unique_data_uids(rem)
    &&& forall|j: int|
        0 <= j < rem.len() ==> in_data_seq(to, #[trigger] rem[j]) && !claimed(from, rem[j].uid@)
    &&& forall|j: int|
        0 <= j < to.len() ==> claimed(from, (#[trigger] to[j]).uid@) || has_data_uid(
            rem,
            to[j].uid@,
        )
}

/// Whether some edge of the list names `uid` as its counterpart.
fn any_counterpart(edges: &Vec<EntitlementData>, uid: &String) -> (b: bool)
    ensures
        b == from_has_counterpart(edges@, uid@),
{
    let mut k: usize = 0;
    while k < edges.len()
        invariant
            0 <= k <= edges@.len(),
            forall|m: int| 0 <= m < k ==> (#[trigger] edges@[m]).syncs_to_entitlement@ != uid@,
        decreases edges@.len() - k,
    {
        if edges[k].syncs_to_entitlement.eq(uid) {
            return true;
        }
        k += 1;
    }
    false
}

/// Flags each edge of the list that some from-side edge names.
fn flag_edges(list: Vec<EntitlementData>, f_edges: &Vec<EntitlementData>) -> (r: Vec<
    EntitlementData,
>)
    ensures
        r@.len() == list@.len(),
        forall|k: int|
            0 <= k < list@.len() ==> #[trigger] r@[k] == flag_edge(
                list@[k],
                from_has_counterpart(f_edges@, list@[k].uid@),
            ),
{
    let ghost orig = list@;
    let mut rest = list;
    let mut out: Vec<EntitlementData> = Vec::new();
    while rest.len() > 0
        invariant
            out@.len() + rest@.len() == orig.len(),
            rest@ =~= orig.skip(out@.len() as int),
            forall|k: int|
                0 <= k < out@.len() ==> #[trigger] out@[k] == flag_edge(
                    orig[k],
                    from_has_counterpart(f_edges@, orig[k].uid@),
                ),
        decreases rest@.len(),
    {
        let ghost n = out@.len() as int;
        let mut e = rest.remove(0);
        let hit = any_counterpart(f_edges, &e.uid);
        e.macheo = e.macheo || hit;
        out.push(e);
        proof {
            assert(rest@ =~= orig.skip(n + 1));
        }
    }
    out
}

/// The matched to-record, its direct and indirect edges flagged against the
/// from-record's edges.
fn mark_account_edges(t: AccountData, f: &AccountData) -> (r: AccountData)
    ensures
        marked_account(t, *f, r),
{
    let AccountData {
        uid,
        display_name,
        description,
        entitlements,
        indirect_entitlements,
        account_type,
        ou,
        enabled,
        syncs_to_ts,
        syncs_to_account,
        identity_owners,
        macheo,
        history,
    } = t;
    let entitlements = flag_edges(entitlements, &f.entitlements);
    let indirect_entitlements = flag_edges(indirect_entitlements, &f.indirect_entitlements);
    AccountData {
        uid,
        display_name,
        description,
        entitlements,
        indirect_entitlements,
        account_type,
        ou,
        enabled,
        syncs_to_ts,
        syncs_to_account,
        identity_owners,
        macheo,
        history,
    }
}

/// Pairs each from-record with the to-record its counterpart identifier
/// names: the match is claimed and removed, so two from-records never claim
/// one to-record; with duplicate counterpart identifiers the earliest
/// from-record wins; what is never claimed comes back as the remainder.
pub fn pair_accounts(from_list: Vec<AccountData>, to_list: Vec<AccountData>) -> (res: (
    Vec<SyncedAccounts>,
    Vec<AccountData>,
))
    requires
        unique_data_uids(to_list@),
    ensures
        accounts_paired(from_list@, to_list@, res.0@, res.1@),
{
    let ghost fromg = from_list@;
    let ghost tog = to_list@;
    let mut to_rem = to_list;
    let mut rest = from_list;
    let mut out: Vec<SyncedAccounts> = Vec::new();
    proof {
        assert forall|j: int| 0 <= j < to_rem@.len() implies in_data_seq(
            tog,
            #[trigger] to_rem@[j],
        ) && !claimed_upto(fromg, out@.len() as int, to_rem@[j].uid@) by {
            assert(tog[j] == to_rem@[j]);
        }
    }
    while rest.len() > 0
        invariant
            out@.len() + rest@.len() == fromg.len(),
            rest@ =~= fromg.skip(out@.len() as int),
            unique_data_uids(tog),
            unique_data_uids(to_rem@),
            forall|j: int|
                0 <= j < to_rem@.len() ==> in_data_seq(tog, #[trigger] to_rem@[j]) && !claimed_upto(
                    fromg,
                    out@.len() as int,
                    to_rem@[j].uid@,
                ),
            forall|j: int|
                0 <= j < tog.len() ==> claimed_upto(
                    fromg,
                    out@.len() as int,
                    (#[trigger] tog[j]).uid@,
                ) || has_data_uid(to_rem@, tog[j].uid@),
            count_matched(out@) + to_rem@.len() == tog.len(),
            forall|i: int| 0 <= i < out@.len() ==> (#[trigger] out@[i]).from == fromg[i],
            forall|i: int|
                0 <= i < out@.len() ==> (((#[trigger] out@[i]).to) is Some <==> has_data_uid(
                    tog,
                    fromg[i].syncs_to_account@,
                ) && first_claim(fromg, i)),
            forall|i: int|
                0 <= i < out@.len() ==> match (#[trigger] out@[i]).to {
                    Some(t) => marked_account(
                        data_at(tog, fromg[i].syncs_to_account@),
                        fromg[i],
                        t,
                    ),
                    None => true,
                },
        decreases rest@.len(),
    {
        let ghost n = out@.len() as int;
        let ghost rem_pre = to_rem@;
        let ghost out_pre = out@;
        let f = rest.remove(0);
        proof {
            assert(f == fromg[n]);
            assert(rest@ =~= fromg.skip(n + 1));
        }
        let ghost key = fromg[n].syncs_to_account@;
        // Search the remaining to-records for the counterpart identifier.
        let mut found: Option<usize> = None;
        let mut j: usize = 0;
        while j < to_rem.len() && found.is_none()
            invariant
                0 <= j <= to_rem@.len(),
                found is None ==> forall|m: int|
                    0 <= m < j ==> (#[trigger] to_rem@[m]).uid@ != f.syncs_to_account@,
                found matches Some(w) ==> w < to_rem@.len() && to_rem@[w as int].uid@
                    == f.syncs_to_account@,
            decreases to_rem@.len() - j + (if found is None {
                1int
            } else {
                0int
            }),
        {
            if to_rem[j].uid.eq(&f.syncs_to_account) {
                found = Some(j);
            } else {
                j += 1;
            }
        }
        match found {
            Some(w) => {
                let t = to_rem.remove(w);
                proof {
                    assert(t == rem_pre[w as int]);
                    // The claimed record is the one the to-side holds under
                    // this identifier.
                    assert(in_data_seq(tog, t));
                    let x = choose|x: int| 0 <= x < tog.len() && #[trigger] tog[x] == t;
                    assert(tog[x].uid@ == key);
                    assert(has_data_uid(tog, key));
                    let c = choose|c: int| 0 <= c < tog.len() && (#[trigger] tog[c]).uid@ == key;
                    assert(c == x);
                    assert(data_at(tog, key) == t);
                    // No earlier from-record named this identifier: the
                    // record would already have been claimed and removed.
                    assert forall|i2: int| 0 <= i2 < n
                        implies (#[trigger] fromg[i2]).syncs_to_account@ != key by {
                        if fromg[i2].syncs_to_account@ == key {
                            assert(claimed_upto(fromg, n, rem_pre[w as int].uid@));
                        }
                    }
                    assert(first_claim(fromg, n));
                }
                let marked = mark_account_edges(t, &f);
                out.push(SyncedAccounts { from: f, to: Some(marked) });
                proof {
                    assert(out@.drop_last() =~= out_pre);
                    assert(count_matched(out@) == count_matched(out_pre) + 1);
                    assert forall|j2: int| 0 <= j2 < to_rem@.len() implies in_data_seq(
                        tog,
                        #[trigger] to_rem@[j2],
                    ) && !claimed_upto(fromg, n + 1, to_rem@[j2].uid@) by {
                        if j2 < w {
                            assert(to_rem@[j2] == rem_pre[j2]);
                            assert(rem_pre[j2].uid@ != key);
                        } else {
                            assert(to_rem@[j2] == rem_pre[j2 + 1]);
                            assert(rem_pre[j2 + 1].uid@ != key);
                        }
                    }
                    assert forall|j2: int| 0 <= j2 < tog.len() implies claimed_upto(
                        fromg,
                        n + 1,
                        (#[trigger] tog[j2]).uid@,
                    ) || has_data_uid(to_rem@, tog[j2].uid@) by {
                        if !claimed_upto(fromg, n + 1, tog[j2].uid@) {
                            assert(has_data_uid(rem_pre, tog[j2].uid@));
                            let m = choose|m: int|
                                0 <= m < rem_pre.len() && (#[trigger] rem_pre[m]).uid@
                                    == tog[j2].uid@;
                            assert(rem_pre[m].uid@ != key);
                            assert(m != w);
                            if m < w {
                                assert(to_rem@[m] == rem_pre[m]);
                            } else {
                                assert(to_rem@[m - 1] == rem_pre[m]);
                            }
                        }
                    }
                    assert forall|a: int, b: int| #![trigger to_rem@[a], to_rem@[b]]
                        0 <= a < b < to_rem@.len() implies to_rem@[a].uid@ != to_rem@[b].uid@ by {
                        let a2: int = if a < w {
                            a
                        } else {
                            a + 1
                        };
                        let b2: int = if b < w {
                            b
                        } else {
                            b + 1
                        };
                        assert(to_rem@[a] == rem_pre[a2]);
                        assert(to_rem@[b] == rem_pre[b2]);
                    }
                }
            },
            None => {
                out.push(SyncedAccounts { from: f, to: None });
                proof {
                    assert(out@.drop_last() =~= out_pre);
                    assert(count_matched(out@) == count_matched(out_pre));
                    // The to-side holds no record under this identifier, or
                    // an earlier from-record already claimed it.
                    if has_data_uid(tog, key) && first_claim(fromg, n) {
                        let c = choose|c: int|
                            0 <= c < tog.len() && (#[trigger] tog[c]).uid@ == key;
                        assert(!claimed_upto(fromg, n, tog[c].uid@));
                        assert(has_data_uid(rem_pre, key));
                        let m = choose|m: int|
                            0 <= m < rem_pre.len() && (#[trigger] rem_pre[m]).uid@ == key;
                        assert(to_rem@ =~= rem_pre);
                        assert(to_rem@[m].uid@ == key);
                        assert(f.syncs_to_account@ == key);
                        assert(to_rem@[m].uid@ != f.syncs_to_account@);
                        assert(false);
                    }
                    assert forall|j2: int| 0 <= j2 < to_rem@.len() implies in_data_seq(
                        tog,
                        #[trigger] to_rem@[j2],
                    ) && !claimed_upto(fromg, n + 1, to_rem@[j2].uid@) by {
                        assert(to_rem@[j2].uid@ != key);
                    }
                }
            },
        }
    }
    proof {
        assert forall|j: int| 0 <= j < to_rem@.len() implies in_data_seq(
            tog,
            #[trigger] to_rem@[j],
        ) && !claimed(fromg, to_rem@[j].uid@) by {
            assert(!claimed_upto(fromg, out@.len() as int, to_rem@[j].uid@));
        }
    }
    (out, to_rem)
}

/// A match carries exactly the counterpart identifier its from-record names:
/// when a pair holds a matched to-record, that record's identifier is the
/// from-record's synchronization counterpart identifier.
pub proof fn lemma_match_carries_counterpart(
    from: Seq<AccountData>,
    to: Seq<AccountData>,
    out: Seq<SyncedAccounts>,
    rem: Seq<AccountData>,
    i: int,
)
    requires
        unique_data_uids(to),
        accounts_paired(from, to, out, rem),
        0 <= i < out.len(),
        out[i].to is Some,
    ensures
        out[i].to->0.uid@ == from[i].syncs_to_account@,
{
    let key = from[i].syncs_to_account@;
    assert(has_data_uid(to, key));
    let w = choose|w: int| 0 <= w < to.len() && (#[trigger] to[w]).uid@ == key;
    assert(data_at(to, key).uid@ == key);
    assert(marked_account(data_at(to, key), from[i], out[i].to->0));
}

/// `x` is a record of `orig` at or after position `lo`, and no later record
/// of `orig` carries its identifier.
pub open spec fn kept_from_data(orig: Seq<AccountData>, lo: int, x: AccountData) -> bool {
    exists|i: int|
        lo <= i < orig.len() && x == #[trigger] orig[i] && (forall|i2: int|
            i < i2 < orig.len() ==> (#[trigger] orig[i2]).uid@ != orig[i].uid@)
}

/// Exactly the relation the to-side dedup establishes: identifiers unique,
/// each kept record a last occurrence, every identifier kept.
pub open spec fn dedup_data_rel(input: Seq<AccountData>, out: Seq<AccountData>) -> bool {
    &&& unique_data_uids(out)
    &&& forall|j: int| 0 <= j < out.len() ==> kept_from_data(input, 0, #[trigger] out[j])
    &&& forall|i: int| 0 <= i < input.len() ==> has_data_uid(out, (#[trigger] input[i]).uid@)
}

/// Collapses duplicate identifiers among to-side records: of several records
/// carrying one identifier the last wins, as when indexing by identifier.
pub fn dedup_account_data(input: Vec<AccountData>) -> (r: Vec<AccountData>)
    ensures
        dedup_data_rel(input@, r@),
{
    let ghost orig = input@;
    let mut input = input;
    let mut r: Vec<AccountData> = Vec::new();
    while input.len() > 0
        invariant
            input@ =~= orig.take(input@.len() as int),
            input@.len() <= orig.len(),
            unique_data_uids(r@),
            forall|j: int|
                0 <= j < r@.len() ==> kept_from_data(orig, input@.len() as int, #[trigger] r@[j]),
            forall|i: int|
                input@.len() <= i < orig.len() ==> has_data_uid(r@, (#[trigger] orig[i]).uid@),
        decreases input@.len(),
    {
        let ghost m = input@.len() as int;
        let ghost r_pre = r@;
        let a = input.pop().unwrap();
        proof {
            assert(a == orig[m - 1]);
            assert(input@ =~= orig.take(m - 1));
        }
        let mut present = false;
        let mut w: usize = 0;
        while w < r.len()
            invariant
                0 <= w <= r@.len(),
                a == orig[m - 1],
                present == exists|x: int| 0 <= x < w && (#[trigger] r@[x]).uid@ == a.uid@,
            decreases r@.len() - w,
        {
            if r[w].uid.eq(&a.uid) {
                present = true;
            }
            w += 1;
        }
        if !present {
            r.push(a);
            proof {
                assert forall|x: int, y: int| #![trigger r@[x], r@[y]]
                    0 <= x < y < r@.len() implies r@[x].uid@ != r@[y].uid@ by {
                    if y < r@.len() - 1 {
                        assert(r_pre[x].uid@ != r_pre[y].uid@);
                    } else {
                        if r@[x].uid@ == r@[y].uid@ {
                            assert(has_data_uid(r_pre, orig[m - 1].uid@));
                        }
                    }
                }
                assert forall|i2: int| m - 1 < i2 < orig.len() implies (#[trigger] orig[i2]).uid@
                    != orig[m - 1].uid@ by {
                    if orig[i2].uid@ == orig[m - 1].uid@ {
                        assert(has_data_uid(r_pre, orig[i2].uid@));
                    }
                }
                assert forall|j: int| 0 <= j < r@.len() implies kept_from_data(
                    orig,
                    m - 1,
                    #[trigger] r@[j],
                ) by {
                    if j < r@.len() - 1 {
                        let i = choose|i: int|
                            m <= i < orig.len() && r_pre[j] == #[trigger] orig[i] && (forall|
                                i2: int,
                            |
                                i < i2 < orig.len() ==> (#[trigger] orig[i2]).uid@
                                    != orig[i].uid@);
                        assert(r@[j] == orig[i]);
                    } else {
                        assert(r@[j] == orig[m - 1]);
                    }
                }
                assert forall|i: int| m - 1 <= i < orig.len() implies has_data_uid(
                    r@,
                    (#[trigger] orig[i]).uid@,
                ) by {
                    if i >= m {
                        let x = choose|x: int|
                            0 <= x < r_pre.len() && (#[trigger] r_pre[x]).uid@ == orig[i].uid@;
                        assert(r@[x].uid@ == orig[i].uid@);
                    } else {
                        assert(r@[r@.len() - 1].uid@ == orig[m - 1].uid@);
                    }
                }
            }
        } else {
            proof {
                assert(has_data_uid(r@, orig[m - 1].uid@));
                assert forall|j: int| 0 <= j < r@.len() implies kept_from_data(
                    orig,
                    m - 1,
                    #[trigger] r@[j],
                ) by {
                    let i = choose|i: int|
                        m <= i < orig.len() && r@[j] == #[trigger] orig[i] && (forall|i2: int|
                            i < i2 < orig.len() ==> (#[trigger] orig[i2]).uid@ != orig[i].uid@);
                }
            }
        }
    }
    r
}

/// No to-record is claimed by two from-records: two matched pairs never
/// carry the same to-record.
pub proof fn lemma_reconciliation_completeness(
    from: Seq<AccountData>,
    to: Seq<AccountData>,
    out: Seq<SyncedAccounts>,
    rem: Seq<AccountData>,
)
    requires
        unique_data_uids(to),
        accounts_paired(from, to, out, rem),
    ensures
        forall|i: int, j: int| #![trigger out[i], out[j]]
            0 <= i < j < out.len() && out[i].to is Some && out[j].to is Some ==> out[i].to->0.uid@
                != out[j].to->0.uid@,
{
    assert forall|i: int, j: int| #![trigger out[i], out[j]]
        0 <= i < j < out.len() && out[i].to is Some && out[j].to is Some implies out[i].to->0.uid@
        != out[j].to->0.uid@ by {
        let ki = from[i].syncs_to_account@;
        let kj = from[j].syncs_to_account@;
        assert(first_claim(from, i) && first_claim(from, j));
        assert(ki != kj);
        let ti = data_at(to, ki);
        let tj = data_at(to, kj);
        assert(ti.uid@ == ki && tj.uid@ == kj);
        assert(marked_account(ti, from[i], out[i].to->0));
        assert(marked_account(tj, from[j], out[j].to->0));
    }
}

/// Ephemeral result of one account reconciliation: per tagging key, the
/// paired records; the synchronization pair when it applied; and the
/// unmatched to-side remainder. Rebuilt per report, never cached.
pub struct SyncedAccountSet {
    pub sync: Option<(String, String)>,
    pub synced_from_to: Vec<(String, Vec<SyncedAccounts>)>,
    pub nosync_to: Vec<AccountData>,
}

/// Some tagged collection carries the key.
pub open spec fn has_group(s: Seq<(String, Vec<AccountData>)>, k: Seq<char>) -> bool {
    exists|i: int| 0 <= i < s.len() && (#[trigger] s[i]).0@ == k
}

/// The tagged collection carrying the key.
pub open spec fn group_at(s: Seq<(String, Vec<AccountData>)>, k: Seq<char>) -> (
    String,
    Vec<AccountData>,
)
    recommends
        has_group(s, k),
{
    s[choose|i: int| 0 <= i < s.len() && (#[trigger] s[i]).0@ == k]
}

/// No two tagged collections carry the same key.
pub open spec fn unique_group_keys(s: Seq<(String, Vec<AccountData>)>) -> bool {
    forall|i: int, j: int| #![trigger s[i], s[j]] 0 <= i < j < s.len() ==> s[i].0@ != s[j].0@
}

/// The configured pair names two distinct tagged collections, both present:
/// reconciliation applies. Otherwise every record is reported without a
/// counterpart, as when no synchronization is configured.
pub open spec fn sync_active(
    accts: Seq<(String, Vec<AccountData>)>,
    sync: Option<(String, String)>,
) -> bool {
    match sync {
        Some(p) => p.0@ != p.1@ && has_group(accts, p.0@) && has_group(accts, p.1@),
        None => false,
    }
}

/// Every record kept in order, none with a counterpart.
pub open spec fn all_unpaired(src: Seq<AccountData>, out: Seq<SyncedAccounts>) -> bool {
    &&& out.len() == src.len()
    &&& forall|i: int|
        0 <= i < src.len() ==> (#[trigger] out[i]).from == src[i] && out[i].to is None
}

/// The tagged collections other than the pair's two, each kept under its key
/// with every record unpaired.
pub open spec fn rest_unpaired(
    accts: Seq<(String, Vec<AccountData>)>,
    p0: Seq<char>,
    p1: Seq<char>,
    synced: Seq<(String, Vec<SyncedAccounts>)>,
    lo: int,
) -> bool {
    &&& forall|k: int|
        lo <= k < synced.len() ==> entry_unpaired_from(accts, p0, p1, #[trigger] synced[k])
    &&& forall|i: int|
        0 <= i < accts.len() && (#[trigger] accts[i]).0@ != p0 && accts[i].0@ != p1
            ==> exists|k: int| lo <= k < synced.len() && (#[trigger] synced[k]).0@ == accts[i].0@
}

/// First tagged collection carrying the key.
fn find_group(accts: &Vec<(String, Vec<AccountData>)>, k: &String) -> (r: Option<usize>)
    ensures
        match r {
            Some(j) => j < accts@.len() && accts@[j as int].0@ == k@,
            None => !has_group(accts@, k@),
        },
{
    let mut j: usize = 0;
    while j < accts.len()
        invariant
            0 <= j <= accts@.len(),
            forall|m: int| 0 <= m < j ==> (#[trigger] accts@[m]).0@ != k@,
        decreases accts@.len() - j,
    {
        if accts[j].0.eq(k) {
            return Some(j);
        }
        j += 1;
    }
    None
}

/// Every record of the list, unpaired.
fn unpaired_of(list: Vec<AccountData>) -> (r: Vec<SyncedAccounts>)
    ensures
        all_unpaired(list@, r@),
{
    let ghost orig = list@;
    let mut rest = list;
    let mut out: Vec<SyncedAccounts> = Vec::new();
    while rest.len() > 0
        invariant
            out@.len() + rest@.len() == orig.len(),
            rest@ =~= orig.skip(out@.len() as int),
            forall|i: int|
                0 <= i < out@.len() ==> (#[trigger] out@[i]).from == orig[i] && out@[i].to
                    is None,
        decreases rest@.len(),
    {
        let ghost n = out@.len() as int;
        let f = rest.remove(0);
        out.push(SyncedAccounts { from: f, to: None });
        proof {
            assert(rest@ =~= orig.skip(n + 1));
        }
    }
    out
}

/// `x` is a collection of `orig` whose key is neither of the pair's two.
pub open spec fn in_groups_excl(
    orig: Seq<(String, Vec<AccountData>)>,
    fk: Seq<char>,
    tk: Seq<char>,
    x: (String, Vec<AccountData>),
) -> bool {
    exists|i: int|
        0 <= i < orig.len() && x == #[trigger] orig[i] && orig[i].0@ != fk && orig[i].0@ != tk
}

/// `e` keeps one collection of `orig` whose key is neither of the pair's
/// two, every record unpaired.
pub open spec fn entry_unpaired_from(
    orig: Seq<(String, Vec<AccountData>)>,
    fk: Seq<char>,
    tk: Seq<char>,
    e: (String, Vec<SyncedAccounts>),
) -> bool {
    exists|i: int|
        0 <= i < orig.len() && e.0 == (#[trigger] orig[i]).0 && orig[i].0@ != fk && orig[i].0@
            != tk && all_unpaired(orig[i].1@, e.1@)
}

/// `rest` holds exactly the collections of `orig` whose keys are neither of
/// the pair's two.
pub open spec fn other_groups(
    orig: Seq<(String, Vec<AccountData>)>,
    fk: Seq<char>,
    tk: Seq<char>,
    rest: Seq<(String, Vec<AccountData>)>,
) -> bool {
    &&& forall|j: int| 0 <= j < rest.len() ==> in_groups_excl(orig, fk, tk, #[trigger] rest[j])
    &&& forall|i: int|
        0 <= i < orig.len() && (#[trigger] orig[i]).0@ != fk && orig[i].0@ != tk ==> has_group(
            rest,
            orig[i].0@,
        )
}

/// Removes the pair's two collections from the working list, returning them;
/// what stays are exactly the other collections, values unchanged.
fn remove_pair_groups(accts: &mut Vec<(String, Vec<AccountData>)>, fk: &String, tk: &String) -> (r:
    ((String, Vec<AccountData>), (String, Vec<AccountData>)))
    requires
        unique_group_keys(old(accts)@),
        fk@ != tk@,
        has_group(old(accts)@, fk@),
        has_group(old(accts)@, tk@),
    ensures
        r.0 == group_at(old(accts)@, fk@),
        r.1 == group_at(old(accts)@, tk@),
        final(accts)@.len() == old(accts)@.len() - 2,
        other_groups(old(accts)@, fk@, tk@, final(accts)@),
{
    let ghost acctsg = old(accts)@;
    let fi = match find_group(accts, fk) {
        Some(j) => j,
        None => {
            proof {
                assert(false);
            }
            0
        },
    };
    let fe = accts.remove(fi);
    let ghost mid = accts@;
    proof {
        assert(fe == acctsg[fi as int]);
        let cf = choose|i: int| 0 <= i < acctsg.len() && (#[trigger] acctsg[i]).0@ == fk@;
        assert(cf == fi);
        assert(group_at(acctsg, fk@) == fe);
        let t0 = choose|i: int| 0 <= i < acctsg.len() && (#[trigger] acctsg[i]).0@ == tk@;
        if t0 < fi {
            assert(mid[t0] == acctsg[t0]);
        } else {
            assert(t0 != fi);
            assert(mid[t0 - 1] == acctsg[t0]);
        }
        assert(has_group(mid, tk@));
    }
    let ti = match find_group(accts, tk) {
        Some(j) => j,
        None => {
            proof {
                assert(false);
            }
            0
        },
    };
    let te = accts.remove(ti);
    proof {
        assert(te == mid[ti as int]);
        let t0 = choose|i: int| 0 <= i < acctsg.len() && (#[trigger] acctsg[i]).0@ == tk@;
        let torig: int = if ti < fi {
            ti as int
        } else {
            ti + 1
        };
        assert(mid[ti as int] == acctsg[torig]);
        assert(t0 == torig);
        assert(group_at(acctsg, tk@) == te);
        assert forall|j: int| 0 <= j < accts@.len() implies in_groups_excl(
            acctsg,
            fk@,
            tk@,
            #[trigger] accts@[j],
        ) by {
            let i1: int = if j < ti {
                j
            } else {
                j + 1
            };
            let i0: int = if i1 < fi {
                i1
            } else {
                i1 + 1
            };
            assert(accts@[j] == mid[i1]);
            assert(mid[i1] == acctsg[i0]);
            assert(i0 != fi && i0 != torig);
        }
        assert forall|i: int|
            0 <= i < acctsg.len() && (#[trigger] acctsg[i]).0@ != fk@ && acctsg[i].0@ != tk@
            implies has_group(accts@, acctsg[i].0@) by {
            assert(i != fi && i != torig);
            let i1: int = if i < fi {
                i
            } else {
                i - 1
            };
            assert(mid[i1] == acctsg[i]);
            let j: int = if i1 < ti {
                i1
            } else {
                i1 - 1
            };
            assert(accts@[j] == mid[i1]);
            assert(accts@[j].0@ == acctsg[i].0@);
        }
        assert(other_groups(acctsg, fk@, tk@, accts@));
    }
    (fe, te)
}

impl SyncedAccountSet {
    /// Builds the reconciliation of tagged account collections. When the
    /// configured pair names two distinct collections that are both present,
    /// the from-side is paired against the to-side indexed by identifier
    /// (duplicates collapse, last wins) and the never-claimed to-records are
    /// kept as the remainder; every other collection — every collection, when
    /// the pair does not apply — is reported without counterparts.
    #[verifier::rlimit(50)]
    pub fn from(accts: Vec<(String, Vec<AccountData>)>, sync: Option<(String, String)>) -> (r:
        Self)
        requires
            unique_group_keys(accts@),
        ensures
            !sync_active(accts@, sync) ==> r.sync is None && r.nosync_to@.len() == 0
                && r.synced_from_to@.len() == accts@.len() && (forall|k: int|
                0 <= k < accts@.len() ==> (#[trigger] r.synced_from_to@[k]).0
                    == (#[trigger] accts@[k]).0 && all_unpaired(
                    accts@[k].1@,
                    r.synced_from_to@[k].1@,
                )),
            sync_active(accts@, sync) ==> {
                let p = sync->0;
                let p0 = p.0@;
                let p1 = p.1@;
                &&& r.sync == sync
                &&& r.synced_from_to@.len() == accts@.len() - 1
                &&& r.synced_from_to@[0].0@ == p0
                &&& exists|kept_to: Seq<AccountData>|
                    #[trigger] dedup_data_rel(group_at(accts@, p1).1@, kept_to)
                        && accounts_paired(
                        group_at(accts@, p0).1@,
                        kept_to,
                        r.synced_from_to@[0].1@,
                        r.nosync_to@,
                    )
                &&& rest_unpaired(accts@, p0, p1, r.synced_from_to@, 1)
            },
    {
        let ghost acctsg = accts@;
        let mut accts = accts;
        let mut result_sync: Option<(String, String)> = None;
        let mut synced: Vec<(String, Vec<SyncedAccounts>)> = Vec::new();
        let mut nosync_to: Vec<AccountData> = Vec::new();
        let mut active = false;
        if let Some(p) = &sync {
            if !p.0.eq(&p.1) {
                if find_group(&accts, &p.0).is_some() && find_group(&accts, &p.1).is_some() {
                    active = true;
                }
            }
        }
        proof {
            assert(active == sync_active(acctsg, sync));
        }
        let ghost mut kept_tog: Seq<AccountData> = Seq::<AccountData>::empty();
        if active {
            let (fk, tk) = match sync {
                Some(p) => p,
                None => {
                    proof {
                        assert(false);
                    }
                    (String::new(), String::new())
                },
            };
            let (fe, te) = remove_pair_groups(&mut accts, &fk, &tk);
            let kept_to = dedup_account_data(te.1);
            proof {
                kept_tog = kept_to@;
            }
            proof {
                assert(dedup_data_rel(group_at(acctsg, tk@).1@, kept_tog));
            }
            let (pairs, rem) = pair_accounts(fe.1, kept_to);
            result_sync = Some((fk.clone(), tk.clone()));
            synced.push((fk, pairs));
            nosync_to = rem;
            proof {
                assert(synced@[0].0@ == fk@);
                assert(accounts_paired(
                    group_at(acctsg, fk@).1@,
                    kept_tog,
                    synced@[0].1@,
                    nosync_to@,
                ));
            }
        }
        // Whatever stays — every collection, when the pair does not apply —
        // is kept under its key with no counterparts.
        let ghost base = synced@;
        let ghost work = accts@;
        let mut rest = accts;
        while rest.len() > 0
            invariant
                base.len() <= synced@.len(),
                synced@.len() - base.len() <= work.len(),
                rest@ =~= work.skip(synced@.len() - base.len()),
                forall|k: int| 0 <= k < base.len() ==> #[trigger] synced@[k] == base[k],
                forall|k: int|
                    base.len() <= k < synced@.len() ==> (#[trigger] synced@[k]).0 == work[k
                        - base.len()].0 && all_unpaired(work[k - base.len()].1@, synced@[k].1@),
            decreases rest@.len(),
        {
            let ghost done = synced@.len() - base.len();
            let ghost syn_pre = synced@;
            let ghost rest_pre = rest@;
            let (k, list) = rest.remove(0);
            let up = unpaired_of(list);
            synced.push((k, up));
            proof {
                assert((k, list) == rest_pre[0]);
                assert(rest_pre[0] == work[done]);
                assert(rest@ =~= work.skip(done + 1));
                assert forall|kk: int| 0 <= kk < base.len() implies #[trigger] synced@[kk]
                    == base[kk] by {
                    assert(synced@[kk] == syn_pre[kk]);
                }
                assert(synced@[synced@.len() - 1] == (k, up));
                assert(synced@[synced@.len() - 1].0 == work[done].0);
                assert(all_unpaired(work[done].1@, up@));
            }
        }
        let r = SyncedAccountSet { sync: result_sync, synced_from_to: synced, nosync_to };
        proof {
            if sync_active(acctsg, sync) {
                let sp = sync->0;
                let q0 = sp.0@;
                let q1 = sp.1@;
                assert(other_groups(acctsg, q0, q1, work));
                assert(base.len() == 1);
                assert(synced@.len() - 1 == work.len());
                assert(r.sync == sync);
                assert(r.synced_from_to@[0] == base[0]);
                assert(r.synced_from_to@[0].0@ == q0);
                assert(r.synced_from_to@.len() == acctsg.len() - 1);
                assert(r.synced_from_to@[0].1@ == base[0].1@);
                assert(dedup_data_rel(group_at(acctsg, q1).1@, kept_tog));
                assert(accounts_paired(
                    group_at(acctsg, q0).1@,
                    kept_tog,
                    r.synced_from_to@[0].1@,
                    r.nosync_to@,
                ));
                assert forall|k: int| 1 <= k < r.synced_from_to@.len() implies entry_unpaired_from(
                    acctsg,
                    q0,
                    q1,
                    #[trigger] r.synced_from_to@[k],
                ) by {
                    let j = k - 1;
                    assert(synced@[k].0 == work[j].0 && all_unpaired(work[j].1@, synced@[k].1@));
                    assert(in_groups_excl(acctsg, q0, q1, work[j]));
                    let i = choose|i: int|
                        0 <= i < acctsg.len() && work[j] == #[trigger] acctsg[i]
                            && acctsg[i].0@ != q0 && acctsg[i].0@ != q1;
                    assert(r.synced_from_to@[k].0 == acctsg[i].0);
                    assert(all_unpaired(acctsg[i].1@, r.synced_from_to@[k].1@));
                }
                assert forall|i: int|
                    0 <= i < acctsg.len() && (#[trigger] acctsg[i]).0@ != q0
                        && acctsg[i].0@ != q1 implies exists|k: int|
                    1 <= k < r.synced_from_to@.len() && (#[trigger] r.synced_from_to@[k]).0@
                        == acctsg[i].0@ by {
                    assert(has_group(work, acctsg[i].0@));
                    let j = choose|j: int|
                        0 <= j < work.len() && (#[trigger] work[j]).0@ == acctsg[i].0@;
                    assert(synced@[j + 1].0 == work[j].0);
                    assert(1 <= j + 1 < r.synced_from_to@.len());
                    assert((#[trigger] r.synced_from_to@[j + 1]).0@ == acctsg[i].0@);
                }
                assert(rest_unpaired(acctsg, q0, q1, r.synced_from_to@, 1));
            }
        }
        r
    }
}

/// One from-entitlement with its matched counterpart, when one was claimed.
pub struct SyncedEntitlements {
    pub from: EntitlementData,
    pub to: Option<EntitlementData>,
}

/// Some entitlement projection of the collection carries `uid`.
pub open spec fn has_edata_uid(s: Seq<EntitlementData>, uid: Seq<char>) -> bool {
    exists|i: int| 0 <= i < s.len() && (#[trigger] s[i]).uid@ == uid
}

/// No two entitlement projections of the collection carry the same
/// identifier.
pub open spec fn unique_edata_uids(s: Seq<EntitlementData>) -> bool {
    forall|i: int, j: int| #![trigger s[i], s[j]] 0 <= i < j < s.len() ==> s[i].uid@ != s[j].uid@
}

/// The entitlement projection of the collection carrying `uid`.
pub open spec fn edata_at(s: Seq<EntitlementData>, uid: Seq<char>) -> EntitlementData
    recommends
        has_edata_uid(s, uid),
{
    s[choose|i: int| 0 <= i < s.len() && (#[trigger] s[i]).uid@ == uid]
}

/// `x` is one of the collection's records.
pub open spec fn in_edata_seq(s: Seq<EntitlementData>, x: EntitlementData) -> bool {
    exists|w: int| 0 <= w < s.len() && #[trigger] s[w] == x
}

/// Some member edge of the from-side list names `uid` as its counterpart.
pub open spec fn member_has_counterpart(members: Seq<AccountData>, uid: Seq<char>) -> bool {
    exists|k: int| 0 <= k < members.len() && (#[trigger] members[k]).syncs_to_account@ == uid
}

/// The member edge, flagged as synchronization-driven when `hit` holds.
pub open spec fn flag_member(a: AccountData, hit: bool) -> AccountData {
    AccountData { macheo: a.macheo || hit, ..a }
}

/// `r` is `t` with each member-account and member-entitlement edge flagged
/// exactly when some from-side edge of the same kind names it; everything
/// else kept.
pub open spec fn marked_entitlement(t: EntitlementData, f: EntitlementData, r: EntitlementData) -> bool {
    &&& r.uid == t.uid
    &&& r.display_name == t.display_name
    &&& r.description == t.description
    &&& r.member_groups@.len() == t.member_groups@.len()
    &&& forall|k: int|
        0 <= k < t.member_groups@.len() ==> #[trigger] r.member_groups@[k] == flag_edge(
            t.member_groups@[k],
            from_has_counterpart(f.member_groups@, t.member_groups@[k].uid@),
        )
    &&& r.entitlement_type == t.entitlement_type
    &&& r.ou == t.ou
    &&& r.syncs_to_ts == t.syncs_to_ts
    &&& r.syncs_to_entitlement == t.syncs_to_entitlement
    &&& r.identity_owners == t.identity_owners
    &&& r.macheo == t.macheo
    &&& r.history == t.history
    &&& r.member_accounts@.len() == t.member_accounts@.len()
    &&& forall|k: int|
        0 <= k < t.member_accounts@.len() ==> #[trigger] r.member_accounts@[k] == flag_member(
            t.member_accounts@[k],
            member_has_counterpart(f.member_accounts@, t.member_accounts@[k].uid@),
        )
}

/// Some from-entitlement among the first `n` names `uid` as its counterpart.
pub open spec fn eclaimed_upto(from: Seq<EntitlementData>, n: int, uid: Seq<char>) -> bool {
    exists|i: int| 0 <= i < n && (#[trigger] from[i]).syncs_to_entitlement@ == uid
}

/// Some from-entitlement names `uid` as its counterpart.
pub open spec fn eclaimed(from: Seq<EntitlementData>, uid: Seq<char>) -> bool {
    eclaimed_upto(from, from.len() as int, uid)
}

/// No earlier from-entitlement names the counterpart the one at `i` names.
pub open spec fn efirst_claim(from: Seq<EntitlementData>, i: int) -> bool {
    forall|i2: int|
        0 <= i2 < i ==> (#[trigger] from[i2]).syncs_to_entitlement@ != from[i].syncs_to_entitlement@
}

/// How many pairs of the sequence carry a matched counterpart.
pub open spec fn count_ematched(s: Seq<SyncedEntitlements>) -> nat
    decreases s.len(),
{
    if s.len() == 0 {
        0
    } else {
        count_ematched(s.drop_last()) + if s.last().to is Some {
            1nat
        } else {
            0nat
        }
    }
}

/// Exactly the relation the entitlement pairing establishes; the counterpart
/// of `accounts_paired` over entitlement projections.
pub open spec fn entitlements_paired(
    from: Seq<EntitlementData>,
    to: Seq<EntitlementData>,
    out: Seq<SyncedEntitlements>,
    rem: Seq<EntitlementData>,
) -> bool {
    &&& out.len() == from.len()
    &&& forall|i: int| 0 <= i < from.len() ==> (#[trigger] out[i]).from == from[i]
    &&& forall|i: int|
        0 <= i < from.len() ==> (((#[trigger] out[i]).to) is Some <==> has_edata_uid(
            to,
            from[i].syncs_to_entitlement@,
        ) && efirst_claim(from, i))
    &&& forall|i: int|
        0 <= i < from.len() ==> match (#[trigger] out[i]).to {
            Some(t) => marked_entitlement(
                edata_at(to, from[i].syncs_to_entitlement@),
                from[i],
                t,
            ),
            None => true,
        }
    &&& count_ematched(out) + rem.len() == to.len()
    &&& unique_edata_uids(rem)
    &&& forall|j: int|
        0 <= j < rem.len() ==> in_edata_seq(to, #[trigger] rem[j]) && !eclaimed(
            from,
            rem[j].uid@,
        )
    &&& forall|j: int|
        0 <= j < to.len() ==> eclaimed(from, (#[trigger] to[j]).uid@) || has_edata_uid(
            rem,
            to[j].uid@,
        )
}

/// Whether some member edge of the list names `uid` as its counterpart.
fn any_member_counterpart(members: &Vec<AccountData>, uid: &String) -> (b: bool)
    ensures
        b == member_has_counterpart(members@, uid@),
{
    let mut k: usize = 0;
    while k < members.len()
        invariant
            0 <= k <= members@.len(),
            forall|m: int| 0 <= m < k ==> (#[trigger] members@[m]).syncs_to_account@ != uid@,
        decreases members@.len() - k,
    {
        if members[k].syncs_to_account.eq(uid) {
            return true;
        }
        k += 1;
    }
    false
}

/// Flags each member edge of the list that some from-side member edge names.
fn flag_members(list: Vec<AccountData>, f_members: &Vec<AccountData>) -> (r: Vec<AccountData>)
    ensures
        r@.len() == list@.len(),
        forall|k: int|
            0 <= k < list@.len() ==> #[trigger] r@[k] == flag_member(
                list@[k],
                member_has_counterpart(f_members@, list@[k].uid@),
            ),
{
    let ghost orig = list@;
    let mut rest = list;
    let mut out: Vec<AccountData> = Vec::new();
    while rest.len() > 0
        invariant
            out@.len() + rest@.len() == orig.len(),
            rest@ =~= orig.skip(out@.len() as int),
            forall|k: int|
                0 <= k < out@.len() ==> #[trigger] out@[k] == flag_member(
                    orig[k],
                    member_has_counterpart(f_members@, orig[k].uid@),
                ),
        decreases rest@.len(),
    {
        let ghost n = out@.len() as int;
        let mut a = rest.remove(0);
        let hit = any_member_counterpart(f_members, &a.uid);
        a.macheo = a.macheo || hit;
        out.push(a);
        proof {
            assert(rest@ =~= orig.skip(n + 1));
        }
    }
    out
}

/// The matched to-entitlement, its member-account and member-entitlement
/// edges flagged against the from-entitlement's edges of the same kind.
fn mark_entitlement_edges(t: EntitlementData, f: &EntitlementData) -> (r: EntitlementData)
    ensures
        marked_entitlement(t, *f, r),
{
    let EntitlementData {
        uid,
        display_name,
        description,
        member_accounts,
        member_groups,
        entitlement_type,
        ou,
        syncs_to_ts,
        syncs_to_entitlement,
        identity_owners,
        macheo,
        history,
    } = t;
    let member_accounts = flag_members(member_accounts, &f.member_accounts);
    let member_groups = flag_edges(member_groups, &f.member_groups);
    EntitlementData {
        uid,
        display_name,
        description,
        member_accounts,
        member_groups,
        entitlement_type,
        ou,
        syncs_to_ts,
        syncs_to_entitlement,
        identity_owners,
        macheo,
        history,
    }
}

/// Pairs each from-entitlement with the to-entitlement its counterpart
/// identifier names, claim-and-remove, earliest from-record first; what is
/// never claimed comes back as the remainder.
pub fn pair_entitlements(from_list: Vec<EntitlementData>, to_list: Vec<EntitlementData>) -> (res: (
    Vec<SyncedEntitlements>,
    Vec<EntitlementData>,
))
    requires
        unique_edata_uids(to_list@),
    ensures
        entitlements_paired(from_list@, to_list@, res.0@, res.1@),
{
    let ghost fromg = from_list@;
    let ghost tog = to_list@;
    let mut to_rem = to_list;
    let mut rest = from_list;
    let mut out: Vec<SyncedEntitlements> = Vec::new();
    proof {
        assert forall|j: int| 0 <= j < to_rem@.len() implies in_edata_seq(
            tog,
            #[trigger] to_rem@[j],
        ) && !eclaimed_upto(fromg, out@.len() as int, to_rem@[j].uid@) by {
            assert(tog[j] == to_rem@[j]);
        }
    }
    while rest.len() > 0
        invariant
            out@.len() + rest@.len() == fromg.len(),
            rest@ =~= fromg.skip(out@.len() as int),
            unique_edata_uids(tog),
            unique_edata_uids(to_rem@),
            forall|j: int|
                0 <= j < to_rem@.len() ==> in_edata_seq(tog, #[trigger] to_rem@[j])
                    && !eclaimed_upto(fromg, out@.len() as int, to_rem@[j].uid@),
            forall|j: int|
                0 <= j < tog.len() ==> eclaimed_upto(
                    fromg,
                    out@.len() as int,
                    (#[trigger] tog[j]).uid@,
                ) || has_edata_uid(to_rem@, tog[j].uid@),
            count_ematched(out@) + to_rem@.len() == tog.len(),
            forall|i: int| 0 <= i < out@.len() ==> (#[trigger] out@[i]).from == fromg[i],
            forall|i: int|
                0 <= i < out@.len() ==> (((#[trigger] out@[i]).to) is Some <==> has_edata_uid(
                    tog,
                    fromg[i].syncs_to_entitlement@,
                ) && efirst_claim(fromg, i)),
            forall|i: int|
                0 <= i < out@.len() ==> match (#[trigger] out@[i]).to {
                    Some(t) => marked_entitlement(
                        edata_at(tog, fromg[i].syncs_to_entitlement@),
                        fromg[i],
                        t,
                    ),
                    None => true,
                },
        decreases rest@.len(),
    {
        let ghost n = out@.len() as int;
        let ghost rem_pre = to_rem@;
        let ghost out_pre = out@;
        let f = rest.remove(0);
        proof {
            assert(f == fromg[n]);
            assert(rest@ =~= fromg.skip(n + 1));
        }
        let ghost key = fromg[n].syncs_to_entitlement@;
        let mut found: Option<usize> = None;
        let mut j: usize = 0;
        while j < to_rem.len() && found.is_none()
            invariant
                0 <= j <= to_rem@.len(),
                found is None ==> forall|m: int|
                    0 <= m < j ==> (#[trigger] to_rem@[m]).uid@ != f.syncs_to_entitlement@,
                found matches Some(w) ==> w < to_rem@.len() && to_rem@[w as int].uid@
                    == f.syncs_to_entitlement@,
            decreases to_rem@.len() - j + (if found is None {
                1int
            } else {
                0int
            }),
        {
            if to_rem[j].uid.eq(&f.syncs_to_entitlement) {
                found = Some(j);
            } else {
                j += 1;
            }
        }
        match found {
            Some(w) => {
                let t = to_rem.remove(w);
                proof {
                    assert(t == rem_pre[w as int]);
                    assert(in_edata_seq(tog, t));
                    let x = choose|x: int| 0 <= x < tog.len() && #[trigger] tog[x] == t;
                    assert(tog[x].uid@ == key);
                    assert(has_edata_uid(tog, key));
                    let c = choose|c: int| 0 <= c < tog.len() && (#[trigger] tog[c]).uid@ == key;
                    assert(c == x);
                    assert(edata_at(tog, key) == t);
                    assert forall|i2: int| 0 <= i2 < n
                        implies (#[trigger] fromg[i2]).syncs_to_entitlement@ != key by {
                        if fromg[i2].syncs_to_entitlement@ == key {
                            assert(eclaimed_upto(fromg, n, rem_pre[w as int].uid@));
                        }
                    }
                    assert(efirst_claim(fromg, n));
                }
                let marked = mark_entitlement_edges(t, &f);
                out.push(SyncedEntitlements { from: f, to: Some(marked) });
                proof {
                    assert(out@.drop_last() =~= out_pre);
                    assert(count_ematched(out@) == count_ematched(out_pre) + 1);
                    assert forall|j2: int| 0 <= j2 < to_rem@.len() implies in_edata_seq(
                        tog,
                        #[trigger] to_rem@[j2],
                    ) && !eclaimed_upto(fromg, n + 1, to_rem@[j2].uid@) by {
                        if j2 < w {
                            assert(to_rem@[j2] == rem_pre[j2]);
                            assert(rem_pre[j2].uid@ != key);
                        } else {
                            assert(to_rem@[j2] == rem_pre[j2 + 1]);
                            assert(rem_pre[j2 + 1].uid@ != key);
                        }
                    }
                    assert forall|j2: int| 0 <= j2 < tog.len() implies eclaimed_upto(
                        fromg,
                        n + 1,
                        (#[trigger] tog[j2]).uid@,
                    ) || has_edata_uid(to_rem@, tog[j2].uid@) by {
                        if !eclaimed_upto(fromg, n + 1, tog[j2].uid@) {
                            assert(has_edata_uid(rem_pre, tog[j2].uid@));
                            let m = choose|m: int|
                                0 <= m < rem_pre.len() && (#[trigger] rem_pre[m]).uid@
                                    == tog[j2].uid@;
                            assert(rem_pre[m].uid@ != key);
                            assert(m != w);
                            if m < w {
                                assert(to_rem@[m] == rem_pre[m]);
                            } else {
                                assert(to_rem@[m - 1] == rem_pre[m]);
                            }
                        }
                    }
                    assert forall|a: int, b: int| #![trigger to_rem@[a], to_rem@[b]]
                        0 <= a < b < to_rem@.len() implies to_rem@[a].uid@ != to_rem@[b].uid@ by {
                        let a2: int = if a < w {
                            a
                        } else {
                            a + 1
                        };
                        let b2: int = if b < w {
                            b
                        } else {
                            b + 1
                        };
                        assert(to_rem@[a] == rem_pre[a2]);
                        assert(to_rem@[b] == rem_pre[b2]);
                    }
                }
            },
            None => {
                out.push(SyncedEntitlements { from: f, to: None });
                proof {
                    assert(out@.drop_last() =~= out_pre);
                    assert(count_ematched(out@) == count_ematched(out_pre));
                    if has_edata_uid(tog, key) && efirst_claim(fromg, n) {
                        let c = choose|c: int|
                            0 <= c < tog.len() && (#[trigger] tog[c]).uid@ == key;
                        assert(!eclaimed_upto(fromg, n, tog[c].uid@));
                        assert(has_edata_uid(rem_pre, key));
                        let m = choose|m: int|
                            0 <= m < rem_pre.len() && (#[trigger] rem_pre[m]).uid@ == key;
                        assert(to_rem@ =~= rem_pre);
                        assert(to_rem@[m].uid@ == key);
                        assert(f.syncs_to_entitlement@ == key);
                        assert(to_rem@[m].uid@ != f.syncs_to_entitlement@);
                        assert(false);
                    }
                    assert forall|j2: int| 0 <= j2 < to_rem@.len() implies in_edata_seq(
                        tog,
                        #[trigger] to_rem@[j2],
                    ) && !eclaimed_upto(fromg, n + 1, to_rem@[j2].uid@) by {
                        assert(to_rem@[j2].uid@ != key);
                    }
                }
            },
        }
    }
    proof {
        assert forall|j: int| 0 <= j < to_rem@.len() implies in_edata_seq(
            tog,
            #[trigger] to_rem@[j],
        ) && !eclaimed(fromg, to_rem@[j].uid@) by {
            assert(!eclaimed_upto(fromg, out@.len() as int, to_rem@[j].uid@));
        }
    }
    (out, to_rem)
}

/// No to-entitlement is claimed by two from-entitlements.
pub proof fn lemma_entitlement_reconciliation_completeness(
    from: Seq<EntitlementData>,
    to: Seq<EntitlementData>,
    out: Seq<SyncedEntitlements>,
    rem: Seq<EntitlementData>,
)
    requires
        unique_edata_uids(to),
        entitlements_paired(from, to, out, rem),
    ensures
        forall|i: int, j: int| #![trigger out[i], out[j]]
            0 <= i < j < out.len() && out[i].to is Some && out[j].to is Some ==> out[i].to->0.uid@
                != out[j].to->0.uid@,
{
    assert forall|i: int, j: int| #![trigger out[i], out[j]]
        0 <= i < j < out.len() && out[i].to is Some && out[j].to is Some implies out[i].to->0.uid@
        != out[j].to->0.uid@ by {
        let ki = from[i].syncs_to_entitlement@;
        let kj = from[j].syncs_to_entitlement@;
        assert(efirst_claim(from, i) && efirst_claim(from, j));
        assert(ki != kj);
        let ti = edata_at(to, ki);
        let tj = edata_at(to, kj);
        assert(ti.uid@ == ki && tj.uid@ == kj);
        assert(marked_entitlement(ti, from[i], out[i].to->0));
        assert(marked_entitlement(tj, from[j], out[j].to->0));
    }
}

/// A match carries exactly the counterpart identifier its from-entitlement
/// names.
pub proof fn lemma_entitlement_match_carries_counterpart(
    from: Seq<EntitlementData>,
    to: Seq<EntitlementData>,
    out: Seq<SyncedEntitlements>,
    rem: Seq<EntitlementData>,
    i: int,
)
    requires
        unique_edata_uids(to),
        entitlements_paired(from, to, out, rem),
        0 <= i < out.len(),
        out[i].to is Some,
    ensures
        out[i].to->0.uid@ == from[i].syncs_to_entitlement@,
{
    let key = from[i].syncs_to_entitlement@;
    assert(has_edata_uid(to, key));
    let w = choose|w: int| 0 <= w < to.len() && (#[trigger] to[w]).uid@ == key;
    assert(edata_at(to, key).uid@ == key);
    assert(marked_entitlement(edata_at(to, key), from[i], out[i].to->0));
}

/// `x` is a record of `orig` at or after position `lo`, and no later record
/// of `orig` carries its identifier.
pub open spec fn kept_from_edata(orig: Seq<EntitlementData>, lo: int, x: EntitlementData) -> bool {
    exists|i: int|
        lo <= i < orig.len() && x == #[trigger] orig[i] && (forall|i2: int|
            i < i2 < orig.len() ==> (#[trigger] orig[i2]).uid@ != orig[i].uid@)
}

/// Exactly the relation the to-side entitlement dedup establishes.
pub open spec fn dedup_edata_rel(input: Seq<EntitlementData>, out: Seq<EntitlementData>) -> bool {
    &&& unique_edata_uids(out)
    &&& forall|j: int| 0 <= j < out.len() ==> kept_from_edata(input, 0, #[trigger] out[j])
    &&& forall|i: int| 0 <= i < input.len() ==> has_edata_uid(out, (#[trigger] input[i]).uid@)
}

/// Collapses duplicate identifiers among to-side entitlement records: of
/// several records carrying one identifier the last wins.
pub fn dedup_entitlement_data(input: Vec<EntitlementData>) -> (r: Vec<EntitlementData>)
    ensures
        dedup_edata_rel(input@, r@),
{
    let ghost orig = input@;
    let mut input = input;
    let mut r: Vec<EntitlementData> = Vec::new();
    while input.len() > 0
        invariant
            input@ =~= orig.take(input@.len() as int),
            input@.len() <= orig.len(),
            unique_edata_uids(r@),
            forall|j: int|
                0 <= j < r@.len() ==> kept_from_edata(orig, input@.len() as int, #[trigger] r@[j]),
            forall|i: int|
                input@.len() <= i < orig.len() ==> has_edata_uid(
                    r@,
                    (#[trigger] orig[i]).uid@,
                ),
        decreases input@.len(),
    {
        let ghost m = input@.len() as int;
        let ghost r_pre = r@;
        let a = input.pop().unwrap();
        proof {
            assert(a == orig[m - 1]);
            assert(input@ =~= orig.take(m - 1));
        }
        let mut present = false;
        let mut w: usize = 0;
        while w < r.len()
            invariant
                0 <= w <= r@.len(),
                a == orig[m - 1],
                present == exists|x: int| 0 <= x < w && (#[trigger] r@[x]).uid@ == a.uid@,
            decreases r@.len() - w,
        {
            if r[w].uid.eq(&a.uid) {
                present = true;
            }
            w += 1;
        }
        if !present {
            r.push(a);
            proof {
                assert forall|x: int, y: int| #![trigger r@[x], r@[y]]
                    0 <= x < y < r@.len() implies r@[x].uid@ != r@[y].uid@ by {
                    if y < r@.len() - 1 {
                        assert(r_pre[x].uid@ != r_pre[y].uid@);
                    } else {
                        if r@[x].uid@ == r@[y].uid@ {
                            assert(has_edata_uid(r_pre, orig[m - 1].uid@));
                        }
                    }
                }
                assert forall|i2: int| m - 1 < i2 < orig.len() implies (#[trigger] orig[i2]).uid@
                    != orig[m - 1].uid@ by {
                    if orig[i2].uid@ == orig[m - 1].uid@ {
                        assert(has_edata_uid(r_pre, orig[i2].uid@));
                    }
                }
                assert forall|j: int| 0 <= j < r@.len() implies kept_from_edata(
                    orig,
                    m - 1,
                    #[trigger] r@[j],
                ) by {
                    if j < r@.len() - 1 {
                        let i = choose|i: int|
                            m <= i < orig.len() && r_pre[j] == #[trigger] orig[i] && (forall|
                                i2: int,
                            |
                                i < i2 < orig.len() ==> (#[trigger] orig[i2]).uid@
                                    != orig[i].uid@);
                        assert(r@[j] == orig[i]);
                    } else {
                        assert(r@[j] == orig[m - 1]);
                    }
                }
                assert forall|i: int| m - 1 <= i < orig.len() implies has_edata_uid(
                    r@,
                    (#[trigger] orig[i]).uid@,
                ) by {
                    if i >= m {
                        let x = choose|x: int|
                            0 <= x < r_pre.len() && (#[trigger] r_pre[x]).uid@ == orig[i].uid@;
                        assert(r@[x].uid@ == orig[i].uid@);
                    } else {
                        assert(r@[r@.len() - 1].uid@ == orig[m - 1].uid@);
                    }
                }
            }
        } else {
            proof {
                assert(has_edata_uid(r@, orig[m - 1].uid@));
                assert forall|j: int| 0 <= j < r@.len() implies kept_from_edata(
                    orig,
                    m - 1,
                    #[trigger] r@[j],
                ) by {
                    let i = choose|i: int|
                        m <= i < orig.len() && r@[j] == #[trigger] orig[i] && (forall|i2: int|
                            i < i2 < orig.len() ==> (#[trigger] orig[i2]).uid@ != orig[i].uid@);
                }
            }
        }
    }
    r
}

/// Ephemeral result of one entitlement reconciliation.
pub struct SyncedEntitlementSet {
    pub sync: Option<(String, String)>,
    pub synced_from_to: Vec<(String, Vec<SyncedEntitlements>)>,
    pub nosync_to: Vec<EntitlementData>,
}

/// Some tagged collection carries the key.
pub open spec fn has_egroup(s: Seq<(String, Vec<EntitlementData>)>, k: Seq<char>) -> bool {
    exists|i: int| 0 <= i < s.len() && (#[trigger] s[i]).0@ == k
}

/// The tagged collection carrying the key.
pub open spec fn egroup_at(s: Seq<(String, Vec<EntitlementData>)>, k: Seq<char>) -> (
    String,
    Vec<EntitlementData>,
)
    recommends
        has_egroup(s, k),
{
    s[choose|i: int| 0 <= i < s.len() && (#[trigger] s[i]).0@ == k]
}

/// No two tagged collections carry the same key.
pub open spec fn unique_egroup_keys(s: Seq<(String, Vec<EntitlementData>)>) -> bool {
    forall|i: int, j: int| #![trigger s[i], s[j]] 0 <= i < j < s.len() ==> s[i].0@ != s[j].0@
}

/// The configured pair names two distinct tagged collections, both present.
pub open spec fn esync_active(
    ents: Seq<(String, Vec<EntitlementData>)>,
    sync: Option<(String, String)>,
) -> bool {
    match sync {
        Some(p) => p.0@ != p.1@ && has_egroup(ents, p.0@) && has_egroup(ents, p.1@),
        None => false,
    }
}

/// Every record kept in order, none with a counterpart.
pub open spec fn all_eunpaired(src: Seq<EntitlementData>, out: Seq<SyncedEntitlements>) -> bool {
    &&& out.len() == src.len()
    &&& forall|i: int|
        0 <= i < src.len() ==> (#[trigger] out[i]).from == src[i] && out[i].to is None
}

/// `x` is a collection of `orig` whose key is neither of the pair's two.
pub open spec fn in_egroups_excl(
    orig: Seq<(String, Vec<EntitlementData>)>,
    fk: Seq<char>,
    tk: Seq<char>,
    x: (String, Vec<EntitlementData>),
) -> bool {
    exists|i: int|
        0 <= i < orig.len() && x == #[trigger] orig[i] && orig[i].0@ != fk && orig[i].0@ != tk
}

/// `e` keeps one collection of `orig` whose key is neither of the pair's
/// two, every record unpaired.
pub open spec fn eentry_unpaired_from(
    orig: Seq<(String, Vec<EntitlementData>)>,
    fk: Seq<char>,
    tk: Seq<char>,
    e: (String, Vec<SyncedEntitlements>),
) -> bool {
    exists|i: int|
        0 <= i < orig.len() && e.0 == (#[trigger] orig[i]).0 && orig[i].0@ != fk && orig[i].0@
            != tk && all_eunpaired(orig[i].1@, e.1@)
}

/// `rest` holds exactly the collections of `orig` whose keys are neither of
/// the pair's two, every record unpaired.
pub open spec fn erest_unpaired(
    ents: Seq<(String, Vec<EntitlementData>)>,
    p0: Seq<char>,
    p1: Seq<char>,
    synced: Seq<(String, Vec<SyncedEntitlements>)>,
    lo: int,
) -> bool {
    &&& forall|k: int|
        lo <= k < synced.len() ==> eentry_unpaired_from(ents, p0, p1, #[trigger] synced[k])
    &&& forall|i: int|
        0 <= i < ents.len() && (#[trigger] ents[i]).0@ != p0 && ents[i].0@ != p1 ==> exists|
            k: int,
        | lo <= k < synced.len() && (#[trigger] synced[k]).0@ == ents[i].0@
}

/// `rest` holds exactly the collections of `orig` whose keys are neither of
/// the pair's two, values unchanged.
pub open spec fn other_egroups(
    orig: Seq<(String, Vec<EntitlementData>)>,
    fk: Seq<char>,
    tk: Seq<char>,
    rest: Seq<(String, Vec<EntitlementData>)>,
) -> bool {
    &&& forall|j: int| 0 <= j < rest.len() ==> in_egroups_excl(orig, fk, tk, #[trigger] rest[j])
    &&& forall|i: int|
        0 <= i < orig.len() && (#[trigger] orig[i]).0@ != fk && orig[i].0@ != tk ==> has_egroup(
            rest,
            orig[i].0@,
        )
}

/// First tagged collection carrying the key.
fn find_egroup(ents: &Vec<(String, Vec<EntitlementData>)>, k: &String) -> (r: Option<usize>)
    ensures
        match r {
            Some(j) => j < ents@.len() && ents@[j as int].0@ == k@,
            None => !has_egroup(ents@, k@),
        },
{
    let mut j: usize = 0;
    while j < ents.len()
        invariant
            0 <= j <= ents@.len(),
            forall|m: int| 0 <= m < j ==> (#[trigger] ents@[m]).0@ != k@,
        decreases ents@.len() - j,
    {
        if ents[j].0.eq(k) {
            return Some(j);
        }
        j += 1;
    }
    None
}

/// Every record of the list, unpaired.
fn eunpaired_of(list: Vec<EntitlementData>) -> (r: Vec<SyncedEntitlements>)
    ensures
        all_eunpaired(list@, r@),
{
    let ghost orig = list@;
    let mut rest = list;
    let mut out: Vec<SyncedEntitlements> = Vec::new();
    while rest.len() > 0
        invariant
            out@.len() + rest@.len() == orig.len(),
            rest@ =~= orig.skip(out@.len() as int),
            forall|i: int|
                0 <= i < out@.len() ==> (#[trigger] out@[i]).from == orig[i] && out@[i].to
                    is None,
        decreases rest@.len(),
    {
        let ghost n = out@.len() as int;
        let f = rest.remove(0);
        out.push(SyncedEntitlements { from: f, to: None });
        proof {
            assert(rest@ =~= orig.skip(n + 1));
        }
    }
    out
}

/// Removes the pair's two collections from the working list, returning them;
/// what stays are exactly the other collections, values unchanged.
fn remove_pair_egroups(
    ents: &mut Vec<(String, Vec<EntitlementData>)>,
    fk: &String,
    tk: &String,
) -> (r: ((String, Vec<EntitlementData>), (String, Vec<EntitlementData>)))
    requires
        unique_egroup_keys(old(ents)@),
        fk@ != tk@,
        has_egroup(old(ents)@, fk@),
        has_egroup(old(ents)@, tk@),
    ensures
        r.0 == egroup_at(old(ents)@, fk@),
        r.1 == egroup_at(old(ents)@, tk@),
        final(ents)@.len() == old(ents)@.len() - 2,
        other_egroups(old(ents)@, fk@, tk@, final(ents)@),
{
    let ghost entsg = old(ents)@;
    let fi = match find_egroup(ents, fk) {
        Some(j) => j,
        None => {
            proof {
                assert(false);
            }
            0
        },
    };
    let fe = ents.remove(fi);
    let ghost mid = ents@;
    proof {
        assert(fe == entsg[fi as int]);
        let cf = choose|i: int| 0 <= i < entsg.len() && (#[trigger] entsg[i]).0@ == fk@;
        assert(cf == fi);
        assert(egroup_at(entsg, fk@) == fe);
        let t0 = choose|i: int| 0 <= i < entsg.len() && (#[trigger] entsg[i]).0@ == tk@;
        if t0 < fi {
            assert(mid[t0] == entsg[t0]);
        } else {
            assert(t0 != fi);
            assert(mid[t0 - 1] == entsg[t0]);
        }
        assert(has_egroup(mid, tk@));
    }
    let ti = match find_egroup(ents, tk) {
        Some(j) => j,
        None => {
            proof {
                assert(false);
            }
            0
        },
    };
    let te = ents.remove(ti);
    proof {
        assert(te == mid[ti as int]);
        let t0 = choose|i: int| 0 <= i < entsg.len() && (#[trigger] entsg[i]).0@ == tk@;
        let torig: int = if ti < fi {
            ti as int
        } else {
            ti + 1
        };
        assert(mid[ti as int] == entsg[torig]);
        assert(t0 == torig);
        assert(egroup_at(entsg, tk@) == te);
        assert forall|j: int| 0 <= j < ents@.len() implies in_egroups_excl(
            entsg,
            fk@,
            tk@,
            #[trigger] ents@[j],
        ) by {
            let i1: int = if j < ti {
                j
            } else {
                j + 1
            };
            let i0: int = if i1 < fi {
                i1
            } else {
                i1 + 1
            };
            assert(ents@[j] == mid[i1]);
            assert(mid[i1] == entsg[i0]);
            assert(i0 != fi && i0 != torig);
        }
        assert forall|i: int|
            0 <= i < entsg.len() && (#[trigger] entsg[i]).0@ != fk@ && entsg[i].0@ != tk@
            implies has_egroup(ents@, entsg[i].0@) by {
            assert(i != fi && i != torig);
            let i1: int = if i < fi {
                i
            } else {
                i - 1
            };
            assert(mid[i1] == entsg[i]);
            let j: int = if i1 < ti {
                i1
            } else {
                i1 - 1
            };
            assert(ents@[j] == mid[i1]);
            assert(ents@[j].0@ == entsg[i].0@);
        }
        assert(other_egroups(entsg, fk@, tk@, ents@));
    }
    (fe, te)
}

impl SyncedEntitlementSet {
    /// Builds the reconciliation of tagged entitlement collections, exactly
    /// as the account reconciliation does for accounts.
    #[verifier::rlimit(50)]
    pub fn from(ents: Vec<(String, Vec<EntitlementData>)>, sync: Option<(String, String)>) -> (r:
        Self)
        requires
            unique_egroup_keys(ents@),
        ensures
            !esync_active(ents@, sync) ==> r.sync is None && r.nosync_to@.len() == 0
                && r.synced_from_to@.len() == ents@.len() && (forall|k: int|
                0 <= k < ents@.len() ==> (#[trigger] r.synced_from_to@[k]).0
                    == (#[trigger] ents@[k]).0 && all_eunpaired(
                    ents@[k].1@,
                    r.synced_from_to@[k].1@,
                )),
            esync_active(ents@, sync) ==> {
                let p = sync->0;
                let p0 = p.0@;
                let p1 = p.1@;
                &&& r.sync == sync
                &&& r.synced_from_to@.len() == ents@.len() - 1
                &&& r.synced_from_to@[0].0@ == p0
                &&& exists|kept_to: Seq<EntitlementData>|
                    #[trigger] dedup_edata_rel(egroup_at(ents@, p1).1@, kept_to)
                        && entitlements_paired(
                        egroup_at(ents@, p0).1@,
                        kept_to,
                        r.synced_from_to@[0].1@,
                        r.nosync_to@,
                    )
                &&& erest_unpaired(ents@, p0, p1, r.synced_from_to@, 1)
            },
    {
        let ghost entsg = ents@;
        let mut ents = ents;
        let mut result_sync: Option<(String, String)> = None;
        let mut synced: Vec<(String, Vec<SyncedEntitlements>)> = Vec::new();
        let mut nosync_to: Vec<EntitlementData> = Vec::new();
        let mut active = false;
        if let Some(p) = &sync {
            if !p.0.eq(&p.1) {
                if find_egroup(&ents, &p.0).is_some() && find_egroup(&ents, &p.1).is_some() {
                    active = true;
                }
            }
        }
        proof {
            assert(active == esync_active(entsg, sync));
        }
        let ghost mut kept_tog: Seq<EntitlementData> = Seq::<EntitlementData>::empty();
        if active {
            let (fk, tk) = match sync {
                Some(p) => p,
                None => {
                    proof {
                        assert(false);
                    }
                    (String::new(), String::new())
                },
            };
            let (fe, te) = remove_pair_egroups(&mut ents, &fk, &tk);
            let kept_to = dedup_entitlement_data(te.1);
            proof {
                kept_tog = kept_to@;
            }
            proof {
                assert(dedup_edata_rel(egroup_at(entsg, tk@).1@, kept_tog));
            }
            let (pairs, rem) = pair_entitlements(fe.1, kept_to);
            result_sync = Some((fk.clone(), tk.clone()));
            synced.push((fk, pairs));
            nosync_to = rem;
            proof {
                assert(synced@[0].0@ == fk@);
                assert(entitlements_paired(
                    egroup_at(entsg, fk@).1@,
                    kept_tog,
                    synced@[0].1@,
                    nosync_to@,
                ));
            }
        }
        let ghost base = synced@;
        let ghost work = ents@;
        let mut rest = ents;
        while rest.len() > 0
            invariant
                base.len() <= synced@.len(),
                synced@.len() - base.len() <= work.len(),
                rest@ =~= work.skip(synced@.len() - base.len()),
                forall|k: int| 0 <= k < base.len() ==> #[trigger] synced@[k] == base[k],
                forall|k: int|
                    base.len() <= k < synced@.len() ==> (#[trigger] synced@[k]).0 == work[k
                        - base.len()].0 && all_eunpaired(work[k - base.len()].1@, synced@[k].1@),
            decreases rest@.len(),
        {
            let ghost done = synced@.len() - base.len();
            let ghost syn_pre = synced@;
            let ghost rest_pre = rest@;
            let (k, list) = rest.remove(0);
            let up = eunpaired_of(list);
            synced.push((k, up));
            proof {
                assert((k, list) == rest_pre[0]);
                assert(rest_pre[0] == work[done]);
                assert(rest@ =~= work.skip(done + 1));
                assert forall|kk: int| 0 <= kk < base.len() implies #[trigger] synced@[kk]
                    == base[kk] by {
                    assert(synced@[kk] == syn_pre[kk]);
                }
                assert(synced@[synced@.len() - 1] == (k, up));
                assert(synced@[synced@.len() - 1].0 == work[done].0);
                assert(all_eunpaired(work[done].1@, up@));
            }
        }
        let r = SyncedEntitlementSet { sync: result_sync, synced_from_to: synced, nosync_to };
        proof {
            if esync_active(entsg, sync) {
                let sp = sync->0;
                let q0 = sp.0@;
                let q1 = sp.1@;
                assert(other_egroups(entsg, q0, q1, work));
                assert(base.len() == 1);
                assert(synced@.len() - 1 == work.len());
                assert(r.sync == sync);
                assert(r.synced_from_to@[0] == base[0]);
                assert(r.synced_from_to@[0].0@ == q0);
                assert(r.synced_from_to@.len() == entsg.len() - 1);
                assert(r.synced_from_to@[0].1@ == base[0].1@);
                assert(dedup_edata_rel(egroup_at(entsg, q1).1@, kept_tog));
                assert(entitlements_paired(
                    egroup_at(entsg, q0).1@,
                    kept_tog,
                    r.synced_from_to@[0].1@,
                    r.nosync_to@,
                ));
                assert forall|k: int| 1 <= k < r.synced_from_to@.len() implies eentry_unpaired_from(
                    entsg,
                    q0,
                    q1,
                    #[trigger] r.synced_from_to@[k],
                ) by {
                    let j = k - 1;
                    assert(synced@[k].0 == work[j].0 && all_eunpaired(work[j].1@, synced@[k].1@));
                    assert(in_egroups_excl(entsg, q0, q1, work[j]));
                    let i = choose|i: int|
                        0 <= i < entsg.len() && work[j] == #[trigger] entsg[i] && entsg[i].0@
                            != q0 && entsg[i].0@ != q1;
                    assert(r.synced_from_to@[k].0 == entsg[i].0);
                    assert(all_eunpaired(entsg[i].1@, r.synced_from_to@[k].1@));
                }
                assert forall|i: int|
                    0 <= i < entsg.len() && (#[trigger] entsg[i]).0@ != q0 && entsg[i].0@ != q1
                    implies exists|k: int|
                    1 <= k < r.synced_from_to@.len() && (#[trigger] r.synced_from_to@[k]).0@
                        == entsg[i].0@ by {
                    assert(has_egroup(work, entsg[i].0@));
                    let j = choose|j: int|
                        0 <= j < work.len() && (#[trigger] work[j]).0@ == entsg[i].0@;
                    assert(synced@[j + 1].0 == work[j].0);
                    assert(1 <= j + 1 < r.synced_from_to@.len());
                    assert((#[trigger] r.synced_from_to@[j + 1]).0@ == entsg[i].0@);
                }
                assert(erest_unpaired(entsg, q0, q1, r.synced_from_to@, 1));
            }
        }
        r
    }
}

impl Default for SyncedAccountSet {
    /// An empty reconciliation result: no pair, no collections, no remainder.
    fn default() -> (r: Self)
        ensures
            r.sync is None,
            r.synced_from_to@.len() == 0,
            r.nosync_to@.len() == 0,
    {
        SyncedAccountSet { sync: None, synced_from_to: Vec::new(), nosync_to: Vec::new() }
    }
}

impl Default for SyncedEntitlementSet {
    /// An empty reconciliation result: no pair, no collections, no remainder.
    fn default() -> (r: Self)
        ensures
            r.sync is None,
            r.synced_from_to@.len() == 0,
            r.nosync_to@.len() == 0,
    {
        SyncedEntitlementSet { sync: None, synced_from_to: Vec::new(), nosync_to: Vec::new() }
    }
}

} // verus!
