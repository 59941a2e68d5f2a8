//! Membership-closure engine.
//!
//! Entitlements form a graph through their `memberof` lists: an edge from a
//! record to each parent it lists. This module normalizes reverse-expressed
//! membership into that parent-pointing form, and computes, for every
//! entitlement, the full transitive set of ancestor identifiers — every
//! identifier reachable from its direct parents by zero or more hops,
//! excluding the entitlement itself, even when the graph has cycles.
//! A parent identifier that no record carries is kept in the result but never
//! expanded: one dangling reference never fails a load.

use vstd::prelude::*;
use vstd::seq_lib::*;
use vstd::set_lib::lemma_len_subset;
use crate::dtos::EntitlementDTO;
use crate::vec_contains_str;
use crate::seq_has_str;

verus! {

/// The characters of each string of the list, in order.
pub open spec fn view_seq(v: Seq<String>) -> Seq<Seq<char>> {
    Seq::new(v.len(), |i: int| v[i]@)
}

/// The set of identifiers a list of strings holds.
pub open spec fn str_set(v: Seq<String>) -> Set<Seq<char>> {
    view_seq(v).to_set()
}

/// No two strings of the list hold the same characters.
pub open spec fn views_distinct(v: Seq<String>) -> bool {
    forall|i: int, j: int| #![trigger v[i], v[j]] 0 <= i < j < v.len() ==> v[i]@ != v[j]@
}

/// Membership in `str_set` is just `seq_has_str`.
pub proof fn lemma_str_set_has(v: Seq<String>)
    ensures
        forall|p: Seq<char>| #[trigger] str_set(v).contains(p) <==> seq_has_str(v, p),
{
    assert forall|p: Seq<char>| #[trigger] str_set(v).contains(p) <==> seq_has_str(v, p) by {
        if str_set(v).contains(p) {
            let i = choose|i: int| 0 <= i < view_seq(v).len() && #[trigger] view_seq(v)[i] == p;
            assert(v[i]@ == p);
        }
        if seq_has_str(v, p) {
            let i = choose|i: int| 0 <= i < v.len() && #[trigger] v[i]@ == p;
            assert(view_seq(v)[i] == p);
            assert(view_seq(v).contains(p));
        }
    }
}

/// The plain strings of an optional membership list.
pub open spec fn member_list_strings(l: Option<Vec<String>>) -> Seq<String> {
    match l {
        Some(v) => v@,
        None => Seq::<String>::empty(),
    }
}

/// The identifiers of an optional membership list, in order.
pub open spec fn member_list_view(l: Option<Vec<String>>) -> Seq<Seq<char>> {
    view_seq(member_list_strings(l))
}

/// The set of parent identifiers an entitlement record lists directly.
pub open spec fn direct_parents(e: EntitlementDTO) -> Set<Seq<char>> {
    member_list_view(e.memberof).to_set()
}

/// Some record of the collection carries `id`.
pub open spec fn has_ent(ents: Seq<EntitlementDTO>, id: Seq<char>) -> bool {
    exists|i: int| 0 <= i < ents.len() && #[trigger] ents[i].unique_id@ == id
}

/// No two records of the collection carry the same identifier.
pub open spec fn unique_ids(ents: Seq<EntitlementDTO>) -> bool {
    forall|i: int, j: int| #![trigger ents[i], ents[j]]
        0 <= i < j < ents.len() ==> ents[i].unique_id@ != ents[j].unique_id@
}

/// The record of the collection carrying `id`.
pub open spec fn ent_at(ents: Seq<EntitlementDTO>, id: Seq<char>) -> EntitlementDTO
    recommends
        has_ent(ents, id),
{
    ents[choose|i: int| 0 <= i < ents.len() && #[trigger] ents[i].unique_id@ == id]
}

/// The parents of `id` in the graph: what its record lists directly, and
/// nothing when no record carries `id`.
pub open spec fn parents_of(ents: Seq<EntitlementDTO>, id: Seq<char>) -> Set<Seq<char>> {
    if has_ent(ents, id) {
        direct_parents(ent_at(ents, id))
    } else {
        Set::<Seq<char>>::empty()
    }
}

/// `id` lies within `n` parent hops of the source set.
pub open spec fn reaches_in(
    ents: Seq<EntitlementDTO>,
    src: Set<Seq<char>>,
    id: Seq<char>,
    n: nat,
) -> bool
    decreases n,
{
    if n == 0 {
        src.contains(id)
    } else {
        reaches_in(ents, src, id, (n - 1) as nat) || exists|mid: Seq<char>|
            reaches_in(ents, src, mid, (n - 1) as nat) && #[trigger] parents_of(
                ents,
                mid,
            ).contains(id)
    }
}

/// `id` is reachable from the source set by zero or more parent hops.
pub open spec fn reachable(ents: Seq<EntitlementDTO>, src: Set<Seq<char>>, id: Seq<char>) -> bool {
    exists|n: nat| reaches_in(ents, src, id, n)
}

/// The full transitive ancestor set of `e` within the collection: every
/// identifier reachable from its direct parents, excluding `e` itself.
pub open spec fn ancestor_closure(ents: Seq<EntitlementDTO>, e: EntitlementDTO) -> Set<Seq<char>> {
    Set::new(|id: Seq<char>| reachable(ents, direct_parents(e), id) && id != e.unique_id@)
}

/// The two records agree on everything but the normalized `memberof` list.
pub open spec fn same_except_memberof(a: EntitlementDTO, b: EntitlementDTO) -> bool {
    &&& b.unique_id == a.unique_id
    &&& b.display_name == a.display_name
    &&& b.description == a.description
    &&& b.created == a.created
    &&& b.all_indirect_memberof == a.all_indirect_memberof
    &&& b.members == a.members
    &&& b.member_groups == a.member_groups
    &&& b.ou == a.ou
    &&& b.other_attributes == a.other_attributes
    &&& b.ts_owners == a.ts_owners
}

/// The two records agree on everything but the derived ancestor list.
pub open spec fn same_except_indirect(a: EntitlementDTO, b: EntitlementDTO) -> bool {
    &&& b.unique_id == a.unique_id
    &&& b.display_name == a.display_name
    &&& b.description == a.description
    &&& b.created == a.created
    &&& b.memberof == a.memberof
    &&& b.members == a.members
    &&& b.member_groups == a.member_groups
    &&& b.ou == a.ou
    &&& b.other_attributes == a.other_attributes
    &&& b.ts_owners == a.ts_owners
}

/// Identifiers of the records that list `id` in their reverse membership
/// attribute: the parents `id` ends up with after inversion. A self
/// reference — a record listing its own identifier — is skipped.
pub open spec fn inverted_parents(ents: Seq<EntitlementDTO>, id: Seq<char>) -> Set<Seq<char>> {
    Set::new(
        |p: Seq<char>|
            p != id && exists|k: int|
                0 <= k < ents.len() && #[trigger] ents[k].unique_id@ == p && member_list_view(
                    ents[k].member_groups,
                ).contains(id),
    )
}

/// Some record not carrying `id` itself lists `id` in its reverse membership
/// attribute.
pub open spec fn listed_as_member_group(ents: Seq<EntitlementDTO>, id: Seq<char>) -> bool {
    exists|k: int|
        0 <= k < ents.len() && ents[k].unique_id@ != id && #[trigger] member_list_view(
            ents[k].member_groups,
        ).contains(id)
}

/// Membership test on an optional list of identifiers.
fn opt_list_contains(l: &Option<Vec<String>>, s: &String) -> (b: bool)
    ensures
        b == member_list_view(*l).contains(s@),
{
    let r = match l {
        Some(v) => vec_contains_str(v, s),
        None => false,
    };
    proof {
        if let Some(v) = l {
            let mv = member_list_view(*l);
            if seq_has_str(v@, s@) {
                let i = choose|i: int| 0 <= i < v@.len() && #[trigger] v@[i]@ == s@;
                assert(mv[i] == s@);
            } else {
                assert forall|i: int| 0 <= i < mv.len() implies #[trigger] mv[i] != s@ by {
                    assert(v@[i]@ != s@);
                }
            }
        }
    }
    r
}

/// The strings of an optional membership list, copied out.
fn clone_opt_list(l: &Option<Vec<String>>) -> (r: Vec<String>)
    ensures
        r@ =~= member_list_strings(*l),
{
    match l {
        Some(v) => {
            let mut r: Vec<String> = Vec::new();
            let mut k: usize = 0;
            while k < v.len()
                invariant
                    0 <= k <= v.len(),
                    r@.len() == k,
                    forall|m: int| 0 <= m < k ==> r@[m] == v@[m],
                decreases v.len() - k,
            {
                r.push(v[k].clone());
                k += 1;
            }
            r
        },
        None => Vec::new(),
    }
}

/// Every identifier any record of the collection lists as a parent.
pub open spec fn all_parent_ids(ents: Seq<EntitlementDTO>) -> Seq<Seq<char>>
    decreases ents.len(),
{
    if ents.len() == 0 {
        Seq::<Seq<char>>::empty()
    } else {
        all_parent_ids(ents.drop_last()) + member_list_view(ents.last().memberof)
    }
}

/// Each record's parent list lies inside the collection's parent universe.
proof fn lemma_parent_ids_in_universe(ents: Seq<EntitlementDTO>, i: int)
    requires
        0 <= i < ents.len(),
    ensures
        forall|x: Seq<char>|
            member_list_view(ents[i].memberof).contains(x) ==> #[trigger] all_parent_ids(
                ents,
            ).to_set().contains(x),
    decreases ents.len(),
{
    let uni = all_parent_ids(ents);
    if i == ents.len() - 1 {
        assert forall|x: Seq<char>| member_list_view(ents[i].memberof).contains(x)
            implies #[trigger] uni.to_set().contains(x) by {
            let b = member_list_view(ents.last().memberof);
            let j = choose|j: int| 0 <= j < b.len() && #[trigger] b[j] == x;
            assert(uni == all_parent_ids(ents.drop_last()) + b);
            assert(uni[all_parent_ids(ents.drop_last()).len() + j] == x);
            assert(uni.contains(x));
        }
    } else {
        lemma_parent_ids_in_universe(ents.drop_last(), i);
        assert(ents.drop_last()[i] == ents[i]);
        assert forall|x: Seq<char>| member_list_view(ents[i].memberof).contains(x)
            implies #[trigger] uni.to_set().contains(x) by {
            let a = all_parent_ids(ents.drop_last());
            assert(a.to_set().contains(x));
            let j = choose|j: int| 0 <= j < a.len() && #[trigger] a[j] == x;
            assert(uni == a + member_list_view(ents.last().memberof));
            assert(uni[j] == x);
            assert(uni.contains(x));
        }
    }
}

/// With unique identifiers, the record found at an index is the record the
/// graph lookup yields for its identifier.
proof fn lemma_ent_at_index(ents: Seq<EntitlementDTO>, j: int)
    requires
        unique_ids(ents),
        0 <= j < ents.len(),
    ensures
        has_ent(ents, ents[j].unique_id@),
        ent_at(ents, ents[j].unique_id@) == ents[j],
        parents_of(ents, ents[j].unique_id@) == direct_parents(ents[j]),
{
    let id = ents[j].unique_id@;
    assert(has_ent(ents, id));
    let w = choose|i: int| 0 <= i < ents.len() && #[trigger] ents[i].unique_id@ == id;
    assert(w == j);
}

/// One more hop from a reachable identifier stays reachable.
proof fn lemma_reachable_step(
    ents: Seq<EntitlementDTO>,
    src: Set<Seq<char>>,
    mid: Seq<char>,
    p: Seq<char>,
)
    requires
        reachable(ents, src, mid),
        parents_of(ents, mid).contains(p),
    ensures
        reachable(ents, src, p),
{
    let n = choose|n: nat| reaches_in(ents, src, mid, n);
    assert(reaches_in(ents, src, p, n + 1));
}

/// A set that contains the sources and is closed under parent hops — except
/// through one identifier whose own parents lie among the sources — contains
/// everything reachable, apart from that identifier.
proof fn lemma_visited_complete(
    ents: Seq<EntitlementDTO>,
    src: Set<Seq<char>>,
    eid: Seq<char>,
    vset: Set<Seq<char>>,
    id: Seq<char>,
    n: nat,
)
    requires
        forall|p: Seq<char>| parents_of(ents, eid).contains(p) ==> src.contains(p),
        forall|x: Seq<char>| src.contains(x) ==> vset.contains(x) || x == eid,
        forall|x: Seq<char>, p: Seq<char>|
            vset.contains(x) && #[trigger] parents_of(ents, x).contains(p) ==> vset.contains(p)
                || p == eid,
        reaches_in(ents, src, id, n),
        id != eid,
    ensures
        vset.contains(id),
    decreases n,
{
    if n == 0 {
        assert(src.contains(id));
    } else {
        if reaches_in(ents, src, id, (n - 1) as nat) {
            lemma_visited_complete(ents, src, eid, vset, id, (n - 1) as nat);
        } else {
            let mid = choose|mid: Seq<char>|
                reaches_in(ents, src, mid, (n - 1) as nat) && #[trigger] parents_of(
                    ents,
                    mid,
                ).contains(id);
            if mid == eid {
                assert(src.contains(id));
            } else {
                lemma_visited_complete(ents, src, eid, vset, mid, (n - 1) as nat);
                assert(vset.contains(mid));
            }
        }
    }
}

/// First record of the collection carrying the given identifier.
pub fn find_ent(ents: &Vec<EntitlementDTO>, id: &String) -> (r: Option<usize>)
    ensures
        match r {
            Some(j) => j < ents@.len() && ents@[j as int].unique_id@ == id@,
            None => !has_ent(ents@, id@),
        },
{
    let mut j: usize = 0;
    while j < ents.len()
        invariant
            0 <= j <= ents@.len(),
            forall|m: int| 0 <= m < j ==> #[trigger] ents@[m].unique_id@ != id@,
        decreases ents@.len() - j,
    {
        if ents[j].unique_id.eq(id) {
            return Some(j);
        }
        j += 1;
    }
    None
}

/// Exactly the relation `calculate_memberof` establishes between its input
/// and its result: each record's `memberof` holds the identifiers of exactly
/// the records that list it among their reverse membership attribute — a
/// self reference is skipped — absent when no other record lists it, and
/// everything else about each record is kept.
pub open spec fn inversion_rel(input: Seq<EntitlementDTO>, out: Seq<EntitlementDTO>) -> bool {
    &&& out.len() == input.len()
    &&& forall|i: int| 0 <= i < input.len() ==> same_except_memberof(input[i], #[trigger] out[i])
    &&& forall|i: int|
        0 <= i < input.len() ==> member_list_view((#[trigger] out[i]).memberof).to_set()
            == inverted_parents(input, input[i].unique_id@)
    &&& forall|i: int|
        0 <= i < input.len() ==> (((#[trigger] out[i]).memberof) is None
            <==> !listed_as_member_group(input, input[i].unique_id@))
    &&& forall|i: int|
        0 <= i < input.len() ==> views_distinct(member_list_strings((#[trigger] out[i]).memberof))
}

/// Normalizes reverse-expressed membership: each record's `memberof` becomes
/// the identifiers of exactly the records that list it among their reverse
/// membership attribute, absent when no other record does; a record listing
/// its own identifier contributes nothing, a self edge being a no-op.
/// Everything else about each record is kept.
pub fn calculate_memberof(ents: Vec<EntitlementDTO>) -> (r: Vec<EntitlementDTO>)
    ensures
        inversion_rel(ents@, r@),
{
    let ghost orig = ents@;
    // First pass: collect, for every record, who lists it.
    let mut newmem: Vec<Option<Vec<String>>> = Vec::new();
    let mut i: usize = 0;
    while i < ents.len()
        invariant
            0 <= i <= ents@.len(),
            newmem@.len() == i,
            forall|m: int|
                0 <= m < i ==> member_list_view(#[trigger] newmem@[m]).to_set()
                    == inverted_parents(ents@, ents@[m].unique_id@),
            forall|m: int|
                0 <= m < i ==> ((#[trigger] newmem@[m]) is None <==> !listed_as_member_group(
                    ents@,
                    ents@[m].unique_id@,
                )),
            forall|m: int|
                0 <= m < i ==> views_distinct(member_list_strings(#[trigger] newmem@[m])),
        decreases ents@.len() - i,
    {
        let ghost my_id = ents@[i as int].unique_id@;
        let mut collected: Vec<String> = Vec::new();
        let mut k: usize = 0;
        while k < ents.len()
            invariant
                0 <= k <= ents@.len(),
                i < ents@.len(),
                my_id == ents@[i as int].unique_id@,
                views_distinct(collected@),
                str_set(collected@) =~= inverted_parents(ents@.take(k as int), my_id),
            decreases ents@.len() - k,
        {
            let ghost pre = collected@;
            let lists_me = opt_list_contains(&ents[k].member_groups, &ents[i].unique_id);
            let already = vec_contains_str(&collected, &ents[k].unique_id);
            let is_self = ents[k].unique_id.eq(&ents[i].unique_id);
            if lists_me && !already && !is_self {
                collected.push(ents[k].unique_id.clone());
            }
            proof {
                lemma_str_set_has(pre);
                lemma_str_set_has(collected@);
                let tk1 = ents@.take(k + 1);
                let tk = ents@.take(k as int);
                let kid = ents@[k as int].unique_id@;
                assert(is_self == (kid == my_id));
                if lists_me && !already && !is_self {
                    // Distinctness is kept: a string is only pushed when absent.
                    assert forall|a: int, b: int| 0 <= a < b < collected@.len()
                        implies collected@[a]@ != collected@[b]@ by {
                        if b < collected@.len() - 1 {
                            assert(pre[a]@ != pre[b]@);
                        } else {
                            assert(collected@[b]@ == kid);
                            assert(pre[a]@ != kid);
                        }
                    }
                }
                assert forall|p: Seq<char>| inverted_parents(tk1, my_id).contains(p)
                    implies str_set(collected@).contains(p) by {
                    let w = choose|w: int|
                        0 <= w < tk1.len() && #[trigger] tk1[w].unique_id@ == p
                            && member_list_view(tk1[w].member_groups).contains(my_id);
                    if w < k {
                        assert(tk[w] == ents@[w]);
                        assert(tk[w].unique_id@ == p && member_list_view(
                            tk[w].member_groups,
                        ).contains(my_id));
                        assert(inverted_parents(tk, my_id).contains(p));
                        assert(seq_has_str(pre, p));
                        let x = choose|x: int| 0 <= x < pre.len() && #[trigger] pre[x]@ == p;
                        assert(collected@[x]@ == p);
                        assert(seq_has_str(collected@, p));
                    } else {
                        assert(tk1[w] == ents@[k as int]);
                        assert(p == kid);
                        assert(lists_me);
                        assert(!is_self);
                        if already {
                            let x = choose|x: int| 0 <= x < pre.len() && #[trigger] pre[x]@ == p;
                            assert(collected@[x]@ == p);
                        } else {
                            let last = collected@.len() - 1;
                            assert(collected@[last]@ == p);
                        }
                        assert(seq_has_str(collected@, p));
                    }
                }
                assert forall|p: Seq<char>| str_set(collected@).contains(p)
                    implies inverted_parents(tk1, my_id).contains(p) by {
                    let x = choose|x: int|
                        0 <= x < collected@.len() && #[trigger] collected@[x]@ == p;
                    if x < pre.len() {
                        assert(pre[x]@ == p);
                        assert(seq_has_str(pre, p));
                        assert(str_set(pre).contains(p));
                        let w = choose|w: int|
                            0 <= w < tk.len() && #[trigger] tk[w].unique_id@ == p
                                && member_list_view(tk[w].member_groups).contains(my_id);
                        assert(tk1[w] == tk[w]);
                        assert(tk1[w].unique_id@ == p && member_list_view(
                            tk1[w].member_groups,
                        ).contains(my_id));
                    } else {
                        assert(collected@[x]@ == kid);
                        assert(!is_self);
                        assert(p != my_id);
                        assert(tk1[k as int] == ents@[k as int]);
                        assert(tk1[k as int].unique_id@ == p && member_list_view(
                            tk1[k as int].member_groups,
                        ).contains(my_id));
                    }
                }
                assert(str_set(collected@) =~= inverted_parents(tk1, my_id));
            }
            k += 1;
        }
        proof {
            assert(ents@.take(ents@.len() as int) =~= ents@);
            lemma_str_set_has(collected@);
            if collected@.len() > 0 {
                assert(seq_has_str(collected@, collected@[0]@));
                assert(inverted_parents(ents@, my_id).contains(collected@[0]@));
                let w = choose|w: int|
                    0 <= w < ents@.len() && #[trigger] ents@[w].unique_id@ == collected@[0]@
                        && member_list_view(ents@[w].member_groups).contains(my_id);
                assert(ents@[w].unique_id@ != my_id);
                assert(listed_as_member_group(ents@, my_id));
            } else {
                if listed_as_member_group(ents@, my_id) {
                    let w = choose|w: int|
                        0 <= w < ents@.len() && ents@[w].unique_id@ != my_id
                            && #[trigger] member_list_view(
                            ents@[w].member_groups,
                        ).contains(my_id);
                    assert(inverted_parents(ents@, my_id).contains(ents@[w].unique_id@));
                    assert(seq_has_str(collected@, ents@[w].unique_id@));
                }
            }
        }
        if collected.len() > 0 {
            newmem.push(Some(collected));
        } else {
            proof {
                assert(member_list_view(None::<Vec<String>>).to_set() =~= str_set(collected@));
            }
            newmem.push(None);
        }
        i += 1;
    }
    // Second pass: rebuild the records with the normalized lists.
    let ghost mems = newmem@;
    let mut rest = ents;
    let mut r: Vec<EntitlementDTO> = Vec::new();
    while rest.len() > 0
        invariant
            r@.len() + rest@.len() == orig.len(),
            newmem@.len() == rest@.len(),
            rest@ =~= orig.skip(r@.len() as int),
            newmem@ =~= mems.skip(r@.len() as int),
            mems.len() == orig.len(),
            forall|m: int| 0 <= m < r@.len() ==> same_except_memberof(orig[m], #[trigger] r@[m]),
            forall|m: int| 0 <= m < r@.len() ==> #[trigger] r@[m].memberof == mems[m],
        decreases rest@.len(),
    {
        let ghost n = r@.len() as int;
        let mut e = rest.remove(0);
        let m = newmem.remove(0);
        e.memberof = m;
        r.push(e);
        proof {
            assert(rest@ =~= orig.skip(n + 1));
            assert(newmem@ =~= mems.skip(n + 1));
        }
    }
    proof {
        assert forall|m: int| 0 <= m < orig.len() implies member_list_view(
            #[trigger] r@[m].memberof,
        ).to_set() == inverted_parents(orig, orig[m].unique_id@) by {
            assert(r@[m].memberof == mems[m]);
        }
        assert forall|m: int| 0 <= m < orig.len() implies ((#[trigger] r@[m].memberof) is None
            <==> !listed_as_member_group(orig, orig[m].unique_id@)) by {
            assert(r@[m].memberof == mems[m]);
        }
        assert forall|m: int| 0 <= m < orig.len() implies views_distinct(
            member_list_strings(#[trigger] r@[m].memberof),
        ) by {
            assert(r@[m].memberof == mems[m]);
        }
    }
    r
}

/// The ancestor closure of the record at `idx`: a worklist expansion over the
/// parent graph that never re-expands a visited identifier, so cycles
/// terminate, and that never records the record's own identifier.
fn closure_of_entitlement(ents: &Vec<EntitlementDTO>, idx: usize) -> (r: Vec<String>)
    requires
        unique_ids(ents@),
        idx < ents@.len(),
    ensures
        views_distinct(r@),
        str_set(r@) =~= ancestor_closure(ents@, ents@[idx as int]),
{
    let e_id: String = ents[idx].unique_id.clone();
    let mut queue: Vec<String> = clone_opt_list(&ents[idx].memberof);
    let mut visited: Vec<String> = Vec::new();
    let ghost src: Set<Seq<char>> = direct_parents(ents@[idx as int]);
    let ghost uni: Set<Seq<char>> = all_parent_ids(ents@).to_set();
    proof {
        seq_to_set_is_finite(all_parent_ids(ents@));
        lemma_parent_ids_in_universe(ents@, idx as int);
        lemma_str_set_has(queue@);
        assert(src =~= str_set(queue@));
        assert forall|q: int| 0 <= q < queue@.len() implies uni.contains(#[trigger] queue@[q]@)
            && reachable(ents@, src, queue@[q]@) by {
            assert(member_list_view(ents@[idx as int].memberof)[q] == queue@[q]@);
            assert(member_list_view(ents@[idx as int].memberof).contains(queue@[q]@));
            assert(src.contains(queue@[q]@));
            assert(reaches_in(ents@, src, queue@[q]@, 0));
        }
        assert(str_set(visited@) =~= Set::<Seq<char>>::empty());
    }
    while queue.len() > 0
        invariant
            unique_ids(ents@),
            idx < ents@.len(),
            e_id@ == ents@[idx as int].unique_id@,
            src == direct_parents(ents@[idx as int]),
            uni == all_parent_ids(ents@).to_set(),
            uni.finite(),
            visited@.len() <= uni.len(),
            views_distinct(visited@),
            forall|x: Seq<char>| #[trigger] str_set(visited@).contains(x) ==> uni.contains(x),
            forall|q: int| 0 <= q < queue@.len() ==> uni.contains(#[trigger] queue@[q]@),
            forall|q: int|
                0 <= q < queue@.len() ==> reachable(ents@, src, #[trigger] queue@[q]@),
            forall|x: Seq<char>| #[trigger]
                str_set(visited@).contains(x) ==> reachable(ents@, src, x) && x != e_id@,
            forall|x: Seq<char>|
                src.contains(x) ==> #[trigger] str_set(visited@).contains(x) || seq_has_str(
                    queue@,
                    x,
                ) || x == e_id@,
            forall|x: Seq<char>, p: Seq<char>|
                str_set(visited@).contains(x) && #[trigger] parents_of(ents@, x).contains(p)
                    ==> str_set(visited@).contains(p) || seq_has_str(queue@, p) || p == e_id@,
        decreases uni.len() - visited@.len(), queue@.len(),
    {
        let ghost q_pre = queue@;
        let ghost v_pre = visited@;
        let id = queue.pop().unwrap();
        proof {
            assert(id@ == q_pre[q_pre.len() - 1]@);
            assert forall|x: Seq<char>| seq_has_str(q_pre, x) && x != id@ implies seq_has_str(
                queue@,
                x,
            ) by {
                let q = choose|q: int| 0 <= q < q_pre.len() && #[trigger] q_pre[q]@ == x;
                assert(queue@[q]@ == x);
            }
        }
        let is_self = id.eq(&e_id);
        let seen = vec_contains_str(&visited, &id);
        if !is_self && !seen {
            visited.push(id.clone());
            proof {
                lemma_str_set_has(v_pre);
                lemma_str_set_has(visited@);
                assert(visited@[visited@.len() - 1]@ == id@);
                assert(seq_has_str(visited@, id@));
                assert(str_set(visited@).contains(id@));
                assert forall|x: Seq<char>| seq_has_str(v_pre, x) implies seq_has_str(
                    visited@,
                    x,
                ) by {
                    let w = choose|w: int| 0 <= w < v_pre.len() && #[trigger] v_pre[w]@ == x;
                    assert(visited@[w]@ == x);
                }
                assert forall|a: int, b: int| 0 <= a < b < visited@.len()
                    implies visited@[a]@ != visited@[b]@ by {
                    if b < visited@.len() - 1 {
                        assert(v_pre[a]@ != v_pre[b]@);
                    } else {
                        assert(visited@[b]@ == id@);
                        assert(v_pre[a]@ != id@);
                    }
                }
                // The new identifier is bounded by the universe, so the visit
                // count stays bounded.
                let vs = view_seq(visited@);
                assert(vs.no_duplicates());
                vs.unique_seq_to_set();
                assert forall|x: Seq<char>| vs.to_set().contains(x) implies uni.contains(x) by {
                    let w = choose|w: int| 0 <= w < vs.len() && #[trigger] vs[w] == x;
                    assert(visited@[w]@ == x);
                    if w < v_pre.len() {
                        assert(str_set(v_pre).contains(x));
                    } else {
                        assert(x == id@);
                    }
                }
                lemma_len_subset(vs.to_set(), uni);
                assert(visited@.len() <= uni.len());
                // The newly visited identifier is sound: it came off the
                // worklist, whose entries are all reachable.
                assert(reachable(ents@, src, q_pre[q_pre.len() - 1]@));
                assert forall|x: Seq<char>| #[trigger] str_set(visited@).contains(x)
                    implies reachable(ents@, src, x) && x != e_id@ && uni.contains(x) by {
                    let w = choose|w: int| 0 <= w < visited@.len() && #[trigger] visited@[w]@ == x;
                    if w < v_pre.len() {
                        assert(v_pre[w]@ == x);
                        assert(str_set(v_pre).contains(x));
                    } else {
                        assert(x == id@);
                    }
                }
            }
            let found = find_ent(ents, &id);
            match found {
                Some(j) => {
                    let mut parents = clone_opt_list(&ents[j].memberof);
                    let ghost ps = parents@;
                    proof {
                        lemma_ent_at_index(ents@, j as int);
                        lemma_parent_ids_in_universe(ents@, j as int);
                    }
                    queue.append(&mut parents);
                    proof {
                        assert forall|q: int| 0 <= q < queue@.len() implies uni.contains(
                            #[trigger] queue@[q]@,
                        ) && reachable(ents@, src, queue@[q]@) by {
                            if q < q_pre.len() - 1 {
                                assert(queue@[q]@ == q_pre[q]@);
                            } else {
                                let m = q - (q_pre.len() - 1);
                                assert(queue@[q] == ps[m]);
                                assert(member_list_view(ents@[j as int].memberof)[m] == ps[m]@);
                                assert(member_list_view(ents@[j as int].memberof).contains(
                                    ps[m]@,
                                ));
                                assert(parents_of(ents@, id@).contains(ps[m]@));
                                lemma_reachable_step(ents@, src, id@, ps[m]@);
                            }
                        }
                        assert forall|x: Seq<char>, p: Seq<char>|
                            str_set(visited@).contains(x) && #[trigger] parents_of(
                                ents@,
                                x,
                            ).contains(p) implies str_set(visited@).contains(p) || seq_has_str(
                            queue@,
                            p,
                        ) || p == e_id@ by {
                            lemma_str_set_has(v_pre);
                            lemma_str_set_has(visited@);
                            if seq_has_str(v_pre, x) {
                                if str_set(v_pre).contains(p) {
                                    let w = choose|w: int|
                                        0 <= w < v_pre.len() && #[trigger] v_pre[w]@ == p;
                                    assert(visited@[w]@ == p);
                                } else if seq_has_str(q_pre, p) {
                                    if p == id@ {
                                        assert(str_set(visited@).contains(p));
                                    } else {
                                        let w = choose|w: int|
                                            0 <= w < q_pre.len() && #[trigger] q_pre[w]@ == p;
                                        assert(w < q_pre.len() - 1);
                                        assert(queue@[w]@ == p);
                                        assert(seq_has_str(queue@, p));
                                    }
                                }
                            } else {
                                // x is the newly visited identifier: its
                                // parents were just appended to the worklist.
                                assert(x == id@);
                                assert(parents_of(ents@, id@) == direct_parents(
                                    ents@[j as int],
                                ));
                                let m = choose|m: int|
                                    0 <= m < member_list_view(ents@[j as int].memberof).len()
                                        && #[trigger] member_list_view(
                                        ents@[j as int].memberof,
                                    )[m] == p;
                                assert(queue@[q_pre.len() - 1 + m]@ == ps[m]@);
                                assert(seq_has_str(queue@, p));
                            }
                        }
                        assert forall|x: Seq<char>| src.contains(x) implies #[trigger] str_set(
                            visited@,
                        ).contains(x) || seq_has_str(queue@, x) || x == e_id@ by {
                            lemma_str_set_has(v_pre);
                            lemma_str_set_has(visited@);
                            if str_set(v_pre).contains(x) {
                                let w = choose|w: int|
                                    0 <= w < v_pre.len() && #[trigger] v_pre[w]@ == x;
                                assert(visited@[w]@ == x);
                            } else if seq_has_str(q_pre, x) {
                                if x == id@ {
                                    assert(str_set(visited@).contains(x));
                                } else {
                                    let w = choose|w: int|
                                        0 <= w < q_pre.len() && #[trigger] q_pre[w]@ == x;
                                    assert(w < q_pre.len() - 1);
                                    assert(queue@[w]@ == x);
                                    assert(seq_has_str(queue@, x));
                                }
                            }
                        }
                    }
                },
                None => {
                    proof {
                        assert(parents_of(ents@, id@) =~= Set::<Seq<char>>::empty());
                        lemma_str_set_has(v_pre);
                        lemma_str_set_has(visited@);
                        assert forall|x: Seq<char>, p: Seq<char>|
                            str_set(visited@).contains(x) && #[trigger] parents_of(
                                ents@,
                                x,
                            ).contains(p) implies str_set(visited@).contains(p) || seq_has_str(
                            queue@,
                            p,
                        ) || p == e_id@ by {
                            if seq_has_str(v_pre, x) {
                                if str_set(v_pre).contains(p) {
                                    let w = choose|w: int|
                                        0 <= w < v_pre.len() && #[trigger] v_pre[w]@ == p;
                                    assert(visited@[w]@ == p);
                                } else if seq_has_str(q_pre, p) {
                                    if p == id@ {
                                        assert(str_set(visited@).contains(p));
                                    }
                                }
                            } else {
                                assert(x == id@);
                                assert(parents_of(ents@, x).contains(p));
                                assert(false);
                            }
                        }
                        assert forall|x: Seq<char>| src.contains(x) implies #[trigger] str_set(
                            visited@,
                        ).contains(x) || seq_has_str(queue@, x) || x == e_id@ by {
                            if str_set(v_pre).contains(x) {
                                let w = choose|w: int|
                                    0 <= w < v_pre.len() && #[trigger] v_pre[w]@ == x;
                                assert(visited@[w]@ == x);
                            } else if seq_has_str(q_pre, x) {
                                if x == id@ {
                                    assert(str_set(visited@).contains(x));
                                }
                            }
                        }
                    }
                },
            }
        } else {
            proof {
                lemma_str_set_has(visited@);
                assert(str_set(visited@).contains(id@) || id@ == e_id@);
                assert forall|x: Seq<char>| src.contains(x) implies #[trigger] str_set(
                    visited@,
                ).contains(x) || seq_has_str(queue@, x) || x == e_id@ by {
                    if seq_has_str(q_pre, x) && x == id@ {
                        assert(str_set(visited@).contains(x) || x == e_id@);
                    }
                }
                assert forall|x: Seq<char>, p: Seq<char>|
                    str_set(visited@).contains(x) && #[trigger] parents_of(ents@, x).contains(p)
                    implies str_set(visited@).contains(p) || seq_has_str(queue@, p) || p
                    == e_id@ by {
                    if seq_has_str(q_pre, p) && p == id@ {
                        assert(str_set(visited@).contains(p) || p == e_id@);
                    }
                }
            }
        }
    }
    proof {
        lemma_ent_at_index(ents@, idx as int);
        let vset = str_set(visited@);
        assert forall|x: Seq<char>| ancestor_closure(ents@, ents@[idx as int]).contains(x)
            implies vset.contains(x) by {
            let n = choose|n: nat| reaches_in(ents@, src, x, n);
            lemma_visited_complete(ents@, src, e_id@, vset, x, n);
        }
        assert(str_set(visited@) =~= ancestor_closure(ents@, ents@[idx as int]));
    }
    visited
}

/// Exactly the relation `calculate_indirect_memberof` establishes between its
/// input and its result: every record kept as it was, except that its derived
/// ancestor list now holds its ancestor closure, free of duplicates.
pub open spec fn closure_pass(input: Seq<EntitlementDTO>, output: Seq<EntitlementDTO>) -> bool {
    &&& output.len() == input.len()
    &&& forall|i: int|
        0 <= i < input.len() ==> same_except_indirect(input[i], #[trigger] output[i])
    &&& forall|i: int|
        0 <= i < input.len() ==> str_set((#[trigger] output[i]).all_indirect_memberof@)
            == ancestor_closure(input, input[i])
    &&& forall|i: int|
        0 <= i < input.len() ==> views_distinct((#[trigger] output[i]).all_indirect_memberof@)
}

/// Computes, for every record, the full transitive set of ancestor
/// identifiers over the `memberof` graph, and stores it in the record's
/// derived ancestor list. Cycles terminate; a record is never its own
/// ancestor; dangling parent identifiers are kept but not expanded.
pub fn calculate_indirect_memberof(ents: Vec<EntitlementDTO>) -> (r: Vec<EntitlementDTO>)
    requires
        unique_ids(ents@),
    ensures
        closure_pass(ents@, r@),
{
    let ghost orig = ents@;
    let mut closures: Vec<Vec<String>> = Vec::new();
    let mut i: usize = 0;
    while i < ents.len()
        invariant
            unique_ids(ents@),
            0 <= i <= ents@.len(),
            closures@.len() == i,
            forall|m: int|
                0 <= m < i ==> str_set((#[trigger] closures@[m])@) == ancestor_closure(
                    ents@,
                    ents@[m],
                ) && views_distinct(closures@[m]@),
        decreases ents@.len() - i,
    {
        let c = closure_of_entitlement(&ents, i);
        closures.push(c);
        i += 1;
    }
    let mut rest = ents;
    let ghost cls = closures@;
    let mut r: Vec<EntitlementDTO> = Vec::new();
    while rest.len() > 0
        invariant
            r@.len() + rest@.len() == orig.len(),
            closures@.len() == rest@.len(),
            rest@ =~= orig.skip(r@.len() as int),
            closures@ =~= cls.skip(r@.len() as int),
            cls.len() == orig.len(),
            forall|m: int| 0 <= m < r@.len() ==> same_except_indirect(orig[m], #[trigger] r@[m]),
            forall|m: int| 0 <= m < r@.len() ==> (#[trigger] r@[m]).all_indirect_memberof@ == cls[m]@,
        decreases rest@.len(),
    {
        let ghost n = r@.len() as int;
        let mut e = rest.remove(0);
        let c = closures.remove(0);
        e.all_indirect_memberof = c;
        r.push(e);
        proof {
            assert(rest@ =~= orig.skip(n + 1));
            assert(closures@ =~= cls.skip(n + 1));
        }
    }
    proof {
        assert forall|m: int| 0 <= m < orig.len() implies str_set(
            (#[trigger] r@[m]).all_indirect_memberof@,
        ) == ancestor_closure(orig, orig[m]) && views_distinct(r@[m].all_indirect_memberof@) by {
            assert(r@[m].all_indirect_memberof@ == cls[m]@);
        }
    }
    r
}

/// A pass never changes identifiers or `memberof` lists, so the parent graph
/// both passes see is the same.
pub proof fn lemma_parents_preserved(e0: Seq<EntitlementDTO>, e1: Seq<EntitlementDTO>)
    requires
        unique_ids(e0),
        e1.len() == e0.len(),
        forall|i: int| 0 <= i < e0.len() ==> same_except_indirect(e0[i], #[trigger] e1[i]),
    ensures
        forall|x: Seq<char>| #[trigger] parents_of(e1, x) == parents_of(e0, x),
{
    assert forall|x: Seq<char>| #[trigger] parents_of(e1, x) == parents_of(e0, x) by {
        if has_ent(e0, x) {
            let i0 = choose|i: int| 0 <= i < e0.len() && #[trigger] e0[i].unique_id@ == x;
            assert(e1[i0].unique_id@ == x);
            assert(has_ent(e1, x));
            let j0 = choose|i: int| 0 <= i < e0.len() && #[trigger] e0[i].unique_id@ == x;
            let j1 = choose|i: int| 0 <= i < e1.len() && #[trigger] e1[i].unique_id@ == x;
            assert(e0[j1].unique_id@ == x);
            assert(j0 == j1);
            assert(ent_at(e1, x).memberof == ent_at(e0, x).memberof);
            assert(direct_parents(ent_at(e1, x)) == direct_parents(ent_at(e0, x)));
        } else {
            if has_ent(e1, x) {
                let i1 = choose|i: int| 0 <= i < e1.len() && #[trigger] e1[i].unique_id@ == x;
                assert(e0[i1].unique_id@ == x);
            }
            assert(!has_ent(e1, x));
        }
    }
}

/// Hop-bounded reachability depends on the graph only through `parents_of`.
pub proof fn lemma_reaches_same(
    ea: Seq<EntitlementDTO>,
    eb: Seq<EntitlementDTO>,
    src: Set<Seq<char>>,
    id: Seq<char>,
    n: nat,
)
    requires
        forall|x: Seq<char>| #[trigger] parents_of(ea, x) == parents_of(eb, x),
    ensures
        reaches_in(ea, src, id, n) == reaches_in(eb, src, id, n),
    decreases n,
{
    if n > 0 {
        lemma_reaches_same(ea, eb, src, id, (n - 1) as nat);
        if reaches_in(ea, src, id, n) && !reaches_in(ea, src, id, (n - 1) as nat) {
            let mid = choose|mid: Seq<char>|
                reaches_in(ea, src, mid, (n - 1) as nat) && #[trigger] parents_of(
                    ea,
                    mid,
                ).contains(id);
            lemma_reaches_same(ea, eb, src, mid, (n - 1) as nat);
            assert(parents_of(eb, mid).contains(id));
            assert(reaches_in(eb, src, id, n));
        }
        if reaches_in(eb, src, id, n) && !reaches_in(eb, src, id, (n - 1) as nat) {
            let mid = choose|mid: Seq<char>|
                reaches_in(eb, src, mid, (n - 1) as nat) && #[trigger] parents_of(
                    eb,
                    mid,
                ).contains(id);
            lemma_reaches_same(ea, eb, src, mid, (n - 1) as nat);
            assert(parents_of(ea, mid).contains(id));
            assert(reaches_in(ea, src, id, n));
        }
    }
}

/// Running the closure computation a second time yields the very same
/// ancestor sets: a pass leaves identifiers and `memberof` lists untouched,
/// and the closure is a function of those alone.
pub proof fn lemma_closure_idempotent(
    e0: Seq<EntitlementDTO>,
    e1: Seq<EntitlementDTO>,
    e2: Seq<EntitlementDTO>,
)
    requires
        unique_ids(e0),
        closure_pass(e0, e1),
        closure_pass(e1, e2),
    ensures
        e2.len() == e1.len(),
        forall|i: int|
            0 <= i < e1.len() ==> str_set((#[trigger] e2[i]).all_indirect_memberof@) == str_set(
                e1[i].all_indirect_memberof@,
            ),
        forall|i: int| 0 <= i < e1.len() ==> same_except_indirect(e1[i], #[trigger] e2[i]),
{
    lemma_parents_preserved(e0, e1);
    assert forall|i: int| 0 <= i < e1.len() implies str_set(
        (#[trigger] e2[i]).all_indirect_memberof@,
    ) == str_set(e1[i].all_indirect_memberof@) by {
        assert(direct_parents(e1[i]) == direct_parents(e0[i]));
        let src = direct_parents(e0[i]);
        assert forall|id: Seq<char>|
            ancestor_closure(e1, e1[i]).contains(id) == ancestor_closure(e0, e0[i]).contains(
                id,
            ) by {
            if reachable(e1, src, id) {
                let n = choose|n: nat| reaches_in(e1, src, id, n);
                lemma_reaches_same(e1, e0, src, id, n);
                assert(reachable(e0, src, id));
            }
            if reachable(e0, src, id) {
                let n = choose|n: nat| reaches_in(e0, src, id, n);
                lemma_reaches_same(e1, e0, src, id, n);
                assert(reachable(e1, src, id));
            }
            assert(e1[i].unique_id == e0[i].unique_id);
        }
        assert(ancestor_closure(e1, e1[i]) =~= ancestor_closure(e0, e0[i]));
        assert(str_set(e2[i].all_indirect_memberof@) == ancestor_closure(e1, e1[i]));
        assert(str_set(e1[i].all_indirect_memberof@) == ancestor_closure(e0, e0[i]));
    }
}

} // verus!
