use iga_core::closure::{calculate_indirect_memberof, calculate_memberof};
use iga_core::dtos::EntitlementDTO;

fn sv(v: Vec<&str>) -> Vec<String> {
    v.into_iter().map(|s| s.to_string()).collect()
}

fn ent_dto(
    id: &str,
    memberof: Option<Vec<&str>>,
    member_groups: Option<Vec<&str>>,
) -> EntitlementDTO {
    EntitlementDTO {
        unique_id: id.to_string(),
        display_name: None,
        description: None,
        created: None,
        memberof: memberof.map(sv),
        all_indirect_memberof: Vec::new(),
        members: None,
        member_groups: member_groups.map(sv),
        ou: None,
        other_attributes: Vec::new(),
        ts_owners: None,
    }
}

fn closure_of<'a>(ents: &'a [EntitlementDTO], id: &str) -> Vec<String> {
    let mut v = ents
        .iter()
        .find(|e| e.unique_id == id)
        .unwrap()
        .all_indirect_memberof
        .clone();
    v.sort();
    v
}

#[test]
fn chain_closure() {
    let ents = vec![
        ent_dto("A", Some(vec![]), None),
        ent_dto("B", Some(vec!["A"]), None),
        ent_dto("C", Some(vec!["B"]), None),
    ];
    let r = calculate_indirect_memberof(ents);
    assert_eq!(closure_of(&r, "C"), sv(vec!["A", "B"]));
    assert_eq!(closure_of(&r, "B"), sv(vec!["A"]));
    assert_eq!(closure_of(&r, "A"), Vec::<String>::new());
}

#[test]
fn cycle_terminates_and_excludes_self() {
    // A is member of B, B of C, C of A: a cycle. The closure of A must be
    // {B, C}, never A itself.
    let ents = vec![
        ent_dto("A", Some(vec!["B"]), None),
        ent_dto("B", Some(vec!["C"]), None),
        ent_dto("C", Some(vec!["A"]), None),
    ];
    let r = calculate_indirect_memberof(ents);
    assert_eq!(closure_of(&r, "A"), sv(vec!["B", "C"]));
    assert_eq!(closure_of(&r, "B"), sv(vec!["A", "C"]));
    assert_eq!(closure_of(&r, "C"), sv(vec!["A", "B"]));
}

#[test]
fn dangling_parent_kept_but_not_expanded() {
    let ents = vec![ent_dto("A", Some(vec!["GHOST"]), None)];
    let r = calculate_indirect_memberof(ents);
    assert_eq!(closure_of(&r, "A"), sv(vec!["GHOST"]));
}

#[test]
fn self_edge_skipped() {
    let ents = vec![
        ent_dto("A", Some(vec!["A", "B"]), None),
        ent_dto("B", Some(vec![]), None),
    ];
    let r = calculate_indirect_memberof(ents);
    assert_eq!(closure_of(&r, "A"), sv(vec!["B"]));
}

#[test]
fn absent_memberof_gives_empty_closure() {
    let ents = vec![ent_dto("A", None, None)];
    let r = calculate_indirect_memberof(ents);
    assert_eq!(closure_of(&r, "A"), Vec::<String>::new());
}

#[test]
fn reverse_edge_inversion() {
    // G1 lists member_groups = [G2]: "G1 is a member of G2" said from G1's
    // side. After the pre-pass, G2's memberof must contain G1.
    let ents = vec![
        ent_dto("G1", None, Some(vec!["G2"])),
        ent_dto("G2", None, None),
    ];
    let r = calculate_memberof(ents);
    let g2 = r.iter().find(|e| e.unique_id == "G2").unwrap();
    assert_eq!(g2.memberof.clone().unwrap(), sv(vec!["G1"]));
    let g1 = r.iter().find(|e| e.unique_id == "G1").unwrap();
    assert!(g1.memberof.is_none());
}

#[test]
fn inversion_skips_self_reference() {
    // G1 lists itself and G2: the self reference is a no-op, so G1 gains no
    // parent from it, while G2 still gains G1.
    let ents = vec![
        ent_dto("G1", None, Some(vec!["G1", "G2"])),
        ent_dto("G2", None, None),
    ];
    let r = calculate_memberof(ents);
    let g1 = r.iter().find(|e| e.unique_id == "G1").unwrap();
    assert!(g1.memberof.is_none());
    let g2 = r.iter().find(|e| e.unique_id == "G2").unwrap();
    assert_eq!(g2.memberof.clone().unwrap(), sv(vec!["G1"]));
}

#[test]
fn inversion_deduplicates_and_keeps_other_fields() {
    let ents = vec![
        ent_dto("G1", Some(vec!["OLD"]), Some(vec!["G3", "G3"])),
        ent_dto("G2", None, Some(vec!["G3"])),
        ent_dto("G3", None, None),
    ];
    let r = calculate_memberof(ents);
    let g3 = r.iter().find(|e| e.unique_id == "G3").unwrap();
    let mut m = g3.memberof.clone().unwrap();
    m.sort();
    assert_eq!(m, sv(vec!["G1", "G2"]));
    // a record nobody lists loses its old memberof entirely
    let g1 = r.iter().find(|e| e.unique_id == "G1").unwrap();
    assert!(g1.memberof.is_none());
    assert_eq!(g1.member_groups.clone().unwrap(), sv(vec!["G3", "G3"]));
}

#[test]
fn inversion_then_closure() {
    // Reverse-expressed chain: B lists A among its member groups (A sits
    // inside B), C lists B (B sits inside C).
    let ents = vec![
        ent_dto("A", None, None),
        ent_dto("B", None, Some(vec!["A"])),
        ent_dto("C", None, Some(vec!["B"])),
    ];
    let normalized = calculate_memberof(ents);
    let r = calculate_indirect_memberof(normalized);
    assert_eq!(closure_of(&r, "A"), sv(vec!["B", "C"]));
    assert_eq!(closure_of(&r, "B"), sv(vec!["C"]));
    assert_eq!(closure_of(&r, "C"), Vec::<String>::new());
}

#[test]
fn closure_computation_is_idempotent() {
    let ents = vec![
        ent_dto("A", Some(vec!["B"]), None),
        ent_dto("B", Some(vec!["C"]), None),
        ent_dto("C", Some(vec!["A"]), None),
        ent_dto("D", Some(vec!["GHOST", "A"]), None),
    ];
    let once = calculate_indirect_memberof(ents);
    let twice = calculate_indirect_memberof(once.clone());
    for (a, b) in once.iter().zip(twice.iter()) {
        let mut x = a.all_indirect_memberof.clone();
        let mut y = b.all_indirect_memberof.clone();
        x.sort();
        y.sort();
        assert_eq!(x, y);
        assert_eq!(a.unique_id, b.unique_id);
        assert_eq!(a.memberof, b.memberof);
    }
}
