//! The sparse data model: atom list, bond matrix, molecule merge and
//! shift, continuous indexing.

use layomol::chemistry::{element_num_to_symbol, element_symbol_to_num, Atom3D};
use layomol::geom::Vec3;
use layomol::group_name::GroupName;
use layomol::name_index::NameIndex;
use layomol::sparse_molecule::{SparseAtomList, SparseBondMatrix, SparseMolecule};

fn s(t: &str) -> String {
    t.to_string()
}

fn v(x: f64, y: f64, z: f64) -> Vec3 {
    Vec3 { x: x.to_bits(), y: y.to_bits(), z: z.to_bits() }
}

fn atom(element: usize, x: f64, y: f64, z: f64) -> Atom3D {
    Atom3D { element, position: v(x, y, z), formal_charge: 0u64 }
}

fn two_atom_molecule() -> SparseMolecule {
    let mut m = SparseMolecule {
        title: s("pair"),
        atoms: SparseAtomList::from_atoms(vec![atom(6, 0.0, 0.0, 0.0), atom(8, 1.0, 0.0, 0.0)]),
        bonds: SparseBondMatrix::new(2),
        ids: NameIndex::new(),
        groups: GroupName::new(),
    };
    m.bonds.set_bond(0, 1, Some(1.0f64.to_bits()));
    m.ids.insert(s("c"), 0);
    m.groups.insert(s("all"), 0);
    m.groups.insert(s("all"), 1);
    m
}

#[test]
fn atom_list_reads_and_gaps() {
    let list = SparseAtomList::new(3);
    assert_eq!(list.len(), 3);
    assert_eq!(list.read_atom(0), None);
    assert_eq!(list.read_atom(7), None);
    let filled = SparseAtomList::from_atoms(vec![atom(1, 0.5, 0.0, 0.0)]);
    assert_eq!(filled.read_atom(0).unwrap().element, 1);
}

#[test]
fn atom_list_set_atoms_grows() {
    let mut list = SparseAtomList::new(1);
    list.set_atoms(2, vec![Some(atom(7, 0.0, 0.0, 0.0)), None]);
    assert_eq!(list.len(), 4);
    assert_eq!(list.read_atom(0), None);
    assert_eq!(list.read_atom(2).unwrap().element, 7);
    assert_eq!(list.read_atom(3), None);
}

#[test]
fn atom_list_migrate_incoming_wins() {
    let mut a = SparseAtomList::from_atoms(vec![atom(1, 0.0, 0.0, 0.0)]);
    let b = SparseAtomList::from_slots(vec![Some(atom(2, 1.0, 0.0, 0.0)), Some(atom(3, 2.0, 0.0, 0.0))]);
    a.migrate(&b);
    assert_eq!(a.len(), 2);
    assert_eq!(a.read_atom(0).unwrap().element, 2);
    assert_eq!(a.read_atom(1).unwrap().element, 3);
}

#[test]
fn bond_matrix_symmetric_and_growing() {
    let mut b = SparseBondMatrix::new(1);
    b.set_bond(0, 3, Some(2.0f64.to_bits()));
    assert_eq!(b.len(), 4);
    assert_eq!(b.read_bond(0, 3), Some(2.0f64.to_bits()));
    assert_eq!(b.read_bond(3, 0), Some(2.0f64.to_bits()));
    assert_eq!(b.read_bond(1, 2), None);
    assert_eq!(b.read_bond(9, 9), None);
}

#[test]
fn bond_matrix_migrate_overlays() {
    let mut a = SparseBondMatrix::new(2);
    a.set_bond(0, 1, Some(1.0f64.to_bits()));
    let mut b = SparseBondMatrix::new(3);
    b.set_bond(0, 1, Some(3.0f64.to_bits()));
    b.set_bond(1, 2, Some(1.5f64.to_bits()));
    a.migrate(&b);
    assert_eq!(a.len(), 3);
    // the incoming record wins where both sides have one
    assert_eq!(a.read_bond(0, 1), Some(3.0f64.to_bits()));
    assert_eq!(a.read_bond(2, 1), Some(1.5f64.to_bits()));
}

#[test]
fn molecule_offset_round_trip() {
    let m = two_atom_molecule();
    let k = 3usize;
    let shifted = m.duplicated().offset(k);
    let m2 = two_atom_molecule();
    assert_eq!(shifted.atoms.len(), m2.atoms.len() + k);
    for i in 0..k {
        assert_eq!(shifted.atoms.read_atom(i), None);
    }
    for i in 0..m2.atoms.len() {
        assert_eq!(shifted.atoms.read_atom(k + i), m2.atoms.read_atom(i));
    }
    assert_eq!(shifted.bonds.read_bond(k, k + 1), m2.bonds.read_bond(0, 1));
    assert_eq!(shifted.bonds.read_bond(0, 1), None);
    assert_eq!(shifted.ids.get(&s("c")), Some(k));
    assert!(shifted.groups.contains(&s("all"), k + 1));
    assert!(!shifted.groups.contains(&s("all"), 1));
}

#[test]
fn molecule_migrate_merges_every_field() {
    let mut base = two_atom_molecule();
    let mut incoming = SparseMolecule {
        title: s("patch"),
        atoms: SparseAtomList::from_slots(vec![None, Some(atom(16, 9.0, 0.0, 0.0)), Some(atom(1, 3.0, 0.0, 0.0))]),
        bonds: SparseBondMatrix::new(3),
        ids: NameIndex::new(),
        groups: GroupName::new(),
    };
    incoming.bonds.set_bond(1, 2, Some(1.0f64.to_bits()));
    incoming.ids.insert(s("c"), 2);
    incoming.groups.insert(s("new"), 2);
    base.migrate(&incoming);
    assert_eq!(base.title, s("patch"));
    assert_eq!(base.atoms.read_atom(0).unwrap().element, 6);
    assert_eq!(base.atoms.read_atom(1).unwrap().element, 16);
    assert_eq!(base.atoms.read_atom(2).unwrap().element, 1);
    assert_eq!(base.bonds.read_bond(0, 1), Some(1.0f64.to_bits()));
    assert_eq!(base.bonds.read_bond(1, 2), Some(1.0f64.to_bits()));
    // the incoming name binding wins
    assert_eq!(base.ids.get(&s("c")), Some(2));
    assert!(base.groups.contains(&s("all"), 0));
    assert!(base.groups.contains(&s("new"), 2));
}

#[test]
fn continuous_index_skips_gaps_placeholders_and_hidden() {
    let list = SparseAtomList::from_slots(vec![
        Some(atom(6, 0.0, 0.0, 0.0)),
        None,
        Some(atom(0, 0.0, 0.0, 0.0)),
        Some(atom(8, 1.0, 0.0, 0.0)),
        Some(atom(134, 2.0, 0.0, 0.0)),
        Some(atom(7, 3.0, 0.0, 0.0)),
    ]);
    assert_eq!(list.to_continous_index(0), Some(0));
    assert_eq!(list.to_continous_index(1), None);
    assert_eq!(list.to_continous_index(2), None);
    assert_eq!(list.to_continous_index(3), Some(1));
    assert_eq!(list.to_continous_index(4), None);
    assert_eq!(list.to_continous_index(5), Some(2));
    assert_eq!(list.from_countious_index(0), Some(0));
    assert_eq!(list.from_countious_index(1), Some(3));
    assert_eq!(list.from_countious_index(2), Some(5));
    assert_eq!(list.from_countious_index(3), None);
}

#[test]
fn continuous_export() {
    let list = SparseAtomList::from_slots(vec![
        Some(atom(6, 0.0, 0.0, 0.0)),
        None,
        Some(atom(8, 1.0, 0.0, 0.0)),
        Some(atom(130, 9.0, 0.0, 0.0)),
    ]);
    let dense = list.continuous_atoms();
    assert_eq!(dense.len(), 2);
    assert_eq!(dense[0].element, 6);
    assert_eq!(dense[1].element, 8);
    let mut bonds = SparseBondMatrix::new(4);
    bonds.set_bond(0, 2, Some(1.5f64.to_bits()));
    bonds.set_bond(0, 3, Some(1.0f64.to_bits()));
    let triples = bonds.to_continous_list(&list);
    // only the bond between the two valid atoms survives, renumbered
    assert_eq!(triples, vec![(0, 1, 1.5f64.to_bits())]);
}

#[test]
fn default_values() {
    assert!(layomol::defaults::default_true());
    assert_eq!(layomol::defaults::default_xyz(), "xyz");
}

#[test]
fn compacted_interchange_form() {
    let mut m = SparseMolecule {
        title: s("export"),
        atoms: SparseAtomList::from_slots(vec![
            Some(atom(6, 0.0, 0.0, 0.0)),
            None,
            Some(atom(8, 1.0, 0.0, 0.0)),
            Some(atom(130, 9.0, 0.0, 0.0)),
        ]),
        bonds: SparseBondMatrix::new(4),
        ids: NameIndex::new(),
        groups: GroupName::new(),
    };
    m.bonds.set_bond(0, 2, Some(1.0f64.to_bits()));
    m.bonds.set_bond(2, 3, Some(2.0f64.to_bits()));
    m.bonds.set_bond(0, 0, Some(0.0f64.to_bits()));
    m.ids.insert(s("c"), 0);
    m.ids.insert(s("ghost"), 1);
    m.ids.insert(s("hidden"), 3);
    m.groups.insert(s("all"), 0);
    m.groups.insert(s("all"), 2);
    m.groups.insert(s("all"), 3);
    let c = m.compacted();
    assert_eq!(c.title, s("export"));
    assert_eq!(c.atoms.len(), 2);
    assert_eq!(c.atoms[0].element, 6);
    assert_eq!(c.atoms[1].element, 8);
    // only the bond between the two valid atoms, renumbered; the
    // zero-order record is dropped
    assert_eq!(c.bonds, vec![(0, 1, 1.0f64.to_bits())]);
    assert_eq!(c.ids.get(&s("c")), Some(0));
    assert_eq!(c.ids.get(&s("ghost")), None);
    assert_eq!(c.ids.get(&s("hidden")), None);
    assert!(c.groups.contains(&s("all"), 0));
    assert!(c.groups.contains(&s("all"), 1));
    assert!(!c.groups.contains(&s("all"), 2));
}

#[test]
fn dense_write_back() {
    let list = SparseAtomList::from_slots(vec![
        Some(atom(6, 0.0, 0.0, 0.0)),
        None,
        Some(atom(8, 1.0, 0.0, 0.0)),
    ]);
    let updated = list
        .update_from_continous_list(&vec![atom(6, 5.0, 0.0, 0.0), atom(8, 6.0, 0.0, 0.0)])
        .unwrap();
    assert_eq!(updated.read_atom(0).unwrap().position.x, 5.0f64.to_bits());
    assert_eq!(updated.read_atom(1), None);
    assert_eq!(updated.read_atom(2).unwrap().position.x, 6.0f64.to_bits());
    // a list shorter than the number of valid slots is rejected
    assert!(list.update_from_continous_list(&vec![atom(6, 5.0, 0.0, 0.0)]).is_none());
}

#[test]
fn element_table_lookups() {
    assert_eq!(element_num_to_symbol(1), Some(s("H")));
    assert_eq!(element_num_to_symbol(6), Some(s("C")));
    assert_eq!(element_num_to_symbol(26), Some(s("Fe")));
    assert_eq!(element_num_to_symbol(118), Some(s("Og")));
    assert_eq!(element_num_to_symbol(0), None);
    assert_eq!(element_num_to_symbol(119), None);
    assert_eq!(element_symbol_to_num(&s("H")), Some(1));
    assert_eq!(element_symbol_to_num(&s("C")), Some(6));
    assert_eq!(element_symbol_to_num(&s("Og")), Some(118));
    assert_eq!(element_symbol_to_num(&s("Xx")), None);
    // the two directions agree on the whole table
    for code in 1..=118usize {
        let sym = element_num_to_symbol(code).unwrap();
        assert_eq!(element_symbol_to_num(&sym), Some(code));
    }
}
