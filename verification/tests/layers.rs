//! The layer operation set: selectors and each operation's semantics.

use layomol::chemistry::Atom3D;
use layomol::geom::Vec3;
use layomol::group_name::GroupName;
use layomol::layer::{Layer, LayerStorageError, SelectMany, SelectOne};
use layomol::name_index::NameIndex;
use layomol::sparse_molecule::{SparseAtomList, SparseBondMatrix, SparseMolecule};

fn s(t: &str) -> String {
    t.to_string()
}

fn v(x: f64, y: f64, z: f64) -> Vec3 {
    Vec3 { x: x.to_bits(), y: y.to_bits(), z: z.to_bits() }
}

fn atom(element: usize, x: f64, y: f64, z: f64) -> Atom3D {
    Atom3D { element, position: v(x, y, z), formal_charge: 0u64 }
}

fn pos(m: &SparseMolecule, i: usize) -> (f64, f64, f64) {
    let p = m.atoms.read_atom(i).unwrap().position;
    (f64::from_bits(p.x), f64::from_bits(p.y), f64::from_bits(p.z))
}

fn molecule(atoms: Vec<Atom3D>) -> SparseMolecule {
    SparseMolecule {
        title: String::new(),
        atoms: SparseAtomList::from_atoms(atoms),
        bonds: SparseBondMatrix::new(0),
        ids: NameIndex::new(),
        groups: GroupName::new(),
    }
}

#[test]
fn select_one_resolution() {
    let mut m = molecule(vec![atom(6, 0.0, 0.0, 0.0)]);
    m.ids.insert(s("core"), 0);
    assert_eq!(SelectOne::Index(0).to_index(&m), Some(0));
    assert_eq!(SelectOne::Index(9).to_index(&m), Some(9));
    assert_eq!(SelectOne::IdName(s("core")).to_index(&m), Some(0));
    assert_eq!(SelectOne::IdName(s("nope")).to_index(&m), None);
    assert!(SelectOne::Index(9).get_atom(&m).is_none());
    assert_eq!(SelectOne::IdName(s("core")).get_atom(&m).unwrap().element, 6);
}

#[test]
fn select_many_complex_boundary() {
    // five atoms, index 2 carries element 6
    let m = molecule(vec![
        atom(1, 0.0, 0.0, 0.0),
        atom(1, 0.0, 0.0, 0.0),
        atom(6, 0.0, 0.0, 0.0),
        atom(1, 0.0, 0.0, 0.0),
        atom(1, 0.0, 0.0, 0.0),
        atom(1, 0.0, 0.0, 0.0),
        atom(1, 0.0, 0.0, 0.0),
    ]);
    let sel = SelectMany::Complex {
        includes: vec![SelectMany::Range { start: 0, end: 4 }],
        excludes: vec![SelectMany::Element(6)],
    };
    assert_eq!(sel.to_indexes(&m), vec![0, 1, 3, 4]);
}

#[test]
fn select_many_forms() {
    let mut m = molecule(vec![atom(6, 0.0, 0.0, 0.0), atom(8, 0.0, 0.0, 0.0)]);
    m.ids.insert(s("o"), 1);
    m.groups.insert(s("ring"), 0);
    assert_eq!(SelectMany::All.to_indexes(&m), vec![0, 1]);
    assert_eq!(SelectMany::Element(8).to_indexes(&m), vec![1]);
    assert_eq!(SelectMany::GroupName(s("ring")).to_indexes(&m), vec![0]);
    assert_eq!(SelectMany::GroupName(s("gone")).to_indexes(&m), vec![]);
    // unresolvable members of an index set are dropped silently
    let sel = SelectMany::Indexes(vec![
        SelectOne::IdName(s("o")),
        SelectOne::IdName(s("missing")),
        SelectOne::Index(0),
    ]);
    assert_eq!(sel.to_indexes(&m), vec![0, 1]);
}

#[test]
fn fill_idempotent_on_same_data() {
    let base = molecule(vec![atom(1, 0.0, 0.0, 0.0)]);
    let mut data = molecule(vec![atom(6, 1.0, 0.0, 0.0), atom(8, 2.0, 0.0, 0.0)]);
    data.title = s("patch");
    data.ids.insert(s("c"), 0);
    data.groups.insert(s("g"), 1);
    let fill = Layer::Fill { data };
    let once = fill.filter(base).unwrap();
    let twice = fill.filter(once.duplicated()).unwrap();
    assert_eq!(once.atoms.len(), twice.atoms.len());
    for i in 0..once.atoms.len() {
        assert_eq!(once.atoms.read_atom(i), twice.atoms.read_atom(i));
    }
    assert_eq!(once.title, twice.title);
    assert_eq!(once.ids.get(&s("c")), twice.ids.get(&s("c")));
    assert_eq!(
        once.groups.contains(&s("g"), 1),
        twice.groups.contains(&s("g"), 1)
    );
}

#[test]
fn insert_shifts_incoming_data() {
    let base = molecule(vec![atom(1, 0.0, 0.0, 0.0)]);
    let mut data = molecule(vec![atom(6, 1.0, 0.0, 0.0)]);
    data.ids.insert(s("c"), 0);
    let layer = Layer::Insert { offset: 2, data };
    let out = layer.filter(base).unwrap();
    assert_eq!(out.atoms.len(), 3);
    assert_eq!(out.atoms.read_atom(0).unwrap().element, 1);
    assert_eq!(out.atoms.read_atom(1), None);
    assert_eq!(out.atoms.read_atom(2).unwrap().element, 6);
    assert_eq!(out.ids.get(&s("c")), Some(2));
}

#[test]
fn append_namespaces_and_tags() {
    let base = molecule(vec![atom(1, 0.0, 0.0, 0.0), atom(1, 0.0, 0.0, 0.0)]);
    let mut data = molecule(vec![atom(6, 1.0, 0.0, 0.0)]);
    data.ids.insert(s("c"), 0);
    data.groups.insert(s("ring"), 0);
    let layer = Layer::Append { name: s("sub"), data };
    let out = layer.filter(base).unwrap();
    assert_eq!(out.atoms.len(), 3);
    assert_eq!(out.atoms.read_atom(2).unwrap().element, 6);
    assert_eq!(out.ids.get(&s("sub_c")), Some(2));
    assert!(out.groups.contains(&s("sub_ring"), 2));
    assert!(out.groups.contains(&s("sub"), 2));
    assert!(!out.groups.contains(&s("sub"), 0));
}

#[test]
fn set_atom_and_errors() {
    let base = molecule(vec![atom(1, 0.0, 0.0, 0.0)]);
    let put = Layer::SetAtom {
        target: SelectOne::Index(2),
        atom: Some(atom(6, 1.0, 2.0, 3.0)),
    };
    let out = put.filter(base).unwrap();
    assert_eq!(out.atoms.len(), 3);
    assert_eq!(out.atoms.read_atom(2).unwrap().element, 6);
    let bad = Layer::SetAtom {
        target: SelectOne::IdName(s("missing")),
        atom: None,
    };
    let err = bad.filter(out).unwrap_err();
    assert!(matches!(err, LayerStorageError::SelectNotFound(SelectOne::IdName(n)) if n == "missing"));
}

#[test]
fn update_formal_charge() {
    let base = molecule(vec![atom(6, 0.0, 0.0, 0.0)]);
    let layer = Layer::UpdateFormalCharge {
        target: SelectOne::Index(0),
        charge: (-1.0f64).to_bits(),
    };
    let out = layer.filter(base).unwrap();
    let a = out.atoms.read_atom(0).unwrap();
    assert_eq!(f64::from_bits(a.formal_charge), -1.0);
    assert_eq!(a.element, 6);
}

#[test]
fn append_atoms_and_set_bond() {
    let base = molecule(vec![atom(6, 0.0, 0.0, 0.0)]);
    let grown = Layer::AppendAtoms { atoms: vec![atom(8, 1.0, 0.0, 0.0)] }
        .filter(base)
        .unwrap();
    assert_eq!(grown.atoms.len(), 2);
    let bonded = Layer::SetBond {
        bonds: vec![(SelectOne::Index(0), SelectOne::Index(1), 2.0f64.to_bits())],
    }
    .filter(grown)
    .unwrap();
    assert_eq!(bonded.bonds.read_bond(0, 1), Some(2.0f64.to_bits()));
    assert_eq!(bonded.bonds.read_bond(1, 0), Some(2.0f64.to_bits()));
    let failing = Layer::SetBond {
        bonds: vec![(SelectOne::Index(0), SelectOne::IdName(s("gone")), 1.0f64.to_bits())],
    };
    let err = failing.filter(bonded).unwrap_err();
    assert!(matches!(err, LayerStorageError::SelectNotFound(SelectOne::IdName(n)) if n == "gone"));
}

#[test]
fn id_map_and_group_map() {
    let base = molecule(vec![
        atom(6, 0.0, 0.0, 0.0),
        atom(6, 0.0, 0.0, 0.0),
        atom(6, 0.0, 0.0, 0.0),
        atom(6, 0.0, 0.0, 0.0),
    ]);
    let named = Layer::IdMap {
        targets: vec![(s("head"), SelectOne::Index(0)), (s("tail"), SelectOne::Index(3))],
    }
    .filter(base)
    .unwrap();
    assert_eq!(named.ids.get(&s("head")), Some(0));
    assert_eq!(named.ids.get(&s("tail")), Some(3));
    // the named-group selector reads back exactly what the map inserted
    let grouped = Layer::GroupMap {
        groups: vec![(s("ring"), SelectMany::Range { start: 0, end: 3 })],
    }
    .filter(named)
    .unwrap();
    assert_eq!(
        SelectMany::GroupName(s("ring")).to_indexes(&grouped),
        vec![0, 1, 2, 3]
    );
}

#[test]
fn remove_atoms_writes_placeholders() {
    let base = molecule(vec![atom(6, 0.0, 0.0, 0.0), atom(8, 1.0, 0.0, 0.0)]);
    let out = Layer::RemoveAtoms { select: SelectMany::Indexes(vec![SelectOne::Index(1)]) }
        .filter(base)
        .unwrap();
    // the slot still exists, holding the inert placeholder
    assert_eq!(out.atoms.len(), 2);
    let ph = out.atoms.read_atom(1).unwrap();
    assert_eq!(ph.element, 0);
    assert_eq!(out.atoms.read_atom(0).unwrap().element, 6);
    // continuous indexing skips the placeholder
    assert_eq!(out.atoms.to_continous_index(1), None);
}

#[test]
fn hide_unhide_inverse_and_overflow() {
    let base = molecule(vec![atom(6, 0.0, 0.0, 0.0), atom(8, 1.0, 0.0, 0.0)]);
    let hidden = Layer::Hide { select: SelectMany::All }.filter(base).unwrap();
    assert_eq!(hidden.atoms.read_atom(0).unwrap().element, 134);
    assert_eq!(hidden.atoms.read_atom(1).unwrap().element, 136);
    let restored = Layer::UnHide { select: SelectMany::All }
        .filter(hidden.duplicated())
        .unwrap();
    assert_eq!(restored.atoms.read_atom(0).unwrap().element, 6);
    assert_eq!(restored.atoms.read_atom(1).unwrap().element, 8);
    // hiding an already-hidden atom reports the band error
    let err = Layer::Hide { select: SelectMany::All }.filter(hidden).unwrap_err();
    assert!(matches!(err, LayerStorageError::HideOverflow { idx: 0, current_value: 134 }));
    // unhiding a visible atom reports it too
    let base2 = molecule(vec![atom(6, 0.0, 0.0, 0.0)]);
    let err2 = Layer::UnHide { select: SelectMany::All }.filter(base2).unwrap_err();
    assert!(matches!(err2, LayerStorageError::HideOverflow { idx: 0, current_value: 6 }));
}

#[test]
fn transparent_is_identity() {
    let base = molecule(vec![atom(6, 1.0, 2.0, 3.0)]);
    let out = Layer::Transparent.filter(base).unwrap();
    assert_eq!(out.atoms.len(), 1);
    assert_eq!(pos(&out, 0), (1.0, 2.0, 3.0));
}
