//! The layer store, stack resolution and the memoization cache.

use layomol::chemistry::Atom3D;
use layomol::geom::Vec3;
use layomol::group_name::GroupName;
use layomol::layer::{Layer, LayerStorageError, SelectMany, SelectOne};
use layomol::name_index::NameIndex;
use layomol::sparse_molecule::{SparseAtomList, SparseBondMatrix, SparseMolecule};
use layomol::workspace::{LayerStorage, Workspace, WorkspaceError};
use layomol::substituent::{Substituent, SubstituentError};

fn s(t: &str) -> String {
    t.to_string()
}

fn v(x: f64, y: f64, z: f64) -> Vec3 {
    Vec3 { x: x.to_bits(), y: y.to_bits(), z: z.to_bits() }
}

fn atom(element: usize, x: f64, y: f64, z: f64) -> Atom3D {
    Atom3D { element, position: v(x, y, z), formal_charge: 0u64 }
}

fn pos(m: &SparseMolecule, i: usize) -> (f64, f64, f64) {
    let p = m.atoms.read_atom(i).unwrap().position;
    (f64::from_bits(p.x), f64::from_bits(p.y), f64::from_bits(p.z))
}

fn molecule(atoms: Vec<Atom3D>) -> SparseMolecule {
    SparseMolecule {
        title: String::new(),
        atoms: SparseAtomList::from_atoms(atoms),
        bonds: SparseBondMatrix::new(0),
        ids: NameIndex::new(),
        groups: GroupName::new(),
    }
}

fn shift(x: f64) -> Layer {
    Layer::Translation { select: SelectMany::All, vector: v(x, 0.0, 0.0) }
}

#[test]
fn store_assigns_consecutive_ids() {
    let mut store = LayerStorage::new();
    assert_eq!(store.next_layer_id(), 0);
    let (a, b) = store.create_layers(vec![Layer::Transparent, shift(1.0)]);
    assert_eq!((a, b), (0, 2));
    let (c, d) = store.create_layers(vec![shift(2.0)]);
    assert_eq!((c, d), (2, 3));
    assert_eq!(store.layer_ids(), vec![0, 1, 2]);
    assert!(store.read_layer(1).is_some());
    assert!(store.read_layer(3).is_none());
}

#[test]
fn read_stack_folds_in_order() {
    let mut store = LayerStorage::new();
    store.create_layers(vec![shift(1.0), shift(10.0)]);
    let base = molecule(vec![atom(6, 0.0, 0.0, 0.0)]);
    let out = store.read_stack(&vec![0, 1, 0], base).unwrap();
    assert_eq!(pos(&out, 0), (12.0, 0.0, 0.0));
}

#[test]
fn read_stack_reports_missing_layer() {
    let store = LayerStorage::new();
    let base = molecule(vec![atom(6, 0.0, 0.0, 0.0)]);
    let err = store.read_stack(&vec![7], base).unwrap_err();
    assert!(matches!(err, LayerStorageError::NoSuchLayer(7)));
}

#[test]
fn read_stack_reports_first_selector_failure() {
    let mut store = LayerStorage::new();
    store.create_layers(vec![Layer::SetCenter {
        select: SelectOne::IdName(s("nowhere")),
        center: v(0.0, 0.0, 0.0),
    }]);
    let base = molecule(vec![atom(6, 0.0, 0.0, 0.0)]);
    let err = store.read_stack(&vec![0], base).unwrap_err();
    assert!(
        matches!(err, LayerStorageError::SelectNotFound(SelectOne::IdName(n)) if n == "nowhere")
    );
}

#[test]
fn cached_resolution_shares_prefixes() {
    let base = molecule(vec![atom(6, 0.0, 0.0, 0.0)]);
    let mut ws = Workspace::new(base);
    ws.layers.create_layers(vec![shift(1.0), shift(10.0), shift(100.0), shift(1000.0)]);
    let first = ws.cached_read_stack(&vec![0, 1, 2]).unwrap();
    assert_eq!(pos(&first, 0), (111.0, 0.0, 0.0));
    // one cache entry per prefix of the resolved path
    assert_eq!(ws.cache.len(), 3);
    // a second stack sharing the prefix [0, 1] replays only its last layer:
    // exactly one entry is added
    let second = ws.cached_read_stack(&vec![0, 1, 3]).unwrap();
    assert_eq!(pos(&second, 0), (1011.0, 0.0, 0.0));
    assert_eq!(ws.cache.len(), 4);
    // resolving an already-cached path adds nothing at all
    let again = ws.cached_read_stack(&vec![0, 1, 2]).unwrap();
    assert_eq!(pos(&again, 0), (111.0, 0.0, 0.0));
    assert_eq!(ws.cache.len(), 4);
}

#[test]
fn cached_resolution_matches_uncached() {
    let base = molecule(vec![atom(6, 0.0, 0.0, 0.0)]);
    let mut ws = Workspace::new(base.duplicated());
    ws.layers.create_layers(vec![shift(1.0), shift(10.0)]);
    let cached = ws.cached_read_stack(&vec![0, 1]).unwrap();
    let plain = ws.layers.read_stack(&vec![0, 1], base).unwrap();
    assert_eq!(pos(&cached, 0), pos(&plain, 0));
}

#[test]
fn workspace_stack_operations() {
    let base = molecule(vec![atom(6, 0.0, 0.0, 0.0)]);
    let mut ws = Workspace::new(base);
    let count = ws.add_layers_on_stack(vec![], vec![shift(1.0), shift(2.0)]);
    assert_eq!(count, 1);
    assert_eq!(ws.stacks[0], vec![0, 1]);
    let (start, end) = ws.clone_stacks(0, 2).unwrap();
    assert_eq!((start, end), (1, 3));
    assert_eq!(ws.stacks[2], vec![0, 1]);
    ws.extend_stack(2, &vec![0]).unwrap();
    assert_eq!(ws.stacks[2], vec![0, 1, 0]);
    ws.slice_stack(2, 1, 3).unwrap();
    assert_eq!(ws.stacks[2], vec![1, 0]);
    let err = ws.clone_stacks(9, 1).unwrap_err();
    assert!(matches!(err, WorkspaceError::NoSuchStack(9)));
    assert!(ws.layer_in_use(1));
    assert!(!ws.layer_in_use(7));
}

#[test]
fn substituent_grafts_fragment() {
    // base: two atoms along +X; the fragment replaces the atom at index 1
    let mut base = molecule(vec![atom(6, 0.0, 0.0, 0.0), atom(1, 1.0, 0.0, 0.0)]);
    base.ids.insert(s("anchor"), 0);
    // fragment: entry at the origin, exit along +X, one payload atom
    let mut structure = molecule(vec![
        atom(1, 0.0, 0.0, 0.0),
        atom(9, 1.0, 0.0, 0.0),
        atom(8, 2.0, 0.0, 0.0),
    ]);
    structure.groups.insert(s("body"), 1);
    let sub = Substituent {
        entry: SelectOne::Index(0),
        target: SelectOne::Index(2),
        structure,
        group_prefix: s("graft"),
    };
    let frag = sub
        .generate_path(&base, &SelectOne::Index(0), &SelectOne::Index(1))
        .unwrap();
    // the fragment sits past the base's two slots
    assert_eq!(frag.atoms.len(), 5);
    // the base-side anchor slots were rebound: the target's entry atom
    // stays, the fragment's moved exit atom lands on the replaced slot
    assert_eq!(frag.atoms.read_atom(0).unwrap().element, 6);
    assert_eq!(frag.atoms.read_atom(1).unwrap().element, 8);
    // the fragment's own anchor slots were cleared
    assert_eq!(frag.atoms.read_atom(2), None);
    assert_eq!(frag.atoms.read_atom(4), None);
    assert_eq!(frag.atoms.read_atom(3).unwrap().element, 9);
    // groups were renamed under the graft prefix and shifted
    assert!(frag.groups.contains(&s("graftbody"), 3));
    // names were dropped
    assert_eq!(frag.ids.len(), 0);
    // a missing target anchor is reported
    let err = sub
        .generate_path(&base, &SelectOne::IdName(s("gone")), &SelectOne::Index(1))
        .unwrap_err();
    assert!(matches!(err, SubstituentError::EntryAtomNotFoundInTarget(_)));
}

#[test]
fn substituent_reports_missing_fragment_anchors() {
    let base = molecule(vec![atom(6, 0.0, 0.0, 0.0), atom(1, 1.0, 0.0, 0.0)]);
    let structure = molecule(vec![atom(1, 0.0, 0.0, 0.0), atom(8, 1.0, 0.0, 0.0)]);
    // the fragment's entry name is not bound
    let sub = Substituent {
        entry: SelectOne::IdName(s("absent")),
        target: SelectOne::Index(1),
        structure: structure.duplicated(),
        group_prefix: s("g"),
    };
    let err = sub
        .generate_path(&base, &SelectOne::Index(0), &SelectOne::Index(1))
        .unwrap_err();
    assert!(matches!(err, SubstituentError::EntryAtomNotFoundInSubstituent(_)));
    // the fragment's exit slot is out of range
    let sub2 = Substituent {
        entry: SelectOne::Index(0),
        target: SelectOne::Index(9),
        structure,
        group_prefix: s("g"),
    };
    let err2 = sub2
        .generate_path(&base, &SelectOne::Index(0), &SelectOne::Index(1))
        .unwrap_err();
    assert!(matches!(err2, SubstituentError::ExitAtomNotFoundInSusbstituent(_)));
}

#[test]
fn resolution_reports_chronologically_first_failure() {
    // two must-fail layers: the error names the selector of the first
    let mut store = LayerStorage::new();
    store.create_layers(vec![
        shift(1.0),
        Layer::SetCenter { select: SelectOne::IdName(s("first")), center: v(0.0, 0.0, 0.0) },
        Layer::SetCenter { select: SelectOne::IdName(s("second")), center: v(0.0, 0.0, 0.0) },
    ]);
    let base = molecule(vec![atom(6, 0.0, 0.0, 0.0)]);
    let err = store.read_stack(&vec![0, 1, 2], base.duplicated()).unwrap_err();
    assert!(matches!(err, LayerStorageError::SelectNotFound(SelectOne::IdName(n)) if n == "first"));
    // the memoized resolver reports the same first failure
    let mut ws = Workspace::new(base);
    ws.layers.create_layers(vec![
        shift(1.0),
        Layer::SetCenter { select: SelectOne::IdName(s("first")), center: v(0.0, 0.0, 0.0) },
        Layer::SetCenter { select: SelectOne::IdName(s("second")), center: v(0.0, 0.0, 0.0) },
    ]);
    let err2 = ws.cached_read_stack(&vec![0, 1, 2]).unwrap_err();
    assert!(
        matches!(err2, LayerStorageError::SelectNotFound(SelectOne::IdName(n)) if n == "first")
    );
    // a failing resolution caches only the prefixes it completed
    assert_eq!(ws.cache.len(), 1);
}

#[test]
fn guarded_fill_layer_edits() {
    let base = molecule(vec![atom(6, 0.0, 0.0, 0.0)]);
    let mut ws = Workspace::new(base);
    ws.layers.create_layers(vec![
        Layer::Fill { data: molecule(vec![atom(1, 0.0, 0.0, 0.0)]) },
        Layer::Transparent,
    ]);
    // editing an unreferenced fill layer succeeds
    ws.set_fill_layer_atoms(0, 1, vec![Some(atom(8, 2.0, 0.0, 0.0))]).unwrap();
    match ws.layers.read_layer(0).unwrap() {
        Layer::Fill { data } => {
            assert_eq!(data.atoms.read_atom(0).unwrap().element, 1);
            assert_eq!(data.atoms.read_atom(1).unwrap().element, 8);
        }
        _ => panic!("expected a fill layer"),
    }
    ws.set_fill_layer_bonds(0, vec![(0, 1, Some(1.0f64.to_bits()))]).unwrap();
    match ws.layers.read_layer(0).unwrap() {
        Layer::Fill { data } => {
            assert_eq!(data.bonds.read_bond(1, 0), Some(1.0f64.to_bits()));
        }
        _ => panic!("expected a fill layer"),
    }
    // a non-fill layer is refused
    let err = ws.set_fill_layer_atoms(1, 0, vec![]).unwrap_err();
    assert!(matches!(err, WorkspaceError::NotFillLayer(1)));
    // an unknown ID is refused
    let err = ws.set_fill_layer_atoms(5, 0, vec![]).unwrap_err();
    assert!(matches!(err, WorkspaceError::NoSuchLayer(5)));
    // once a stack references the layer, edits are refused
    ws.add_layers_on_stack(vec![0], vec![]);
    let err = ws.set_fill_layer_atoms(0, 0, vec![]).unwrap_err();
    assert!(matches!(err, WorkspaceError::LayerInUse(0)));
}
