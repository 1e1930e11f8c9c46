//! The geometric operations and the axis-angle fallback policy.

use layomol::chemistry::Atom3D;
use layomol::geom::{axis_angle_for_b2a, bits_are_nan, Quat, Vec3};
use layomol::group_name::GroupName;
use layomol::layer::{Layer, SelectMany, SelectOne};
use layomol::name_index::NameIndex;
use layomol::sparse_molecule::{SparseAtomList, SparseBondMatrix, SparseMolecule};

fn s(t: &str) -> String {
    t.to_string()
}

fn v(x: f64, y: f64, z: f64) -> Vec3 {
    Vec3 { x: x.to_bits(), y: y.to_bits(), z: z.to_bits() }
}

fn fv(p: Vec3) -> (f64, f64, f64) {
    (f64::from_bits(p.x), f64::from_bits(p.y), f64::from_bits(p.z))
}

fn atom(element: usize, x: f64, y: f64, z: f64) -> Atom3D {
    Atom3D { element, position: v(x, y, z), formal_charge: 0u64 }
}

fn pos(m: &SparseMolecule, i: usize) -> (f64, f64, f64) {
    fv(m.atoms.read_atom(i).unwrap().position)
}

fn close(a: (f64, f64, f64), b: (f64, f64, f64), tol: f64) -> bool {
    (a.0 - b.0).abs() < tol && (a.1 - b.1).abs() < tol && (a.2 - b.2).abs() < tol
}

fn molecule(atoms: Vec<Atom3D>) -> SparseMolecule {
    SparseMolecule {
        title: String::new(),
        atoms: SparseAtomList::from_atoms(atoms),
        bonds: SparseBondMatrix::new(0),
        ids: NameIndex::new(),
        groups: GroupName::new(),
    }
}

#[test]
fn reverse_vectors() {
    let (axis, angle) = axis_angle_for_b2a(v(1.0, 0.0, 0.0), v(-2.0, 0.0, 0.0));
    // exactly antiparallel: the fallback axis is +Y, the angle is pi
    assert_eq!(fv(axis), (0.0, 1.0, 0.0));
    assert!(!bits_are_nan(angle));
    assert!((f64::from_bits(angle) - std::f64::consts::PI).abs() < 1e-12);
}

#[test]
fn same_direction() {
    let (axis, angle) = axis_angle_for_b2a(v(1.0, 0.0, 0.0), v(-4.5, 1e-8, 1e-16));
    let (ax, ay, az) = fv(axis);
    assert!(!bits_are_nan(angle));
    assert!(!ax.is_nan() && !ay.is_nan() && !az.is_nan());
}

#[test]
fn vertical_vectors() {
    let (axis, angle) = axis_angle_for_b2a(v(-1.0, 0.0, 0.0), v(0.0, 2.0, 0.0));
    // rotating +Y onto -X turns about +Z by a right angle
    assert!(close(fv(axis), (0.0, 0.0, 1.0), 1e-12));
    assert!((f64::from_bits(angle) - std::f64::consts::FRAC_PI_2).abs() < 1e-12);
}

#[test]
fn zero_vector() {
    let (axis, angle) = axis_angle_for_b2a(v(1.0, 0.0, 0.0), v(0.0, 0.0, 0.0));
    // a zero-length vector falls back to the +Y axis and a zero angle
    assert_eq!(fv(axis), (0.0, 1.0, 0.0));
    assert_eq!(f64::from_bits(angle), 0.0);
}

#[test]
fn end_to_end_center_align_translate() {
    let mut base = molecule(vec![atom(6, 0.0, 0.0, 0.0), atom(8, 1.0, 0.0, 0.0)]);
    base.bonds.set_bond(0, 1, Some(1.0f64.to_bits()));
    let step1 = Layer::SetCenter { select: SelectOne::Index(0), center: v(0.0, 0.0, 0.0) }
        .filter(base)
        .unwrap();
    let step2 = Layer::DirectionAlign { select: SelectOne::Index(1), direction: v(1.0, 0.0, 0.0) }
        .filter(step1)
        .unwrap();
    let step3 = Layer::Translation { select: SelectMany::All, vector: v(5.0, 0.0, 0.0) }
        .filter(step2)
        .unwrap();
    assert_eq!(pos(&step3, 0), (5.0, 0.0, 0.0));
    assert_eq!(pos(&step3, 1), (6.0, 0.0, 0.0));
    assert_eq!(step3.bonds.read_bond(0, 1), Some(1.0f64.to_bits()));
}

#[test]
fn mirror_round_trip() {
    let base = molecule(vec![atom(6, 1.0, 2.0, 3.0), atom(8, -0.5, 0.25, 4.0)]);
    let mirror = |m: SparseMolecule| {
        Layer::Mirror {
            select: SelectMany::All,
            center: v(0.5, -1.0, 2.0),
            law_vector: v(1.0, 1.0, 0.0),
        }
        .filter(m)
        .unwrap()
    };
    let once = mirror(base);
    assert!(!close(pos(&once, 0), (1.0, 2.0, 3.0), 1e-9));
    let twice = mirror(once);
    assert!(close(pos(&twice, 0), (1.0, 2.0, 3.0), 1e-9));
    assert!(close(pos(&twice, 1), (-0.5, 0.25, 4.0), 1e-9));
}

#[test]
fn rotation_quarter_turn() {
    let base = molecule(vec![atom(6, 1.0, 0.0, 0.0)]);
    let out = Layer::Rotation {
        select: SelectMany::All,
        center: v(0.0, 0.0, 0.0),
        axis: v(0.0, 0.0, 2.0),
        angle: 90.0f64.to_bits(),
        degree: true,
    }
    .filter(base)
    .unwrap();
    // the axis is normalized, so the angle stays a quarter turn
    assert!(close(pos(&out, 0), (0.0, 1.0, 0.0), 1e-12));
}

#[test]
fn rotation_zero_axis_is_identity() {
    let base = molecule(vec![atom(6, 1.0, 2.0, 3.0)]);
    let out = Layer::Rotation {
        select: SelectMany::All,
        center: v(4.0, 4.0, 4.0),
        axis: v(0.0, 0.0, 0.0),
        angle: 1.0f64.to_bits(),
        degree: false,
    }
    .filter(base)
    .unwrap();
    assert_eq!(pos(&out, 0), (1.0, 2.0, 3.0));
}

#[test]
fn translation_to_and_rotation_to() {
    let mut base = molecule(vec![atom(6, 1.0, 1.0, 0.0), atom(8, 2.0, 1.0, 0.0)]);
    base.ids.insert(s("c"), 0);
    let moved = Layer::TranslationTo {
        select: SelectMany::All,
        target: SelectOne::IdName(s("c")),
        position: v(0.0, 0.0, 0.0),
    }
    .filter(base)
    .unwrap();
    assert!(close(pos(&moved, 0), (0.0, 0.0, 0.0), 1e-12));
    assert!(close(pos(&moved, 1), (1.0, 0.0, 0.0), 1e-12));
    let turned = Layer::RotationTo {
        a: SelectOne::Index(0),
        b: SelectOne::Index(1),
        select: SelectMany::All,
        direction: v(0.0, 1.0, 0.0),
    }
    .filter(moved)
    .unwrap();
    assert!(close(pos(&turned, 1), (0.0, 1.0, 0.0), 1e-12));
}

#[test]
fn isometry_rotate_then_translate() {
    let base = molecule(vec![atom(6, 1.0, 0.0, 0.0)]);
    // a half turn about +Z, then a unit shift along +X
    let half = std::f64::consts::FRAC_PI_2;
    let q = Quat {
        x: 0.0f64.to_bits(),
        y: 0.0f64.to_bits(),
        z: half.sin().to_bits(),
        w: half.cos().to_bits(),
    };
    let out = Layer::Isometry {
        select: SelectMany::All,
        rotation: q,
        translation: v(1.0, 0.0, 0.0),
    }
    .filter(base)
    .unwrap();
    assert!(close(pos(&out, 0), (0.0, 0.0, 0.0), 1e-12));
}

#[test]
fn xy_align_three_point_frame() {
    let base = molecule(vec![
        atom(6, 1.0, 1.0, 1.0),
        atom(7, 2.0, 1.0, 1.0),
        atom(8, 1.0, 3.0, 1.0),
    ]);
    let out = Layer::XYAlign {
        o: SelectOne::Index(0),
        x: SelectOne::Index(1),
        y: SelectOne::Index(2),
        select: SelectMany::All,
    }
    .filter(base)
    .unwrap();
    assert!(close(pos(&out, 0), (0.0, 0.0, 0.0), 1e-9));
    assert!(close(pos(&out, 1), (1.0, 0.0, 0.0), 1e-9));
    assert!(close(pos(&out, 2), (0.0, 2.0, 0.0), 1e-9));
}
