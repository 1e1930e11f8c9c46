//! Grafting a substituent onto a target molecule.
//!
//! A substituent is a molecule fragment with a named entry atom and a
//! named exit atom.  Grafting aligns the fragment's entry-to-exit
//! direction with a chosen bond direction of the target, shifts the
//! fragment past the target's slots, clears its two anchor slots, and
//! rebinds the target's anchor selectors to the moved atoms — yielding a
//! fragment molecule ready to be laid over the target.

use vstd::prelude::*;
use crate::chemistry::Atom3D;
use crate::geom::{
    add_v, cross_v, div_s, dot_s, is_nan_bits, is_zero_bits, len_s, mul_s, norm_v, quat_scaled,
    rotate_v, scale_v, sub_v, v_cross, v_dot, v_len, v_norm, v_scale, v_sub, q_from_scaled_axis,
    s_div, s_mul, bits_are_nan, bits_are_zero, Vec3, NEG_ONE_BITS, ONE_BITS, PI_BITS, ZERO_BITS,
};
use crate::layer::{
    every_index, lemma_to_index_same_entries, rotate_atoms_origin, sel_view, translate_atoms,
    with_position, SelectOne,
};
use crate::name_index::NameIndex;
use crate::sparse_molecule::SparseMolecule;

verus! {

/// Whether the selector names exactly slot `x` absolutely.
pub open spec fn sel_is_index_at(s: &SelectOne, x: int) -> bool {
    match s {
        SelectOne::Index(i) => x == *i,
        SelectOne::IdName(_) => false,
    }
}

/// One past the slot an absolute selector writes; symbolic selectors
/// write nothing into a fragment whose names were dropped.
pub open spec fn write_end(s: &SelectOne) -> int {
    match s {
        SelectOne::Index(i) => *i as int + 1,
        SelectOne::IdName(_) => 0,
    }
}

/// Which anchor atom a graft could not find, and on which side.
#[derive(Debug)]
pub enum SubstituentError {
    EntryAtomNotFoundInTarget(SelectOne),
    ExitAtomNotFoundInTarget(SelectOne),
    EntryAtomNotFoundInSubstituent(SelectOne),
    ExitAtomNotFoundInSusbstituent(SelectOne),
}

/// A molecule fragment with its two anchor selectors and the prefix its
/// group names receive when grafted.
#[derive(Debug)]
pub struct Substituent {
    pub entry: SelectOne,
    pub target: SelectOne,
    pub structure: SparseMolecule,
    pub group_prefix: String,
}

/// The rotation a graft applies: about the cross product of the two
/// directions (falling back to +X when they are parallel), scaled by the
/// cosine ratio of the directions (clamped to a half turn when the
/// computation yields NaN).
pub open spec fn graft_rotation(a: (u64, u64, u64), b: (u64, u64, u64)) -> (u64, u64, u64, u64) {
    let axis = if is_zero_bits(len_s(cross_v(a, b))) {
        (ONE_BITS, ZERO_BITS, ZERO_BITS)
    } else {
        norm_v(cross_v(a, b))
    };
    let raw = div_s(dot_s(a, b), mul_s(len_s(a), len_s(b)));
    let angle = if is_nan_bits(raw) {
        PI_BITS
    } else {
        raw
    };
    quat_scaled(scale_v(axis, angle))
}

/// The position every fragment atom ends at: moved to put the fragment's
/// entry at the origin, rotated, moved back, then carried onto the
/// target's entry atom.
pub open spec fn graft_position(
    p: (u64, u64, u64),
    q: (u64, u64, u64, u64),
    sub_entry: (u64, u64, u64),
    target_entry: (u64, u64, u64),
) -> (u64, u64, u64) {
    let p1 = add_v(p, scale_v(sub_entry, NEG_ONE_BITS));
    let p2 = rotate_v(q, p1);
    let p3 = add_v(p2, sub_entry);
    add_v(p3, sub_v(target_entry, sub_entry))
}

impl Substituent {
    /// If both fragment anchors resolve to present atoms, they name two
    /// distinct slots.  (On equal slots the graft would clear its own
    /// exit atom before reading it back.)
    pub open spec fn anchors_distinct(&self) -> bool {
        (self.entry.spec_get_atom(&self.structure) is Some && self.target.spec_get_atom(
            &self.structure,
        ) is Some) ==> self.entry.spec_to_index(&self.structure) != self.target.spec_to_index(
            &self.structure,
        )
    }

    /// Builds the grafted fragment: the structure aligned onto the
    /// target's entry-to-exit direction, shifted past the target's
    /// slots, anchors cleared and rebound, groups renamed under the
    /// graft prefix, names dropped.
    pub fn generate_path(
        &self,
        base: &SparseMolecule,
        entry: &SelectOne,
        target: &SelectOne,
    ) -> (r: Result<SparseMolecule, SubstituentError>)
        requires
            base.ids.wf(),
            self.structure.wf(),
            self.anchors_distinct(),
            self.structure.atoms.data@.len() + base.atoms.data@.len() <= usize::MAX,
            self.structure.bonds.view_rows().len() + base.atoms.data@.len() <= usize::MAX,
            forall|i: int|
                0 <= i < self.structure.groups.pairs().len()
                    ==> (#[trigger] self.structure.groups.pairs()[i]).1 + base.atoms.data@.len()
                    <= usize::MAX,
            forall|i: int|
                0 <= i < self.structure.ids.entries().len()
                    ==> (#[trigger] self.structure.ids.entries()[i]).1 + base.atoms.data@.len()
                    <= usize::MAX,
            entry.spec_to_index(base) is Some ==> entry.spec_to_index(base)->0 < usize::MAX,
            target.spec_to_index(base) is Some ==> target.spec_to_index(base)->0 < usize::MAX,
        ensures
            (r is Err) == (entry.spec_get_atom(base) is None || target.spec_get_atom(base)
                is None || self.entry.spec_get_atom(&self.structure) is None
                || self.target.spec_get_atom(&self.structure) is None),
            match r {
                Ok(m) => {
                    let l = base.atoms.data@.len() as int;
                    let te = entry.spec_get_atom(base)->0;
                    let tx = target.spec_get_atom(base)->0;
                    let se = self.entry.spec_get_atom(&self.structure)->0;
                    let sx = self.target.spec_get_atom(&self.structure)->0;
                    let q = graft_rotation(
                        sub_v(tx.position@, te.position@),
                        sub_v(sx.position@, se.position@),
                    );
                    let slen = self.structure.atoms.data@.len() as int;
                    let entry_i = self.entry.spec_to_index(&self.structure)->0;
                    let exit_i = self.target.spec_to_index(&self.structure)->0;
                    let moved_exit = crate::layer::with_position(
                        sx,
                        crate::geom::vec3_of(
                            graft_position(sx.position@, q, se.position@, te.position@),
                        ),
                    );
                    &&& m.wf()
                    &&& m.ids.entries().len() == 0
                    &&& m.atoms.data@.len() == crate::sparse_molecule::max_usize(
                        crate::sparse_molecule::max_usize(l + slen, write_end(entry)),
                        write_end(target),
                    )
                    &&& forall|x: int|
                        0 <= x < m.atoms.data@.len() ==> #[trigger] m.atoms.data@[x] == if sel_is_index_at(
                            target,
                            x,
                        ) {
                            Some(moved_exit)
                        } else if sel_is_index_at(entry, x) {
                            Some(te)
                        } else if x == l + entry_i || x == l + exit_i {
                            None::<Atom3D>
                        } else if l <= x < l + slen {
                            match self.structure.atoms.data@[x - l] {
                                Some(at) => Some(
                                    crate::layer::with_position(
                                        at,
                                        crate::geom::vec3_of(
                                            graft_position(
                                                at.position@,
                                                q,
                                                se.position@,
                                                te.position@,
                                            ),
                                        ),
                                    ),
                                ),
                                None => None::<Atom3D>,
                            }
                        } else {
                            None::<Atom3D>
                        }
                    &&& forall|g: Seq<char>, x: usize| #[trigger]
                        m.groups.has(g, x) <==> (x >= l && crate::n_to_n::prefix_pairs(
                            self.structure.groups.pairs(),
                            self.group_prefix@,
                        ).contains((g, (x - l) as usize)))
                    &&& forall|x: int, y: int| #[trigger]
                        m.bonds.spec_bond(x, y) == if x >= l && y >= l {
                            self.structure.bonds.spec_bond(x - l, y - l)
                        } else {
                            None::<u64>
                        }
                },
                Err(e) => if entry.spec_get_atom(base) is None {
                    e matches SubstituentError::EntryAtomNotFoundInTarget(sl) && sel_view(&sl)
                        == sel_view(entry)
                } else if target.spec_get_atom(base) is None {
                    e matches SubstituentError::ExitAtomNotFoundInTarget(sl) && sel_view(&sl)
                        == sel_view(target)
                } else if self.entry.spec_get_atom(&self.structure) is None {
                    e matches SubstituentError::EntryAtomNotFoundInSubstituent(sl) && sel_view(
                        &sl,
                    ) == sel_view(&self.entry)
                } else {
                    e matches SubstituentError::ExitAtomNotFoundInSusbstituent(sl) && sel_view(
                        &sl,
                    ) == sel_view(&self.target)
                },
            },
    {
        let target_entry = match entry.get_atom(base) {
            Some(a) => a,
            None => {
                return Err(SubstituentError::EntryAtomNotFoundInTarget(entry.duplicated()));
            },
        };
        let target_exit = match target.get_atom(base) {
            Some(a) => a,
            None => {
                return Err(SubstituentError::ExitAtomNotFoundInTarget(target.duplicated()));
            },
        };
        let a_dir = v_sub(target_exit.position, target_entry.position);
        let sub_entry = match self.entry.get_atom(&self.structure) {
            Some(a) => a,
            None => {
                return Err(SubstituentError::EntryAtomNotFoundInSubstituent(
                    self.entry.duplicated(),
                ));
            },
        };
        let sub_exit = match self.target.get_atom(&self.structure) {
            Some(a) => a,
            None => {
                return Err(SubstituentError::ExitAtomNotFoundInSusbstituent(
                    self.target.duplicated(),
                ));
            },
        };
        let b_dir = v_sub(sub_exit.position, sub_entry.position);
        let cross = v_cross(a_dir, b_dir);
        let x_axis = Vec3 { x: ONE_BITS, y: ZERO_BITS, z: ZERO_BITS };
        let axis = if bits_are_zero(v_len(cross)) {
            x_axis
        } else {
            v_norm(cross)
        };
        let raw = s_div(v_dot(a_dir, b_dir), s_mul(v_len(a_dir), v_len(b_dir)));
        let angle = if bits_are_nan(raw) {
            PI_BITS
        } else {
            raw
        };
        let q = q_from_scaled_axis(v_scale(axis, angle));
        let mut sub = self.structure.duplicated();
        proof {
            assert(sub.bonds.view_rows() == self.structure.bonds.view_rows());
            assert(sub.ids.entries() == self.structure.ids.entries());
            assert(sub.groups.pairs() == self.structure.groups.pairs());
            assert(sub.wf());
            lemma_to_index_same_entries(&self.entry, &self.structure, &sub);
            lemma_to_index_same_entries(&self.target, &self.structure, &sub);
        }
        let ghost entry_i0 = self.entry.spec_to_index(&self.structure)->0;
        let ghost exit_i0 = self.target.spec_to_index(&self.structure)->0;
        let every = every_index(sub.atoms.len());
        translate_atoms(&mut sub.atoms, &every, v_scale(sub_entry.position, NEG_ONE_BITS));
        let every = every_index(sub.atoms.len());
        rotate_atoms_origin(&mut sub.atoms, &every, q);
        let every = every_index(sub.atoms.len());
        translate_atoms(&mut sub.atoms, &every, sub_entry.position);
        let every = every_index(sub.atoms.len());
        translate_atoms(
            &mut sub.atoms,
            &every,
            v_sub(target_entry.position, sub_entry.position),
        );
        proof {
            lemma_to_index_same_entries(&self.entry, &self.structure, &sub);
            lemma_to_index_same_entries(&self.target, &self.structure, &sub);
        }
        let entry_idx = match self.entry.to_index(&sub) {
            Some(i) => i,
            None => {
                proof {
                    assert(false);
                }
                return Err(SubstituentError::EntryAtomNotFoundInSubstituent(
                    self.entry.duplicated(),
                ));
            },
        };
        let mut one: Vec<Option<Atom3D>> = Vec::new();
        one.push(None);
        assert(entry_idx < sub.atoms.data@.len());
        sub.atoms.set_atoms(entry_idx, one);
        let exit_atom = match self.target.get_atom(&sub) {
            Some(a) => a,
            None => {
                proof {
                    assert(false);
                }
                return Err(SubstituentError::ExitAtomNotFoundInSusbstituent(
                    self.target.duplicated(),
                ));
            },
        };
        let exit_idx = match self.target.to_index(&sub) {
            Some(i) => i,
            None => {
                proof {
                    assert(false);
                }
                return Err(SubstituentError::ExitAtomNotFoundInSusbstituent(
                    self.target.duplicated(),
                ));
            },
        };
        let mut one2: Vec<Option<Atom3D>> = Vec::new();
        one2.push(None);
        sub.atoms.set_atoms(exit_idx, one2);
        let l_off = base.atoms.len();
        proof {
            assert(sub.atoms.data@.len() == self.structure.atoms.data@.len());
            assert(sub.ids.entries() == self.structure.ids.entries());
            assert(sub.groups.pairs() == self.structure.groups.pairs());
            assert(sub.bonds.view_rows() == self.structure.bonds.view_rows());
        }
        let mut moved = sub.offset(l_off);
        moved.groups = moved.groups.prefixed(&self.group_prefix);
        moved.ids = NameIndex::new();
        proof {
            assert(moved.groups.pairs() =~~= crate::n_to_n::shift_pairs(
                crate::n_to_n::prefix_pairs(self.structure.groups.pairs(), self.group_prefix@),
                l_off as int,
            )) by {
                let lhs = crate::n_to_n::prefix_pairs(
                    crate::n_to_n::shift_pairs(self.structure.groups.pairs(), l_off as int),
                    self.group_prefix@,
                );
                let rhs = crate::n_to_n::shift_pairs(
                    crate::n_to_n::prefix_pairs(self.structure.groups.pairs(), self.group_prefix@),
                    l_off as int,
                );
                assert(lhs.len() == rhs.len());
                assert forall|i: int| 0 <= i < lhs.len() implies lhs[i] == rhs[i] by {}
                assert(lhs =~~= rhs);
            }
        }
        match entry.to_index(&moved) {
            Some(i) => {
                let mut w: Vec<Option<Atom3D>> = Vec::new();
                w.push(Some(target_entry));
                moved.atoms.set_atoms(i, w);
            },
            None => (),
        }
        match target.to_index(&moved) {
            Some(i) => {
                let mut w: Vec<Option<Atom3D>> = Vec::new();
                w.push(Some(exit_atom));
                moved.atoms.set_atoms(i, w);
            },
            None => (),
        }
        proof {
            crate::n_to_n::lemma_shift_contains(
                crate::n_to_n::prefix_pairs(self.structure.groups.pairs(), self.group_prefix@),
                l_off,
            );
        }
        Ok(moved)
    }
}

} // verus!
