//! The layer operation set and the selector algebra.
//!
//! A layer is a pure, declarative edit: applied to a molecule it yields
//! either the edited molecule or the selector that could not be resolved.
//! Selectors name one atom (by index or symbolic name) or a set of atoms
//! (all, by element, by explicit indices, by range, by group, or by an
//! include/exclude composition).

use vstd::prelude::*;
use crate::chemistry::{Atom3D, HIDDEN_ELEMENT_OFFSET};
use crate::geom::{
    add_v, bits_are_zero, chosen_angle, chosen_axis, deg_to_rad, degrees_to_radians, dot_s,
    is_zero_bits, len_s, norm_v, quat_of, rotate_v, scale_v, sub_v, q_from_axis_angle, q_rotate,
    v_add, v_dot, v_len, v_norm, v_scale, v_sub, Quat, Vec3, TWO_BITS, ZERO_BITS,
};
use crate::sparse_molecule::{
    atom_at, max_usize, merged_atom, merged_bond, migrated, SparseAtomList, SparseMolecule,
};

verus! {

broadcast use vstd::seq_lib::lemma_seq_contains_after_push;

/// A reference to a single atom: an absolute slot index, or a symbolic
/// name looked up in the molecule's name index.
#[derive(Debug, Clone)]
pub enum SelectOne {
    Index(usize),
    IdName(String),
}

impl SelectOne {
    /// The slot the selector points at: an index is itself, a name is
    /// whatever the molecule's name index binds it to.
    pub open spec fn spec_to_index(&self, m: &SparseMolecule) -> Option<usize> {
        match self {
            SelectOne::Index(i) => Some(*i),
            SelectOne::IdName(n) => m.ids.spec_get(n@),
        }
    }

    /// The atom the selector reads: resolve, then read that slot.
    pub open spec fn spec_get_atom(&self, m: &SparseMolecule) -> Option<Atom3D> {
        match self.spec_to_index(m) {
            Some(i) => atom_at(m.atoms.data@, i as int),
            None => None,
        }
    }

    /// Resolves the selector against `m`.
    pub fn to_index(&self, m: &SparseMolecule) -> (r: Option<usize>)
        requires
            m.ids.wf(),
        ensures
            r == self.spec_to_index(m),
    {
        match self {
            SelectOne::Index(i) => Some(*i),
            SelectOne::IdName(n) => m.ids.get(n),
        }
    }

    /// Resolves the selector and reads the atom there.
    pub fn get_atom(&self, m: &SparseMolecule) -> (r: Option<Atom3D>)
        requires
            m.ids.wf(),
        ensures
            r == self.spec_get_atom(m),
    {
        match self.to_index(m) {
            Some(i) => m.atoms.read_atom(i),
            None => None,
        }
    }

    /// An equal copy of the selector.
    pub fn duplicated(&self) -> (r: Self)
        ensures
            sel_view(&r) == sel_view(self),
    {
        match self {
            SelectOne::Index(i) => SelectOne::Index(*i),
            SelectOne::IdName(n) => SelectOne::IdName(n.clone()),
        }
    }
}

/// The abstract value of a one-atom selector.
pub enum SelView {
    Idx(usize),
    Name(Seq<char>),
}

/// The abstract value of a `SelectOne`.
pub open spec fn sel_view(s: &SelectOne) -> SelView {
    match s {
        SelectOne::Index(i) => SelView::Idx(*i),
        SelectOne::IdName(n) => SelView::Name(n@),
    }
}

/// A reference to a set of atoms.
#[derive(Debug)]
pub enum SelectMany {
    /// Every slot of the molecule.
    All,
    /// The union of `includes`, minus the union of `excludes`, every
    /// sub-selector resolved against the same molecule snapshot.
    Complex { includes: Vec<SelectMany>, excludes: Vec<SelectMany> },
    /// Every slot holding a present atom of this element code.
    Element(usize),
    /// Whatever each one-atom selector resolves to; unresolvable members
    /// are silently dropped.
    Indexes(Vec<SelectOne>),
    /// The inclusive index range `start..=end`.
    Range { start: usize, end: usize },
    /// Every index the named group holds.
    GroupName(String),
}

impl SelectMany {
    /// Whether slot `i` is selected, resolved against molecule `m`.
    pub open spec fn selects(&self, m: &SparseMolecule, i: usize) -> bool
        decreases self,
    {
        match self {
            SelectMany::All => i < m.atoms.data@.len(),
            SelectMany::Element(e) => match atom_at(m.atoms.data@, i as int) {
                Some(a) => a.element == *e,
                None => false,
            },
            SelectMany::Indexes(sels) => exists|j: int|
                0 <= j < sels@.len() && (#[trigger] sels@[j]).spec_to_index(m) == Some(i),
            SelectMany::Range { start, end } => *start <= i <= *end,
            SelectMany::GroupName(n) => m.groups.has(n@, i),
            SelectMany::Complex { includes, excludes } => (exists|j: int|
                0 <= j < includes@.len() && (#[trigger] includes@[j]).selects(m, i)) && (forall|
                j: int,
            |
                0 <= j < excludes@.len() ==> !(#[trigger] excludes@[j]).selects(m, i)),
        }
    }
}

/// Whether slot `y` holds a present atom whose element code is `e`.
pub open spec fn element_selected(m: &SparseMolecule, e: usize, y: usize) -> bool {
    match atom_at(m.atoms.data@, y as int) {
        Some(a) => a.element == e,
        None => false,
    }
}

/// A strictly increasing sequence of indices: a canonical set.
pub open spec fn sorted_unique(s: Seq<usize>) -> bool {
    forall|i: int, j: int| 0 <= i < j < s.len() ==> s[i] < s[j]
}

/// Inserts `x` into a strictly sorted vector, keeping it sorted; a
/// no-op when `x` is already there.
pub fn sorted_insert(v: &mut Vec<usize>, x: usize)
    requires
        sorted_unique(old(v)@),
    ensures
        sorted_unique(final(v)@),
        forall|y: usize| #[trigger] final(v)@.contains(y) <==> (old(v)@.contains(y) || y == x),
{
    let n = v.len();
    let mut pos: usize = 0;
    while pos < n && v[pos] < x
        invariant
            sorted_unique(v@),
            *v == *old(v),
            n == v@.len(),
            pos <= n,
            forall|j: int| 0 <= j < pos ==> v@[j] < x,
        decreases n - pos,
    {
        pos = pos + 1;
    }
    if pos < n && v[pos] == x {
        proof {
            assert(v@.contains(x));
        }
        return ;
    }
    v.insert(pos, x);
    proof {
        assert forall|i: int, j: int| 0 <= i < j < v@.len() implies v@[i] < v@[j] by {
            if j < pos {
            } else if i < pos && j == pos {
            } else if i == pos {
                assert(v@[j] == old(v)@[j - 1]);
                assert(old(v)@[pos as int] > x || old(v)@[pos as int] == x || old(v)@[pos as int]
                    < x);
            } else if i > pos {
                assert(v@[i] == old(v)@[i - 1]);
                assert(v@[j] == old(v)@[j - 1]);
            } else {
                assert(v@[i] == old(v)@[i]);
                assert(v@[j] == old(v)@[j - 1]);
                assert(j - 1 >= pos);
                if j - 1 == pos {
                    assert(v@[i] < x);
                } else {
                    assert(old(v)@[i] < old(v)@[j - 1]);
                }
            }
        }
        assert forall|y: usize| #[trigger] v@.contains(y) implies (old(v)@.contains(y) || y
            == x) by {
            let k = choose|k: int| 0 <= k < v@.len() && v@[k] == y;
            if k < pos {
                assert(old(v)@[k] == y);
            } else if k > pos {
                assert(old(v)@[k - 1] == y);
            }
        }
        assert forall|y: usize| old(v)@.contains(y) || y == x implies #[trigger] v@.contains(
            y,
        ) by {
            if y == x {
                assert(v@[pos as int] == x);
            } else if old(v)@.contains(y) {
                let k = choose|k: int| 0 <= k < old(v)@.len() && old(v)@[k] == y;
                if k < pos {
                    assert(v@[k] == y);
                } else {
                    assert(v@[k + 1] == y);
                }
            }
        }
    }
}

/// The elements of `v` that are not members of `rem`, in order.
pub fn remove_members(v: &Vec<usize>, rem: &Vec<usize>) -> (r: Vec<usize>)
    requires
        sorted_unique(v@),
    ensures
        sorted_unique(r@),
        forall|y: usize| #[trigger] r@.contains(y) <==> (v@.contains(y) && !rem@.contains(y)),
{
    let mut out: Vec<usize> = Vec::new();
    let n = v.len();
    for i in 0..n
        invariant
            n == v@.len(),
            sorted_unique(v@),
            sorted_unique(out@),
            forall|y: usize| #[trigger]
                out@.contains(y) <==> (v@.subrange(0, i as int).contains(y) && !rem@.contains(y)),
            forall|k: int|
                0 <= k < out@.len() ==> v@.subrange(0, i as int).contains(#[trigger] out@[k]),
    {
        let ghost prev = out@;
        if !crate::n_to_n::vec_contains_usize(rem, v[i]) {
            proof {
                if prev.contains(v@[i as int]) {
                    let t = choose|t: int|
                        0 <= t < i && #[trigger] v@.subrange(0, i as int)[t] == v@[i as int];
                    assert(false);
                }
                assert forall|a: int, b: int| 0 <= a < b < prev.push(v@[i as int]).len() implies
                    prev.push(v@[i as int])[a] < prev.push(v@[i as int])[b] by {
                    if b == prev.len() {
                        assert(v@.subrange(0, i as int).contains(prev[a]));
                        let t = choose|t: int|
                            0 <= t < i && #[trigger] v@.subrange(0, i as int)[t] == prev[a];
                        assert(v@[t] < v@[i as int]);
                    }
                }
            }
            out.push(v[i]);
        }
        proof {
            assert forall|y: usize| #[trigger]
                out@.contains(y) <==> (v@.subrange(0, i + 1).contains(y) && !rem@.contains(
                    y,
                )) by {
                if out@.contains(y) {
                    if prev.contains(y) {
                        let k = choose|k: int| 0 <= k < i && v@.subrange(0, i as int)[k] == y;
                        assert(v@.subrange(0, i + 1)[k] == y);
                    } else {
                        assert(y == v@[i as int]);
                        assert(v@.subrange(0, i + 1)[i as int] == y);
                    }
                }
                if v@.subrange(0, i + 1).contains(y) && !rem@.contains(y) {
                    let k = choose|k: int| 0 <= k <= i && #[trigger] v@.subrange(0, i + 1)[k] == y;
                    if k < i {
                        assert(v@.subrange(0, i as int)[k] == y);
                        assert(prev.contains(y));
                    }
                }
            }
            assert forall|k: int|
                0 <= k < out@.len() implies v@.subrange(0, i + 1).contains(
                #[trigger] out@[k],
            ) by {
                if k < prev.len() {
                    assert(v@.subrange(0, i as int).contains(prev[k]));
                    let t = choose|t: int|
                        0 <= t < i && #[trigger] v@.subrange(0, i as int)[t] == prev[k];
                    assert(v@.subrange(0, i + 1)[t] == out@[k]);
                } else {
                    assert(v@.subrange(0, i + 1)[i as int] == out@[k]);
                }
            }
        }
    }
    proof {
        assert(v@.subrange(0, n as int) =~= v@);
    }
    out
}

impl SelectMany {
    /// The selected indices, as a strictly sorted vector: the canonical
    /// set form.
    pub fn to_indexes(&self, m: &SparseMolecule) -> (r: Vec<usize>)
        requires
            m.ids.wf(),
            m.groups.wf(),
        ensures
            sorted_unique(r@),
            forall|i: usize| #[trigger] r@.contains(i) <==> self.selects(m, i),
        decreases self,
    {
        match self {
            SelectMany::All => {
                let n = m.atoms.len();
                let mut out: Vec<usize> = Vec::new();
                for i in 0..n
                    invariant
                        n == m.atoms.data@.len(),
                        out@.len() == i,
                        forall|j: int| 0 <= j < i ==> out@[j] == j,
                {
                    out.push(i);
                }
                proof {
                    assert forall|i: usize| #[trigger] out@.contains(i) <==> i < n by {
                        if i < n {
                            assert(out@[i as int] == i);
                        }
                    }
                }
                out
            },
            SelectMany::Element(e) => {
                let n = m.atoms.len();
                let mut out: Vec<usize> = Vec::new();
                for i in 0..n
                    invariant
                        n == m.atoms.data@.len(),
                        sorted_unique(out@),
                        forall|k: int| 0 <= k < out@.len() ==> out@[k] < i,
                        forall|y: usize| #[trigger]
                            out@.contains(y) <==> (y < i && element_selected(m, *e, y)),
                {
                    let ghost prev = out@;
                    let sel = match m.atoms.read_atom(i) {
                        Some(a) => a.element == *e,
                        None => false,
                    };
                    if sel {
                        out.push(i);
                        proof {
                            assert forall|a: int, b: int|
                                0 <= a < b < out@.len() implies out@[a] < out@[b] by {
                                if b == prev.len() {
                                    assert(prev.contains(prev[a]));
                                }
                            }
                        }
                    }
                    proof {
                        assert forall|y: usize| #[trigger]
                            out@.contains(y) <==> (y < i + 1 && element_selected(m, *e, y)) by {
                            if out@.contains(y) && !prev.contains(y) {
                                assert(y == i);
                            }
                            if y < i + 1 && element_selected(m, *e, y) && y >= i {
                                assert(y == i);
                                assert(sel);
                                assert(out@[out@.len() - 1] == i);
                            }
                        }
                        assert(forall|k: int| 0 <= k < out@.len() ==> out@[k] < i + 1);
                    }
                }
                proof {
                    assert forall|y: usize| #[trigger]
                        out@.contains(y) <==> self.selects(m, y) by {
                        assert(self.selects(m, y) == element_selected(m, *e, y));
                        if element_selected(m, *e, y) {
                            assert(y < n);
                        }
                    }
                }
                out
            },
            SelectMany::Range { start, end } => {
                let mut out: Vec<usize> = Vec::new();
                let s = *start;
                let e = *end;
                if s > e {
                    proof {
                        assert forall|y: usize| !(#[trigger] out@.contains(y)) by {}
                    }
                    return out;
                }
                let count = e - s;
                for k in 0..count
                    invariant
                        count == e - s,
                        out@.len() == k,
                        forall|j: int| 0 <= j < k ==> out@[j] == s + j,
                {
                    out.push(s + k);
                }
                out.push(e);
                proof {
                    assert forall|y: usize| #[trigger] out@.contains(y) <==> (s <= y <= e) by {
                        if s <= y <= e {
                            assert(out@[y - s] == y);
                        }
                    }
                }
                out
            },
            SelectMany::GroupName(n) => {
                let members = m.groups.get_left(n);
                let mut out: Vec<usize> = Vec::new();
                let k = members.len();
                for i in 0..k
                    invariant
                        k == members@.len(),
                        sorted_unique(out@),
                        forall|y: usize| #[trigger]
                            out@.contains(y) <==> members@.subrange(0, i as int).contains(y),
                {
                    let ghost prev = out@;
                    sorted_insert(&mut out, members[i]);
                    proof {
                        assert forall|y: usize| #[trigger]
                            out@.contains(y) <==> members@.subrange(0, i + 1).contains(y) by {
                            if out@.contains(y) {
                                if prev.contains(y) {
                                    let t = choose|t: int|
                                        0 <= t < i && members@.subrange(0, i as int)[t] == y;
                                    assert(members@.subrange(0, i + 1)[t] == y);
                                } else {
                                    assert(y == members@[i as int]);
                                    assert(members@.subrange(0, i + 1)[i as int] == y);
                                }
                            }
                            if members@.subrange(0, i + 1).contains(y) {
                                let t = choose|t: int|
                                    0 <= t <= i && #[trigger] members@.subrange(0, i + 1)[t] == y;
                                if t < i {
                                    assert(members@.subrange(0, i as int)[t] == y);
                                }
                            }
                        }
                    }
                }
                proof {
                    assert(members@.subrange(0, k as int) =~= members@);
                }
                out
            },
            SelectMany::Indexes(sels) => {
                let mut out: Vec<usize> = Vec::new();
                let k = sels.len();
                for i in 0..k
                    invariant
                        m.ids.wf(),
                        k == sels@.len(),
                        sorted_unique(out@),
                        forall|y: usize| #[trigger] out@.contains(y) <==> exists|j: int|
                            0 <= j < i && (#[trigger] sels@[j]).spec_to_index(m) == Some(y),
                {
                    let ghost prev = out@;
                    match sels[i].to_index(m) {
                        Some(x) => {
                            sorted_insert(&mut out, x);
                            proof {
                                assert forall|y: usize| #[trigger] out@.contains(y) implies exists|
                                    j: int,
                                |
                                    0 <= j < i + 1 && (#[trigger] sels@[j]).spec_to_index(m)
                                        == Some(y) by {
                                    if prev.contains(y) {
                                        let j = choose|j: int|
                                            0 <= j < i && (#[trigger] sels@[j]).spec_to_index(m)
                                                == Some(y);
                                    } else {
                                        assert((sels@[i as int]).spec_to_index(m) == Some(y));
                                    }
                                }
                            }
                        },
                        None => (),
                    }
                    proof {
                        assert forall|y: usize|
                            (exists|j: int|
                                0 <= j < i + 1 && (#[trigger] sels@[j]).spec_to_index(m) == Some(
                                    y,
                                )) implies #[trigger] out@.contains(y) by {
                            let j = choose|j: int|
                                0 <= j < i + 1 && (#[trigger] sels@[j]).spec_to_index(m) == Some(
                                    y,
                                );
                            if j < i {
                                assert(prev.contains(y));
                            }
                        }
                    }
                }
                out
            },
            SelectMany::Complex { includes, excludes } => {
                let mut out: Vec<usize> = Vec::new();
                let ni = includes.len();
                for i in 0..ni
                    invariant
                        m.ids.wf(),
                        m.groups.wf(),
                        self is Complex,
                        self->Complex_includes == *includes,
                        ni == includes@.len(),
                        sorted_unique(out@),
                        forall|y: usize| #[trigger] out@.contains(y) <==> exists|j: int|
                            0 <= j < i && (#[trigger] includes@[j]).selects(m, y),
                {
                    proof {
                        let sv = *self;
                        let iv = includes@;
                        assert(sv is Complex);
                        assert(sv->Complex_includes == *includes);
                        assert(decreases_to!(sv => sv->Complex_includes));
                        assert(decreases_to!(*includes => includes@));
                        assert(decreases_to!(iv => iv[i as int]));
                        assert(decreases_to!(*self => includes@[i as int]));
                    }
                    let sub = includes[i].to_indexes(m);
                    let ns = sub.len();
                    for t in 0..ns
                        invariant
                            m.ids.wf(),
                            m.groups.wf(),
                            i < ni == includes@.len(),
                            ns == sub@.len(),
                            sorted_unique(sub@),
                            forall|y: usize| #[trigger]
                                sub@.contains(y) <==> (includes@[i as int]).selects(m, y),
                            sorted_unique(out@),
                            forall|y: usize| #[trigger] out@.contains(y) <==> ((exists|j: int|
                                0 <= j < i && (#[trigger] includes@[j]).selects(m, y))
                                || sub@.subrange(0, t as int).contains(y)),
                    {
                        let ghost prev = out@;
                        sorted_insert(&mut out, sub[t]);
                        proof {
                            assert(sub@.contains(sub@[t as int]));
                            assert forall|y: usize| #[trigger]
                                out@.contains(y) <==> ((exists|j: int|
                                    0 <= j < i && (#[trigger] includes@[j]).selects(m, y))
                                    || sub@.subrange(0, t + 1).contains(y)) by {
                                if out@.contains(y) {
                                    if !prev.contains(y) {
                                        assert(y == sub@[t as int]);
                                        assert(sub@.subrange(0, t + 1)[t as int] == y);
                                    } else {
                                        if sub@.subrange(0, t as int).contains(y) {
                                            let u = choose|u: int|
                                                0 <= u < t && sub@.subrange(0, t as int)[u] == y;
                                            assert(sub@.subrange(0, t + 1)[u] == y);
                                        }
                                    }
                                }
                                if sub@.subrange(0, t + 1).contains(y) {
                                    let u = choose|u: int|
                                        0 <= u <= t && #[trigger] sub@.subrange(0, t + 1)[u] == y;
                                    if u < t {
                                        assert(sub@.subrange(0, t as int)[u] == y);
                                    } else {
                                        assert(y == sub@[t as int]);
                                    }
                                }
                            }
                        }
                    }
                    proof {
                        assert(sub@.subrange(0, ns as int) =~= sub@);
                        assert forall|y: usize| #[trigger] out@.contains(y) <==> exists|j: int|
                            0 <= j < i + 1 && (#[trigger] includes@[j]).selects(m, y) by {
                            if out@.contains(y) {
                                if sub@.contains(y) {
                                    assert((includes@[i as int]).selects(m, y));
                                } else {
                                    let j = choose|j: int|
                                        0 <= j < i && (#[trigger] includes@[j]).selects(m, y);
                                }
                            }
                            if exists|j: int|
                                0 <= j < i + 1 && (#[trigger] includes@[j]).selects(m, y) {
                                let j = choose|j: int|
                                    0 <= j < i + 1 && (#[trigger] includes@[j]).selects(m, y);
                                if j == i {
                                    assert(sub@.contains(y));
                                }
                            }
                        }
                    }
                }
                let ne = excludes.len();
                let mut idx: usize = 0;
                while idx < ne
                    invariant
                        m.ids.wf(),
                        m.groups.wf(),
                        self is Complex,
                        self->Complex_excludes == *excludes,
                        ne == excludes@.len(),
                        idx <= ne,
                        sorted_unique(out@),
                        forall|y: usize| #[trigger] out@.contains(y) <==> ((exists|j: int|
                            0 <= j < includes@.len() && (#[trigger] includes@[j]).selects(m, y))
                            && (forall|j: int|
                            0 <= j < idx ==> !(#[trigger] excludes@[j]).selects(m, y))),
                    decreases ne - idx,
                {
                    proof {
                        let sv = *self;
                        let ev = excludes@;
                        assert(sv is Complex);
                        assert(sv->Complex_excludes == *excludes);
                        assert(decreases_to!(sv => sv->Complex_excludes));
                        assert(decreases_to!(*excludes => excludes@));
                        assert(decreases_to!(ev => ev[idx as int]));
                        assert(decreases_to!(*self => excludes@[idx as int]));
                    }
                    let sub = excludes[idx].to_indexes(m);
                    let filtered = remove_members(&out, &sub);
                    out = filtered;
                    idx = idx + 1;
                }
                out
            },
        }
    }
}

/// The two molecules hold the same title.
pub open spec fn eq_title(a: &SparseMolecule, b: &SparseMolecule) -> bool {
    a.title@ == b.title@
}

/// The two molecules hold the same atom slots.
pub open spec fn eq_atoms(a: &SparseMolecule, b: &SparseMolecule) -> bool {
    a.atoms.data@ == b.atoms.data@
}

/// The two molecules hold the same bond matrix.
pub open spec fn eq_bonds(a: &SparseMolecule, b: &SparseMolecule) -> bool {
    a.bonds.view_rows() == b.bonds.view_rows()
}

/// The two molecules hold the same name bindings.
pub open spec fn eq_ids(a: &SparseMolecule, b: &SparseMolecule) -> bool {
    a.ids.entries() == b.ids.entries()
}

/// The two molecules hold the same group pairs.
pub open spec fn eq_groups(a: &SparseMolecule, b: &SparseMolecule) -> bool {
    a.groups.pairs() == b.groups.pairs()
}

/// The two molecules are observably the same.
pub open spec fn mol_same(a: &SparseMolecule, b: &SparseMolecule) -> bool {
    eq_title(a, b) && eq_atoms(a, b) && eq_bonds(a, b) && eq_ids(a, b) && eq_groups(a, b)
}

/// The two name indexes bind exactly the same names to the same slots.
pub open spec fn ids_like(a: &SparseMolecule, b: &SparseMolecule) -> bool {
    &&& forall|k: Seq<char>, v: usize| #[trigger] a.ids.has(k, v) <==> b.ids.has(k, v)
    &&& forall|k: Seq<char>| #[trigger] a.ids.has_key(k) <==> b.ids.has_key(k)
}

/// The two group relations hold exactly the same pairs.
pub open spec fn groups_like(a: &SparseMolecule, b: &SparseMolecule) -> bool {
    forall|g: Seq<char>, x: usize| #[trigger] a.groups.has(g, x) <==> b.groups.has(g, x)
}

/// The two molecules are observably equivalent: same title, same atom
/// slots, same recorded bonds, same name bindings and same group
/// membership.  Weaker than `mol_same` only in that the storage order of
/// name bindings and group pairs may differ.
pub open spec fn mol_like(a: &SparseMolecule, b: &SparseMolecule) -> bool {
    &&& a.title@ == b.title@
    &&& a.atoms.data@ == b.atoms.data@
    &&& a.bonds.view_rows().len() == b.bonds.view_rows().len()
    &&& forall|x: int, y: int| #[trigger] a.bonds.spec_bond(x, y) == b.bonds.spec_bond(x, y)
    &&& ids_like(a, b)
    &&& groups_like(a, b)
}

/// Field-level equality is a special case of observational equivalence.
pub proof fn lemma_mol_same_like(a: &SparseMolecule, b: &SparseMolecule)
    requires
        mol_same(a, b),
    ensures
        mol_like(a, b),
{
}

/// The atom with its position replaced and everything else kept.
pub open spec fn with_position(a: Atom3D, p: Vec3) -> Atom3D {
    Atom3D { element: a.element, position: p, formal_charge: a.formal_charge }
}

/// Translates every selected present atom by `delta`.
pub fn translate_atoms(list: &mut SparseAtomList, sel: &Vec<usize>, delta: Vec3)
    ensures
        final(list).data@.len() == old(list).data@.len(),
        forall|i: int|
            0 <= i < final(list).data@.len() ==> final(list).data@[i] == match old(
                list,
            ).data@[i] {
                Some(a) => if sel@.contains(i as usize) {
                    Some(with_position(a, crate::geom::vec3_of(add_v(a.position@, delta@))))
                } else {
                    Some(a)
                },
                None => None,
            },
{
    let n = list.data.len();
    for i in 0..n
        invariant
            n == list.data@.len(),
            n == old(list).data@.len(),
            forall|j: int|
                i <= j < n ==> list.data@[j] == old(list).data@[j],
            forall|j: int|
                0 <= j < i ==> list.data@[j] == match old(list).data@[j] {
                    Some(a) => if sel@.contains(j as usize) {
                        Some(with_position(a, crate::geom::vec3_of(add_v(a.position@, delta@))))
                    } else {
                        Some(a)
                    },
                    None => None,
                },
    {
        if crate::n_to_n::vec_contains_usize(sel, i) {
            match list.data[i] {
                Some(a) => {
                    let p = v_add(a.position, delta);
                    list.data.set(i, Some(Atom3D { element: a.element, position: p, formal_charge: a.formal_charge }));
                },
                None => (),
            }
        }
    }
}

/// Rotates every selected present atom about the origin by `q`.
pub fn rotate_atoms_origin(list: &mut SparseAtomList, sel: &Vec<usize>, q: Quat)
    ensures
        final(list).data@.len() == old(list).data@.len(),
        forall|i: int|
            0 <= i < final(list).data@.len() ==> final(list).data@[i] == match old(
                list,
            ).data@[i] {
                Some(a) => if sel@.contains(i as usize) {
                    Some(with_position(a, crate::geom::vec3_of(rotate_v(q@, a.position@))))
                } else {
                    Some(a)
                },
                None => None,
            },
{
    let n = list.data.len();
    for i in 0..n
        invariant
            n == list.data@.len(),
            n == old(list).data@.len(),
            forall|j: int|
                i <= j < n ==> list.data@[j] == old(list).data@[j],
            forall|j: int|
                0 <= j < i ==> list.data@[j] == match old(list).data@[j] {
                    Some(a) => if sel@.contains(j as usize) {
                        Some(with_position(a, crate::geom::vec3_of(rotate_v(q@, a.position@))))
                    } else {
                        Some(a)
                    },
                    None => None,
                },
    {
        if crate::n_to_n::vec_contains_usize(sel, i) {
            match list.data[i] {
                Some(a) => {
                    let p = q_rotate(q, a.position);
                    list.data.set(i, Some(Atom3D { element: a.element, position: p, formal_charge: a.formal_charge }));
                },
                None => (),
            }
        }
    }
}

/// Rotates every selected present atom by `q` about `center`: move to\n/// the origin, rotate, move back.
pub fn rotate_atoms_about(list: &mut SparseAtomList, sel: &Vec<usize>, q: Quat, center: Vec3)
    ensures
        final(list).data@.len() == old(list).data@.len(),
        forall|i: int|
            0 <= i < final(list).data@.len() ==> final(list).data@[i] == match old(
                list,
            ).data@[i] {
                Some(a) => if sel@.contains(i as usize) {
                    Some(with_position(a, crate::geom::vec3_of(add_v(rotate_v(q@, sub_v(a.position@, center@)), center@))))
                } else {
                    Some(a)
                },
                None => None,
            },
{
    let n = list.data.len();
    for i in 0..n
        invariant
            n == list.data@.len(),
            n == old(list).data@.len(),
            forall|j: int|
                i <= j < n ==> list.data@[j] == old(list).data@[j],
            forall|j: int|
                0 <= j < i ==> list.data@[j] == match old(list).data@[j] {
                    Some(a) => if sel@.contains(j as usize) {
                        Some(with_position(a, crate::geom::vec3_of(add_v(rotate_v(q@, sub_v(a.position@, center@)), center@))))
                    } else {
                        Some(a)
                    },
                    None => None,
                },
    {
        if crate::n_to_n::vec_contains_usize(sel, i) {
            match list.data[i] {
                Some(a) => {
                    let p = v_add(q_rotate(q, v_sub(a.position, center)), center);
                    list.data.set(i, Some(Atom3D { element: a.element, position: p, formal_charge: a.formal_charge }));
                },
                None => (),
            }
        }
    }
}

/// Reflects every selected present atom across the plane through\n/// `center` with unit normal `n`.
pub fn mirror_atoms(list: &mut SparseAtomList, sel: &Vec<usize>, center: Vec3, nrm: Vec3)
    ensures
        final(list).data@.len() == old(list).data@.len(),
        forall|i: int|
            0 <= i < final(list).data@.len() ==> final(list).data@[i] == match old(
                list,
            ).data@[i] {
                Some(a) => if sel@.contains(i as usize) {
                    Some(with_position(a, crate::geom::vec3_of(sub_v(a.position@, scale_v(scale_v(nrm@, dot_s(sub_v(a.position@, center@), nrm@)), TWO_BITS)))))
                } else {
                    Some(a)
                },
                None => None,
            },
{
    let n = list.data.len();
    for i in 0..n
        invariant
            n == list.data@.len(),
            n == old(list).data@.len(),
            forall|j: int|
                i <= j < n ==> list.data@[j] == old(list).data@[j],
            forall|j: int|
                0 <= j < i ==> list.data@[j] == match old(list).data@[j] {
                    Some(a) => if sel@.contains(j as usize) {
                        Some(with_position(a, crate::geom::vec3_of(sub_v(a.position@, scale_v(scale_v(nrm@, dot_s(sub_v(a.position@, center@), nrm@)), TWO_BITS)))))
                    } else {
                        Some(a)
                    },
                    None => None,
                },
    {
        if crate::n_to_n::vec_contains_usize(sel, i) {
            match list.data[i] {
                Some(a) => {
                    let p = v_sub(a.position, v_scale(v_scale(nrm, v_dot(v_sub(a.position, center), nrm)), TWO_BITS));
                    list.data.set(i, Some(Atom3D { element: a.element, position: p, formal_charge: a.formal_charge }));
                },
                None => (),
            }
        }
    }
}

/// Applies the rigid transform `rotate by q, then translate by t` to\n/// every selected present atom.
pub fn isometry_atoms(list: &mut SparseAtomList, sel: &Vec<usize>, q: Quat, t: Vec3)
    ensures
        final(list).data@.len() == old(list).data@.len(),
        forall|i: int|
            0 <= i < final(list).data@.len() ==> final(list).data@[i] == match old(
                list,
            ).data@[i] {
                Some(a) => if sel@.contains(i as usize) {
                    Some(with_position(a, crate::geom::vec3_of(add_v(rotate_v(q@, a.position@), t@))))
                } else {
                    Some(a)
                },
                None => None,
            },
{
    let n = list.data.len();
    for i in 0..n
        invariant
            n == list.data@.len(),
            n == old(list).data@.len(),
            forall|j: int|
                i <= j < n ==> list.data@[j] == old(list).data@[j],
            forall|j: int|
                0 <= j < i ==> list.data@[j] == match old(list).data@[j] {
                    Some(a) => if sel@.contains(j as usize) {
                        Some(with_position(a, crate::geom::vec3_of(add_v(rotate_v(q@, a.position@), t@))))
                    } else {
                        Some(a)
                    },
                    None => None,
                },
    {
        if crate::n_to_n::vec_contains_usize(sel, i) {
            match list.data[i] {
                Some(a) => {
                    let p = v_add(q_rotate(q, a.position), t);
                    list.data.set(i, Some(Atom3D { element: a.element, position: p, formal_charge: a.formal_charge }));
                },
                None => (),
            }
        }
    }
}

/// Whether slot `i` blocks hiding: a selected present atom whose element
/// code is already in the hidden band.
pub open spec fn hide_blocked(m: Seq<Option<Atom3D>>, sel: Seq<usize>, i: int) -> bool {
    sel.contains(i as usize) && match atom_at(m, i) {
        Some(a) => a.element >= HIDDEN_ELEMENT_OFFSET,
        None => false,
    }
}

/// Whether slot `i` blocks unhiding: a selected present atom whose
/// element code is below the hidden band.
pub open spec fn unhide_blocked(m: Seq<Option<Atom3D>>, sel: Seq<usize>, i: int) -> bool {
    sel.contains(i as usize) && match atom_at(m, i) {
        Some(a) => a.element < HIDDEN_ELEMENT_OFFSET,
        None => false,
    }
}

/// Marks every selected present atom hidden by adding the hidden-band
/// offset to its element code; reports the first atom already in the
/// hidden band as `(index, element)` instead.
pub fn hide_atoms(list: &mut SparseAtomList, sel: &Vec<usize>) -> (r: Option<(usize, usize)>)
    ensures
        match r {
            None => {
                &&& final(list).data@.len() == old(list).data@.len()
                &&& forall|i: int| 0 <= i < old(list).data@.len() ==> !hide_blocked(old(list).data@, sel@, i)
                &&& forall|i: int|
                    0 <= i < final(list).data@.len() ==> final(list).data@[i] == match old(
                        list,
                    ).data@[i] {
                        Some(a) => if sel@.contains(i as usize) {
                            Some(Atom3D { element: (a.element + HIDDEN_ELEMENT_OFFSET) as usize, position: a.position, formal_charge: a.formal_charge })
                        } else {
                            Some(a)
                        },
                        None => None,
                    }
            },
            Some((idx, e)) => {
                &&& idx < old(list).data@.len()
                &&& hide_blocked(old(list).data@, sel@, idx as int)
                &&& atom_at(old(list).data@, idx as int) == Some(Atom3D { element: e, position: atom_at(old(list).data@, idx as int)->0.position, formal_charge: atom_at(old(list).data@, idx as int)->0.formal_charge })
                &&& forall|j: int| 0 <= j < idx ==> !hide_blocked(old(list).data@, sel@, j)
            },
        },
{
    let n = list.data.len();
    for i in 0..n
        invariant
            n == list.data@.len(),
            n == old(list).data@.len(),
            forall|j: int| i <= j < n ==> list.data@[j] == old(list).data@[j],
            forall|j: int| 0 <= j < i ==> !hide_blocked(old(list).data@, sel@, j),
            forall|j: int|
                0 <= j < i ==> list.data@[j] == match old(list).data@[j] {
                    Some(a) => if sel@.contains(j as usize) {
                        Some(Atom3D { element: (a.element + HIDDEN_ELEMENT_OFFSET) as usize, position: a.position, formal_charge: a.formal_charge })
                    } else {
                        Some(a)
                    },
                    None => None,
                },
    {
        if crate::n_to_n::vec_contains_usize(sel, i) {
            match list.data[i] {
                Some(a) => {
                    if a.element >= HIDDEN_ELEMENT_OFFSET {
                        return Some((i, a.element));
                    }
                    list.data.set(i, Some(Atom3D { element: a.element + HIDDEN_ELEMENT_OFFSET, position: a.position, formal_charge: a.formal_charge }));
                },
                None => (),
            }
        }
    }
    None
}

/// Unmarks every selected present atom by subtracting the hidden-band
/// offset from its element code; reports the first atom below the
/// hidden band as `(index, element)` instead.
pub fn unhide_atoms(list: &mut SparseAtomList, sel: &Vec<usize>) -> (r: Option<(usize, usize)>)
    ensures
        match r {
            None => {
                &&& final(list).data@.len() == old(list).data@.len()
                &&& forall|i: int| 0 <= i < old(list).data@.len() ==> !unhide_blocked(old(list).data@, sel@, i)
                &&& forall|i: int|
                    0 <= i < final(list).data@.len() ==> final(list).data@[i] == match old(
                        list,
                    ).data@[i] {
                        Some(a) => if sel@.contains(i as usize) {
                            Some(Atom3D { element: (a.element - HIDDEN_ELEMENT_OFFSET) as usize, position: a.position, formal_charge: a.formal_charge })
                        } else {
                            Some(a)
                        },
                        None => None,
                    }
            },
            Some((idx, e)) => {
                &&& idx < old(list).data@.len()
                &&& unhide_blocked(old(list).data@, sel@, idx as int)
                &&& atom_at(old(list).data@, idx as int) == Some(Atom3D { element: e, position: atom_at(old(list).data@, idx as int)->0.position, formal_charge: atom_at(old(list).data@, idx as int)->0.formal_charge })
                &&& forall|j: int| 0 <= j < idx ==> !unhide_blocked(old(list).data@, sel@, j)
            },
        },
{
    let n = list.data.len();
    for i in 0..n
        invariant
            n == list.data@.len(),
            n == old(list).data@.len(),
            forall|j: int| i <= j < n ==> list.data@[j] == old(list).data@[j],
            forall|j: int| 0 <= j < i ==> !unhide_blocked(old(list).data@, sel@, j),
            forall|j: int|
                0 <= j < i ==> list.data@[j] == match old(list).data@[j] {
                    Some(a) => if sel@.contains(j as usize) {
                        Some(Atom3D { element: (a.element - HIDDEN_ELEMENT_OFFSET) as usize, position: a.position, formal_charge: a.formal_charge })
                    } else {
                        Some(a)
                    },
                    None => None,
                },
    {
        if crate::n_to_n::vec_contains_usize(sel, i) {
            match list.data[i] {
                Some(a) => {
                    if a.element < HIDDEN_ELEMENT_OFFSET {
                        return Some((i, a.element));
                    }
                    list.data.set(i, Some(Atom3D { element: a.element - HIDDEN_ELEMENT_OFFSET, position: a.position, formal_charge: a.formal_charge }));
                },
                None => (),
            }
        }
    }
    None
}

/// Writes the inert placeholder atom into every selected slot.
pub fn blank_atoms(list: &mut SparseAtomList, sel: &Vec<usize>)
    ensures
        final(list).data@.len() == old(list).data@.len(),
        forall|i: int|
            0 <= i < final(list).data@.len() ==> final(list).data@[i] == if sel@.contains(
                i as usize,
            ) {
                Some(Atom3D::placeholder())
            } else {
                old(list).data@[i]
            },
{
    let n = list.data.len();
    for i in 0..n
        invariant
            n == list.data@.len(),
            n == old(list).data@.len(),
            forall|j: int| i <= j < n ==> list.data@[j] == old(list).data@[j],
            forall|j: int|
                0 <= j < i ==> list.data@[j] == if sel@.contains(j as usize) {
                    Some(Atom3D::placeholder())
                } else {
                    old(list).data@[j]
                },
    {
        if crate::n_to_n::vec_contains_usize(sel, i) {
            list.data.set(i, Some(Atom3D::new_placeholder()));
        }
    }
}

/// The errors a layer application can raise.
#[derive(Debug)]
pub enum LayerStorageError {
    /// A stack referenced a layer ID absent from the store.
    NoSuchLayer(u64),
    /// A required one-atom selector did not resolve.
    SelectNotFound(SelectOne),
    /// Hiding or unhiding would leave the element code outside its band.
    HideOverflow { idx: usize, current_value: usize },
}

/// Whether `e` is the selector-not-found error carrying selector `s`.
pub open spec fn is_select_err(e: &LayerStorageError, s: SelView) -> bool {
    match e {
        LayerStorageError::SelectNotFound(t) => sel_view(t) == s,
        _ => false,
    }
}

/// Whether both endpoints of a bond entry resolve against `m`.
pub open spec fn pair_resolved(m: &SparseMolecule, p: (SelectOne, SelectOne, u64)) -> bool {
    p.0.spec_to_index(m) is Some && p.1.spec_to_index(m) is Some
}

/// Whether some bond entry has an unresolvable endpoint.
pub open spec fn set_bond_some_unresolved(m: &SparseMolecule, bonds: Seq<(SelectOne, SelectOne, u64)>) -> bool {
    exists|j: int| 0 <= j < bonds.len() && !pair_resolved(m, #[trigger] bonds[j])
}

/// Whether `e` is the error the bond list raises: the first endpoint of
/// the first entry that does not resolve.
pub open spec fn set_bond_failure(
    m: &SparseMolecule,
    bonds: Seq<(SelectOne, SelectOne, u64)>,
    e: &LayerStorageError,
) -> bool {
    exists|j: int|
        0 <= j < bonds.len() && (forall|k: int| 0 <= k < j ==> pair_resolved(m, #[trigger] bonds[k]))
            && !pair_resolved(m, #[trigger] bonds[j]) && if bonds[j].0.spec_to_index(m) is None {
            is_select_err(e, sel_view(&bonds[j].0))
        } else {
            is_select_err(e, sel_view(&bonds[j].1))
        }
}

/// The bond recorded between `x` and `y` after writing the entries in
/// order over `m`'s matrix; later entries win.
pub open spec fn bonds_outcome(
    m: &SparseMolecule,
    bonds: Seq<(SelectOne, SelectOne, u64)>,
    x: int,
    y: int,
) -> Option<u64>
    decreases bonds.len(),
{
    if bonds.len() == 0 {
        m.bonds.spec_bond(x, y)
    } else {
        let rest = bonds_outcome(m, bonds.drop_last(), x, y);
        let p = bonds.last();
        match (p.0.spec_to_index(m), p.1.spec_to_index(m)) {
            (Some(ai), Some(bi)) => if (x == ai && y == bi) || (x == bi && y == ai) {
                Some(p.2)
            } else {
                rest
            },
            _ => rest,
        }
    }
}

/// The matrix size after writing the entries in order.
pub open spec fn bonds_len_outcome(m: &SparseMolecule, bonds: Seq<(SelectOne, SelectOne, u64)>) -> int
    decreases bonds.len(),
{
    if bonds.len() == 0 {
        m.bonds.view_rows().len() as int
    } else {
        let rest = bonds_len_outcome(m, bonds.drop_last());
        let p = bonds.last();
        match (p.0.spec_to_index(m), p.1.spec_to_index(m)) {
            (Some(ai), Some(bi)) => max_usize(rest, max_usize(ai as int, bi as int) + 1),
            _ => rest,
        }
    }
}

/// Every resolved endpoint of the entries stays below the machine
/// index bound, so the matrix can grow to hold it.
pub open spec fn set_bond_bounds(m: &SparseMolecule, bonds: Seq<(SelectOne, SelectOne, u64)>) -> bool {
    forall|j: int| 0 <= j < bonds.len() ==> match (
        (#[trigger] bonds[j]).0.spec_to_index(m),
        bonds[j].1.spec_to_index(m),
    ) {
        (Some(ai), Some(bi)) => ai < usize::MAX && bi < usize::MAX,
        _ => true,
    }
}

/// What a successful bond-list application leaves behind.
pub open spec fn set_bond_ok(
    b: &SparseMolecule,
    bonds: Seq<(SelectOne, SelectOne, u64)>,
    a: &SparseMolecule,
) -> bool {
    &&& eq_title(a, b)
    &&& eq_atoms(a, b)
    &&& eq_ids(a, b)
    &&& eq_groups(a, b)
    &&& forall|j: int| 0 <= j < bonds.len() ==> pair_resolved(b, #[trigger] bonds[j])
    &&& a.bonds.view_rows().len() == bonds_len_outcome(b, bonds)
    &&& forall|x: int, y: int| #[trigger] a.bonds.spec_bond(x, y) == bonds_outcome(b, bonds, x, y)
}

/// Resolves each bond entry's endpoints and records the bond
/// symmetrically, in order; fails on the first endpoint that does not
/// resolve.
pub fn apply_set_bond(
    current: SparseMolecule,
    bonds: &Vec<(SelectOne, SelectOne, u64)>,
) -> (r: Result<SparseMolecule, LayerStorageError>)
    requires
        current.wf(),
        set_bond_bounds(&current, bonds@),
    ensures
        match r {
            Ok(m) => m.wf() && set_bond_ok(&current, bonds@, &m),
            Err(e) => set_bond_failure(&current, bonds@, &e),
        },
        (r is Err) == set_bond_some_unresolved(&current, bonds@),
{
    let ghost orig = current;
    let mut cur = current;
    let n = bonds.len();
    for j in 0..n
        invariant
            orig == current,
            orig.wf(),
            set_bond_bounds(&orig, bonds@),
            n == bonds@.len(),
            cur.ids == orig.ids,
            cur.atoms == orig.atoms,
            cur.groups == orig.groups,
            cur.title == orig.title,
            cur.bonds.wf(),
            forall|k: int| 0 <= k < j ==> pair_resolved(&orig, #[trigger] bonds@[k]),
            cur.bonds.view_rows().len() == bonds_len_outcome(&orig, bonds@.subrange(0, j as int)),
            forall|x: int, y: int| #[trigger]
                cur.bonds.spec_bond(x, y) == bonds_outcome(&orig, bonds@.subrange(0, j as int), x, y),
    {
        let ai = match bonds[j].0.to_index(&cur) {
            Some(v) => v,
            None => {
                proof {
                    assert(bonds@[j as int].0.spec_to_index(&orig) is None);
                    assert(!pair_resolved(&orig, bonds@[j as int]));
                }
                return Err(LayerStorageError::SelectNotFound(bonds[j].0.duplicated()));
            },
        };
        let bi = match bonds[j].1.to_index(&cur) {
            Some(v) => v,
            None => {
                proof {
                    assert(bonds@[j as int].1.spec_to_index(&orig) is None);
                    assert(!pair_resolved(&orig, bonds@[j as int]));
                }
                return Err(LayerStorageError::SelectNotFound(bonds[j].1.duplicated()));
            },
        };
        proof {
            assert(pair_resolved(&orig, bonds@[j as int]));
        }
        cur.bonds.set_bond(ai, bi, Some(bonds[j].2));
        proof {
            let pre = bonds@.subrange(0, j as int);
            let post = bonds@.subrange(0, j + 1);
            assert(post.drop_last() =~= pre);
            assert(post.last() == bonds@[j as int]);
        }
    }
    proof {
        assert(bonds@.subrange(0, n as int) =~= bonds@);
    }
    Ok(cur)
}

/// Whether some name-map target has an unresolvable selector.
pub open spec fn id_map_some_unresolved(m: &SparseMolecule, targets: Seq<(String, SelectOne)>) -> bool {
    exists|j: int| 0 <= j < targets.len() && (#[trigger] targets[j]).1.spec_to_index(m) is None
}

/// Whether `e` is the error the name map raises: the first target whose
/// selector does not resolve.
pub open spec fn id_map_failure(
    m: &SparseMolecule,
    targets: Seq<(String, SelectOne)>,
    e: &LayerStorageError,
) -> bool {
    exists|j: int|
        0 <= j < targets.len() && (forall|k: int|
            0 <= k < j ==> (#[trigger] targets[k]).1.spec_to_index(m) is Some) && (
        #[trigger] targets[j]).1.spec_to_index(m) is None && is_select_err(e, sel_view(&targets[j].1))
}

/// Whether binding the resolved targets over `m`'s name index, in
/// order, leaves name `k` bound to `v`; later targets win.
pub open spec fn ids_outcome_has(
    m: &SparseMolecule,
    targets: Seq<(String, SelectOne)>,
    k: Seq<char>,
    v: usize,
) -> bool
    decreases targets.len(),
{
    if targets.len() == 0 {
        m.ids.has(k, v)
    } else {
        let p = targets.last();
        match p.1.spec_to_index(m) {
            Some(i) => if k == p.0@ {
                v == i
            } else {
                ids_outcome_has(m, targets.drop_last(), k, v)
            },
            None => ids_outcome_has(m, targets.drop_last(), k, v),
        }
    }
}

/// Whether the name `k` is bound at all after binding the targets.
pub open spec fn ids_outcome_has_key(m: &SparseMolecule, targets: Seq<(String, SelectOne)>, k: Seq<char>) -> bool
    decreases targets.len(),
{
    if targets.len() == 0 {
        m.ids.has_key(k)
    } else {
        let p = targets.last();
        match p.1.spec_to_index(m) {
            Some(i) => k == p.0@ || ids_outcome_has_key(m, targets.drop_last(), k),
            None => ids_outcome_has_key(m, targets.drop_last(), k),
        }
    }
}

/// What a successful name-map application leaves behind.
pub open spec fn id_map_ok(b: &SparseMolecule, targets: Seq<(String, SelectOne)>, a: &SparseMolecule) -> bool {
    &&& eq_title(a, b)
    &&& eq_atoms(a, b)
    &&& eq_bonds(a, b)
    &&& eq_groups(a, b)
    &&& forall|j: int| 0 <= j < targets.len() ==> (#[trigger] targets[j]).1.spec_to_index(b) is Some
    &&& forall|k: Seq<char>, v: usize| #[trigger] a.ids.has(k, v) <==> ids_outcome_has(b, targets, k, v)
    &&& forall|k: Seq<char>| #[trigger] a.ids.has_key(k) <==> ids_outcome_has_key(b, targets, k)
}

/// Resolves each named target against the incoming molecule and records
/// `name -> index` in the name index, later bindings winning; fails on
/// the first target that does not resolve.
pub fn apply_id_map(
    current: SparseMolecule,
    targets: &Vec<(String, SelectOne)>,
) -> (r: Result<SparseMolecule, LayerStorageError>)
    requires
        current.wf(),
    ensures
        match r {
            Ok(m) => m.wf() && id_map_ok(&current, targets@, &m),
            Err(e) => id_map_failure(&current, targets@, &e),
        },
        (r is Err) == id_map_some_unresolved(&current, targets@),
{
    let ghost orig = current;
    let mut cur = current;
    let n = targets.len();
    let mut resolved: Vec<(String, usize)> = Vec::new();
    for j in 0..n
        invariant
            orig == current,
            orig.wf(),
            n == targets@.len(),
            cur == orig,
            resolved@.len() == j,
            forall|k: int| 0 <= k < j ==> (#[trigger] targets@[k]).1.spec_to_index(&orig) is Some,
            forall|k: int|
                0 <= k < j ==> (#[trigger] resolved@[k]).0@ == targets@[k].0@ && Some(
                    resolved@[k].1,
                ) == targets@[k].1.spec_to_index(&orig),
    {
        match targets[j].1.to_index(&cur) {
            Some(i) => {
                resolved.push((targets[j].0.clone(), i));
            },
            None => {
                return Err(LayerStorageError::SelectNotFound(targets[j].1.duplicated()));
            },
        }
    }
    for j in 0..n
        invariant
            orig == current,
            orig.wf(),
            n == targets@.len(),
            cur.atoms == orig.atoms,
            cur.bonds == orig.bonds,
            cur.groups == orig.groups,
            cur.title == orig.title,
            cur.ids.wf(),
            resolved@.len() == n,
            forall|k: int| 0 <= k < n ==> (#[trigger] targets@[k]).1.spec_to_index(&orig) is Some,
            forall|k: int|
                0 <= k < n ==> (#[trigger] resolved@[k]).0@ == targets@[k].0@ && Some(
                    resolved@[k].1,
                ) == targets@[k].1.spec_to_index(&orig),
            forall|k: Seq<char>, v: usize| #[trigger]
                cur.ids.has(k, v) <==> ids_outcome_has(&orig, targets@.subrange(0, j as int), k, v),
            forall|k: Seq<char>| #[trigger]
                cur.ids.has_key(k) <==> ids_outcome_has_key(&orig, targets@.subrange(0, j as int), k),
    {
        let nm = resolved[j].0.clone();
        let iv = resolved[j].1;
        cur.ids.insert(nm, iv);
        proof {
            let pre = targets@.subrange(0, j as int);
            let post = targets@.subrange(0, j + 1);
            assert(post.drop_last() =~= pre);
            assert(post.last() == targets@[j as int]);
        }
    }
    proof {
        assert(targets@.subrange(0, n as int) =~= targets@);
    }
    Ok(cur)
}

/// One named-group step: the molecule after inserting `(name, i)` for
/// every index the selector picks out of `b`.
pub open spec fn group_map_step(item: (String, SelectMany), b: SparseMolecule, a: SparseMolecule) -> bool {
    &&& eq_title(&a, &b)
    &&& eq_atoms(&a, &b)
    &&& eq_bonds(&a, &b)
    &&& eq_ids(&a, &b)
    &&& a.groups.wf()
    &&& forall|l: Seq<char>, x: usize| #[trigger]
        a.groups.has(l, x) <==> (b.groups.has(l, x) || (l == item.0@ && item.1.selects(&b, x)))
}

/// A chain of molecule snapshots witnessing one named-group step per
/// item: snapshot `j` is the molecule before item `j`, snapshot `j + 1`
/// the molecule after it.
pub open spec fn group_map_chain(items: Seq<(String, SelectMany)>, mols: Seq<SparseMolecule>) -> bool {
    &&& mols.len() == items.len() + 1
    &&& forall|j: int|
        0 <= j < items.len() ==> group_map_step(#[trigger] items[j], mols[j], mols[j + 1])
}

/// The named-group items rewrite `b` into `a`: some snapshot chain
/// connects them, one verified step per item.
pub open spec fn group_map_applied(items: Seq<(String, SelectMany)>, b: SparseMolecule, a: SparseMolecule) -> bool {
    exists|mols: Seq<SparseMolecule>|
        #[trigger] group_map_chain(items, mols) && mols[0] == b && mols[mols.len() - 1] == a
}

/// For each `(name, selector)` pair, resolves the selector and inserts
/// every selected index into the named group; never fails, resolving
/// each item against the molecule the previous items produced.
pub fn apply_group_map(
    current: SparseMolecule,
    groups: &Vec<(String, SelectMany)>,
) -> (r: SparseMolecule)
    requires
        current.wf(),
    ensures
        r.wf(),
        group_map_applied(groups@, current, r),
{
    let ghost orig = current;
    let mut cur = current;
    let n = groups.len();
    let ghost mut mols: Seq<SparseMolecule> = seq![current];
    for j in 0..n
        invariant
            orig == current,
            orig.wf(),
            cur.wf(),
            n == groups@.len(),
            mols.len() == j + 1,
            mols[0] == orig,
            mols[j as int] == cur,
            forall|k: int|
                0 <= k < j ==> group_map_step(#[trigger] groups@[k], mols[k], mols[k + 1]),
    {
        let ghost mid = cur;
        let sel = groups[j].1.to_indexes(&cur);
        let nm = groups[j].0.clone();
        cur.groups.insert_left(nm, &sel);
        proof {
            assert(group_map_step(groups@[j as int], mid, cur)) by {
                assert forall|l: Seq<char>, x: usize| #[trigger] cur.groups.has(l, x) <==> (
                mid.groups.has(l, x) || (l == groups@[j as int].0@ && groups@[j as int].1.selects(
                    &mid,
                    x,
                ))) by {
                    assert(sel@.contains(x) == groups@[j as int].1.selects(&mid, x));
                }
            }
            mols = mols.push(cur);
        }
    }
    proof {
        assert(group_map_chain(groups@, mols));
        assert(mols[mols.len() - 1] == cur);
    }
    cur
}

/// The atom that slot `i` sees of a list shifted up by `off`.
pub open spec fn shifted_atom(s: Seq<Option<Atom3D>>, off: int, i: int) -> Option<Atom3D> {
    if i >= off {
        atom_at(s, i - off)
    } else {
        None
    }
}

/// The group-name prefix an append step applies: the step name and an
/// underscore.
pub open spec fn append_prefix(n: Seq<char>) -> Seq<char> {
    n + "_"@
}

/// The arithmetic room an append step needs: every index of the incoming
/// molecule must still fit after shifting by the current length.
pub open spec fn append_bounds(b: &SparseMolecule, data: &SparseMolecule) -> bool {
    let l = b.atoms.data@.len() as int;
    &&& data.atoms.data@.len() + l <= usize::MAX
    &&& data.bonds.view_rows().len() + l < usize::MAX
    &&& forall|i: int|
        0 <= i < data.ids.entries().len() ==> (#[trigger] data.ids.entries()[i]).1 + l
            <= usize::MAX
    &&& forall|i: int|
        0 <= i < data.groups.pairs().len() ==> (#[trigger] data.groups.pairs()[i]).1 + l
            <= usize::MAX
}

/// What an append step leaves behind: the incoming molecule, its names
/// and groups prefixed with the step name, all its atoms tagged into the
/// group of that name, shifted past the current molecule's slots, and
/// laid over it.
pub open spec fn append_ok(b: &SparseMolecule, name: Seq<char>, data: &SparseMolecule, a: &SparseMolecule) -> bool {
    let l = b.atoms.data@.len() as int;
    &&& a.title@ == data.title@
    &&& a.atoms.data@.len() == l + data.atoms.data@.len()
    &&& forall|i: int|
        0 <= i < a.atoms.data@.len() ==> a.atoms.data@[i] == merged_atom(
            atom_at(b.atoms.data@, i),
            shifted_atom(data.atoms.data@, l, i),
        )
    &&& a.bonds.view_rows().len() == max_usize(
        b.bonds.view_rows().len() as int,
        data.bonds.view_rows().len() + l,
    )
    &&& forall|x: int, y: int| #[trigger]
        a.bonds.spec_bond(x, y) == merged_bond(
            b.bonds.spec_bond(x, y),
            if x >= l && y >= l {
                data.bonds.spec_bond(x - l, y - l)
            } else {
                None::<u64>
            },
        )
    &&& forall|k: Seq<char>, v: usize| #[trigger]
        a.ids.has(k, v) <==> (crate::n_to_n::shift_pairs(
            crate::n_to_n::prefix_pairs(data.ids.entries(), append_prefix(name)),
            l,
        ).contains((k, v)) || (b.ids.has(k, v) && !crate::name_index::keys_of(
            crate::n_to_n::shift_pairs(
                crate::n_to_n::prefix_pairs(data.ids.entries(), append_prefix(name)),
                l,
            ),
        ).contains(k)))
    &&& forall|k: Seq<char>| #[trigger]
        a.ids.has_key(k) <==> (crate::name_index::keys_of(
            crate::n_to_n::shift_pairs(
                crate::n_to_n::prefix_pairs(data.ids.entries(), append_prefix(name)),
                l,
            ),
        ).contains(k) || b.ids.has_key(k))
    &&& forall|g: Seq<char>, x: usize| #[trigger]
        a.groups.has(g, x) <==> (b.groups.has(g, x) || (x >= l && crate::n_to_n::prefix_pairs(
            data.groups.pairs(),
            append_prefix(name),
        ).contains((g, (x - l) as usize))) || (g == name && l <= x < l
            + data.atoms.data@.len()))
}

/// Namespaces the incoming molecule under `name`, tags all its atoms
/// into the group of that name, shifts it past the current molecule's
/// slots and lays it over them.
pub fn apply_append(
    current: SparseMolecule,
    name: &String,
    data: &SparseMolecule,
) -> (r: SparseMolecule)
    requires
        current.wf(),
        data.wf(),
        append_bounds(&current, data),
    ensures
        r.wf(),
        append_ok(&current, name@, data, &r),
{
    let l_off = current.atoms.len();
    let prefix = name.clone().concat("_");
    assert(prefix@ == append_prefix(name@));
    let new_ids = data.ids.prefixed(&prefix);
    let mut new_groups = data.groups.prefixed(&prefix);
    let dn = data.atoms.len();
    let mut all_idx: Vec<usize> = Vec::new();
    for i in 0..dn
        invariant
            dn == data.atoms.data@.len(),
            all_idx@.len() == i,
            forall|j: int| 0 <= j < i ==> all_idx@[j] == j,
    {
        all_idx.push(i);
    }
    proof {
        assert forall|x: usize| #[trigger] all_idx@.contains(x) <==> x < dn by {
            if x < dn {
                assert(all_idx@[x as int] == x);
            }
        }
    }
    new_groups.insert_left(name.clone(), &all_idx);
    let ghost tagged = new_groups;
    let moved_atoms = data.atoms.duplicated();
    let moved_bonds = data.bonds.duplicated();
    let assembled = SparseMolecule {
        title: data.title.clone(),
        atoms: moved_atoms,
        bonds: moved_bonds,
        ids: new_ids,
        groups: new_groups,
    };
    proof {
        assert(assembled.bonds.view_rows() =~~= data.bonds.view_rows());
        assert forall|i: int|
            0 <= i < assembled.groups.pairs().len() implies (#[trigger] assembled.groups.pairs()[
            i
        ]).1 + l_off <= usize::MAX by {
            assert(assembled.groups.pairs().contains(assembled.groups.pairs()[i]));
            let pr = assembled.groups.pairs()[i];
            assert(assembled.groups.has(pr.0, pr.1));
            if crate::n_to_n::prefix_pairs(data.groups.pairs(), append_prefix(name@)).contains(
                (pr.0, pr.1),
            ) {
                let k = choose|k: int|
                    0 <= k < data.groups.pairs().len() && #[trigger] crate::n_to_n::prefix_pairs(
                        data.groups.pairs(),
                        append_prefix(name@),
                    )[k] == (pr.0, pr.1);
                assert((data.groups.pairs()[k]).1 == pr.1);
            }
        }
        assert forall|i: int|
            0 <= i < assembled.ids.entries().len() implies (#[trigger] assembled.ids.entries()[
            i
        ]).1 + l_off <= usize::MAX by {
            assert((data.ids.entries()[i]).1 == (assembled.ids.entries()[i]).1);
        }
    }
    let moved = assembled.offset(l_off);
    let mut cur = current;
    cur.migrate(&moved);
    proof {
        crate::n_to_n::lemma_shift_contains(tagged.pairs(), l_off);
        assert(moved.groups.pairs() == crate::n_to_n::shift_pairs(tagged.pairs(), l_off as int));
        assert(moved.ids.entries() == crate::n_to_n::shift_pairs(
            crate::n_to_n::prefix_pairs(data.ids.entries(), append_prefix(name@)),
            l_off as int,
        )) by {
            assert(assembled.ids.entries() == crate::n_to_n::prefix_pairs(
                data.ids.entries(),
                append_prefix(name@),
            ));
        }
        assert forall|g: Seq<char>, x: usize| #[trigger]
            cur.groups.has(g, x) <==> (current.groups.has(g, x) || (x >= l_off
                && crate::n_to_n::prefix_pairs(data.groups.pairs(), append_prefix(name@)).contains(
                (g, (x - l_off) as usize),
            )) || (g == name@ && l_off <= x < l_off + data.atoms.data@.len())) by {
            assert(moved.groups.has(g, x) == moved.groups.pairs().contains((g, x)));
            assert(tagged.has(g, (x - l_off) as usize) <==> (crate::n_to_n::prefix_pairs(
                data.groups.pairs(),
                append_prefix(name@),
            ).contains((g, (x - l_off) as usize)) || (g == name@ && ((x - l_off) as usize) < dn)));
        }
    }
    cur
}

/// The two molecules agree on everything selection can read: slot count,
/// presence, element codes, names and groups; positions may differ.
pub open spec fn same_selection_view(m1: &SparseMolecule, m2: &SparseMolecule) -> bool {
    &&& m1.atoms.data@.len() == m2.atoms.data@.len()
    &&& forall|i: int|
        0 <= i < m1.atoms.data@.len() ==> match (#[trigger] m1.atoms.data@[i], m2.atoms.data@[i]) {
            (Some(a1), Some(a2)) => a1.element == a2.element,
            (None, None) => true,
            _ => false,
        }
    &&& ids_like(m1, m2)
    &&& groups_like(m1, m2)
}

/// A one-atom selector resolves identically against molecules whose
/// name bindings agree.
pub proof fn lemma_to_index_same_entries(sel: &SelectOne, m1: &SparseMolecule, m2: &SparseMolecule)
    requires
        ids_like(m1, m2),
        m1.ids.wf(),
        m2.ids.wf(),
    ensures
        sel.spec_to_index(m1) == sel.spec_to_index(m2),
{
    match sel {
        SelectOne::Index(_) => {},
        SelectOne::IdName(n) => {
            m1.ids.lemma_get_key(n@);
            m2.ids.lemma_get_key(n@);
            assert(m1.ids.has_key(n@) == m2.ids.has_key(n@));
            if m1.ids.has_key(n@) {
                let v1 = choose|v: usize| m1.ids.has(n@, v);
                assert(m1.ids.has(n@, v1));
                assert(m2.ids.has(n@, v1));
                m1.ids.lemma_get_unique(n@, v1);
                m2.ids.lemma_get_unique(n@, v1);
            }
        },
    }
}

/// Selection only reads the slot count, presence, element codes, names
/// and groups, so two molecules that agree on those select the same
/// indices.
pub proof fn lemma_selects_same_view(s: &SelectMany, m1: &SparseMolecule, m2: &SparseMolecule)
    requires
        same_selection_view(m1, m2),
        m1.ids.wf(),
        m2.ids.wf(),
    ensures
        forall|i: usize| #[trigger] s.selects(m1, i) == s.selects(m2, i),
    decreases s,
{
    assert forall|i: usize| #[trigger] s.selects(m1, i) == s.selects(m2, i) by {
        match s {
            SelectMany::All => {},
            SelectMany::Element(e) => {
                if 0 <= i < m1.atoms.data@.len() {
                    assert(match (m1.atoms.data@[i as int], m2.atoms.data@[i as int]) {
                        (Some(a1), Some(a2)) => a1.element == a2.element,
                        (None, None) => true,
                        _ => false,
                    });
                }
            },
            SelectMany::Indexes(sels) => {
                assert forall|j: int|
                    0 <= j < sels@.len() implies (#[trigger] sels@[j]).spec_to_index(m1) == sels@[
                    j
                ].spec_to_index(m2) by {
                    match sels@[j] {
                        SelectOne::Index(_) => {},
                        SelectOne::IdName(n) => {
                            assert(m1.ids.spec_get(n@) == m2.ids.spec_get(n@)) by {
                                m1.ids.lemma_get_key(n@);
                                m2.ids.lemma_get_key(n@);
                                assert(m1.ids.has_key(n@) == m2.ids.has_key(n@));
                                if m1.ids.has_key(n@) {
                                    let v1 = choose|v: usize| m1.ids.has(n@, v);
                                    assert(m1.ids.has(n@, v1));
                                    assert(m2.ids.has(n@, v1));
                                    m1.ids.lemma_get_unique(n@, v1);
                                    m2.ids.lemma_get_unique(n@, v1);
                                }
                            }
                        },
                    }
                }
            },
            SelectMany::Range { .. } => {},
            SelectMany::GroupName(n) => {
                assert(m1.groups.has(n@, i) == m2.groups.has(n@, i));
            },
            SelectMany::Complex { includes, excludes } => {
                assert forall|j: int|
                    0 <= j < includes@.len() implies (#[trigger] includes@[j]).selects(m1, i) == (
                includes@[j]).selects(m2, i) by {
                    lemma_selects_same_view(&includes@[j], m1, m2);
                }
                assert forall|j: int|
                    0 <= j < excludes@.len() implies (#[trigger] excludes@[j]).selects(m1, i) == (
                excludes@[j]).selects(m2, i) by {
                    lemma_selects_same_view(&excludes@[j], m1, m2);
                }
            },
        }
    }
}

/// The zero vector as a `Vec3` value.
pub open spec fn v3_zero() -> Vec3 {
    Vec3 { x: ZERO_BITS, y: ZERO_BITS, z: ZERO_BITS }
}

/// The unit +X vector as a `Vec3` value.
pub open spec fn v3_unit_x() -> Vec3 {
    Vec3 { x: crate::geom::ONE_BITS, y: ZERO_BITS, z: ZERO_BITS }
}

/// The unit +Y vector as a `Vec3` value.
pub open spec fn v3_unit_y() -> Vec3 {
    Vec3 { x: ZERO_BITS, y: crate::geom::ONE_BITS, z: ZERO_BITS }
}

/// The position of the atom `sel` names in `m`, where it has one.
pub open spec fn sel_position(sel: &SelectOne, m: &SparseMolecule) -> Option<Vec3> {
    match sel.spec_get_atom(m) {
        Some(a) => Some(a.position),
        None => None,
    }
}

/// The three-point frame alignment, as a function of the incoming
/// molecule: the translation that brings `o`'s atom to the origin, the
/// rotation that brings `x`'s (translated) atom onto the +X axis, and
/// the rotation that brings `y`'s (translated, rotated) projection onto
/// +Y; each applied to the selected atoms in turn.
pub open spec fn xy_align_ok(
    o: &SelectOne,
    x: &SelectOne,
    y: &SelectOne,
    select: &SelectMany,
    b: &SparseMolecule,
    a: &SparseMolecule,
) -> bool {
    let o_pos = sel_position(o, b)->0;
    let delta = sub_v(v3_zero()@, o_pos@);
    let p1 = |p: Vec3, i: usize| if select.selects(b, i) {
        crate::geom::vec3_of(add_v(p@, delta))
    } else {
        p
    };
    let x_i = x.spec_to_index(b)->0;
    let x_pos = p1(atom_at(b.atoms.data@, x_i as int)->0.position, x_i);
    let ox = norm_v(sub_v(x_pos@, v3_zero()@));
    let q2 = quat_of(chosen_axis(v3_unit_x()@, ox), chosen_angle(v3_unit_x()@, ox));
    let p2 = |p: Vec3, i: usize| if select.selects(b, i) {
        crate::geom::vec3_of(add_v(rotate_v(q2, sub_v((p1(p, i))@, v3_zero()@)), v3_zero()@))
    } else {
        p1(p, i)
    };
    let y_i = y.spec_to_index(b)->0;
    let y_pos = p2(atom_at(b.atoms.data@, y_i as int)->0.position, y_i);
    let oy = sub_v(y_pos@, v3_zero()@);
    let oy2 = norm_v(sub_v(oy, scale_v(v3_unit_x()@, dot_s(oy, v3_unit_x()@))));
    let q3 = quat_of(chosen_axis(v3_unit_y()@, oy2), chosen_angle(v3_unit_y()@, oy2));
    let p3 = |p: Vec3, i: usize| if select.selects(b, i) {
        crate::geom::vec3_of(add_v(rotate_v(q3, sub_v((p2(p, i))@, v3_zero()@)), v3_zero()@))
    } else {
        p2(p, i)
    };
    &&& sel_position(o, b) is Some
    &&& x.spec_to_index(b) is Some && atom_at(b.atoms.data@, x_i as int) is Some
    &&& y.spec_to_index(b) is Some && atom_at(b.atoms.data@, y_i as int) is Some
    &&& eq_title(a, b)
    &&& eq_bonds(a, b)
    &&& eq_ids(a, b)
    &&& eq_groups(a, b)
    &&& a.atoms.data@.len() == b.atoms.data@.len()
    &&& forall|i: int|
        0 <= i < a.atoms.data@.len() ==> a.atoms.data@[i] == match b.atoms.data@[i] {
            Some(at) => Some(with_position(at, p3(at.position, i as usize))),
            None => None::<Atom3D>,
        }
}

/// Which selector a failed frame alignment reports: the first of `o`,
/// `x`, `y` whose atom is missing, all judged against the incoming
/// molecule (the two translations and rotations change neither
/// presence, names nor groups).
pub open spec fn xy_align_failure(
    o: &SelectOne,
    x: &SelectOne,
    y: &SelectOne,
    b: &SparseMolecule,
    e: &LayerStorageError,
) -> bool {
    if sel_position(o, b) is None {
        is_select_err(e, sel_view(o))
    } else if sel_position(x, b) is None {
        is_select_err(e, sel_view(x))
    } else if sel_position(y, b) is None {
        is_select_err(e, sel_view(y))
    } else {
        false
    }
}

/// Aligns a three-point frame: brings `o`'s atom to the origin, `x`'s
/// onto the +X axis and `y`'s projection onto +Y, moving only the
/// selected atoms at each of the three steps.
pub fn apply_xy_align(
    current: SparseMolecule,
    o: &SelectOne,
    x: &SelectOne,
    y: &SelectOne,
    select: &SelectMany,
) -> (r: Result<SparseMolecule, LayerStorageError>)
    requires
        current.wf(),
    ensures
        match r {
            Ok(m) => m.wf() && xy_align_ok(o, x, y, select, &current, &m),
            Err(e) => xy_align_failure(o, x, y, &current, &e),
        },
        (r is Err) == (sel_position(o, &current) is None || sel_position(x, &current) is None
            || sel_position(y, &current) is None),
{
    let ghost orig = current;
    let mut cur = current;
    let zero = Vec3 { x: ZERO_BITS, y: ZERO_BITS, z: ZERO_BITS };
    let o_atom = match o.get_atom(&cur) {
        Some(a) => a,
        None => {
            return Err(LayerStorageError::SelectNotFound(o.duplicated()));
        },
    };
    let sel1 = select.to_indexes(&cur);
    let delta = v_sub(zero, o_atom.position);
    translate_atoms(&mut cur.atoms, &sel1, delta);
    proof {
        lemma_selects_same_view(select, &orig, &cur);
        assert(same_selection_view(&cur, &orig));
    }
    let x_atom = match x.get_atom(&cur) {
        Some(a) => a,
        None => {
            proof {
                assert(x.spec_to_index(&cur) == x.spec_to_index(&orig));
                assert(sel_position(x, &orig) is None);
            }
            return Err(LayerStorageError::SelectNotFound(x.duplicated()));
        },
    };
    let sel2 = select.to_indexes(&cur);
    let ox = v_norm(v_sub(x_atom.position, zero));
    let x_axis = Vec3 { x: crate::geom::ONE_BITS, y: ZERO_BITS, z: ZERO_BITS };
    let (axis2, angle2) = crate::geom::axis_angle_for_b2a(x_axis, ox);
    let q2 = q_from_axis_angle(axis2, angle2);
    rotate_atoms_about(&mut cur.atoms, &sel2, q2, zero);
    proof {
        lemma_selects_same_view(select, &orig, &cur);
        assert(same_selection_view(&cur, &orig));
    }
    let y_atom = match y.get_atom(&cur) {
        Some(a) => a,
        None => {
            proof {
                assert(y.spec_to_index(&cur) == y.spec_to_index(&orig));
                assert(sel_position(y, &orig) is None);
            }
            return Err(LayerStorageError::SelectNotFound(y.duplicated()));
        },
    };
    let sel3 = select.to_indexes(&cur);
    let y_axis = Vec3 { x: ZERO_BITS, y: crate::geom::ONE_BITS, z: ZERO_BITS };
    let oy = v_sub(y_atom.position, zero);
    let oy2 = v_norm(v_sub(oy, v_scale(x_axis, v_dot(oy, x_axis))));
    let (axis3, angle3) = crate::geom::axis_angle_for_b2a(y_axis, oy2);
    let q3 = q_from_axis_angle(axis3, angle3);
    rotate_atoms_about(&mut cur.atoms, &sel3, q3, zero);
    proof {
        lemma_selects_same_view(select, &orig, &cur);
    }
    Ok(cur)
}

/// Every index below `n`, ascending.
pub fn every_index(n: usize) -> (r: Vec<usize>)
    ensures
        sorted_unique(r@),
        forall|y: usize| #[trigger] r@.contains(y) <==> y < n,
{
    let mut out: Vec<usize> = Vec::new();
    for i in 0..n
        invariant
            out@.len() == i,
            forall|j: int| 0 <= j < i ==> out@[j] == j,
    {
        out.push(i);
    }
    proof {
        assert forall|y: usize| #[trigger] out@.contains(y) <==> y < n by {
            if y < n {
                assert(out@[y as int] == y);
            }
        }
    }
    out
}

/// A single, pure, declarative edit of a molecule.
#[derive(Debug)]
pub enum Layer {
    /// The identity: a structural placeholder.
    Transparent,
    /// Lays `data` over the molecule; incoming values win.
    Fill { data: SparseMolecule },
    /// Lays `data` over the molecule after shifting it up by `offset`.
    Insert { offset: usize, data: SparseMolecule },
    /// Namespaces `data` under `name`, tags its atoms into group `name`,
    /// and concatenates it after the molecule's slots.
    Append { name: String, data: SparseMolecule },
    /// Overwrites (or clears) the slot a selector names.
    SetAtom { target: SelectOne, atom: Option<Atom3D> },
    /// Rewrites the formal charge of the atom a selector names.
    UpdateFormalCharge { target: SelectOne, charge: u64 },
    /// Appends the given atoms after the current end of the list.
    AppendAtoms { atoms: Vec<Atom3D> },
    /// Records each bond symmetrically between two resolved selectors.
    SetBond { bonds: Vec<(SelectOne, SelectOne, u64)> },
    /// Binds each name to the slot its selector resolves to.
    IdMap { targets: Vec<(String, SelectOne)> },
    /// Inserts each selector's indices into the named group.
    GroupMap { groups: Vec<(String, SelectMany)> },
    /// Translates all atoms so the selected atom lands on `center`.
    SetCenter { select: SelectOne, center: Vec3 },
    /// Rotates all atoms about the origin so the selected atom's
    /// position vector aligns with `direction`.
    DirectionAlign { select: SelectOne, direction: Vec3 },
    /// Aligns a three-point frame onto the origin, +X and +Y.
    XYAlign { o: SelectOne, x: SelectOne, y: SelectOne, select: SelectMany },
    /// Translates the selected atoms by `vector`.
    Translation { select: SelectMany, vector: Vec3 },
    /// Translates the selected atoms so the target atom lands on
    /// `position`.
    TranslationTo { select: SelectMany, target: SelectOne, position: Vec3 },
    /// Rotates the selected atoms about atom `a` so the direction from
    /// `a` to `b` aligns with `direction`.
    RotationTo { a: SelectOne, b: SelectOne, select: SelectMany, direction: Vec3 },
    /// Rotates the selected atoms by `angle` about the normalized `axis`
    /// through `center`; a zero axis leaves them in place.
    Rotation { select: SelectMany, center: Vec3, axis: Vec3, angle: u64, degree: bool },
    /// Applies a rigid transform: rotate by `rotation`, then translate
    /// by `translation`.
    Isometry { select: SelectMany, rotation: Quat, translation: Vec3 },
    /// Reflects the selected atoms across the plane through `center`
    /// with normal `law_vector`.
    Mirror { select: SelectMany, center: Vec3, law_vector: Vec3 },
    /// Writes the inert placeholder atom into the selected slots.
    RemoveAtoms { select: SelectMany },
    /// Marks the selected atoms hidden by moving their element codes
    /// into the hidden band.
    Hide { select: SelectMany },
    /// Restores the selected atoms' element codes from the hidden band.
    UnHide { select: SelectMany },
}

/// What a successful insert leaves behind: `data` shifted up by `off`
/// and laid over `b`.
pub open spec fn insert_ok(b: &SparseMolecule, off: int, data: &SparseMolecule, a: &SparseMolecule) -> bool {
    &&& a.title@ == data.title@
    &&& a.atoms.data@.len() == max_usize(b.atoms.data@.len() as int, data.atoms.data@.len() + off)
    &&& forall|i: int|
        0 <= i < a.atoms.data@.len() ==> a.atoms.data@[i] == merged_atom(
            atom_at(b.atoms.data@, i),
            shifted_atom(data.atoms.data@, off, i),
        )
    &&& a.bonds.view_rows().len() == max_usize(
        b.bonds.view_rows().len() as int,
        data.bonds.view_rows().len() + off,
    )
    &&& forall|x: int, y: int| #[trigger]
        a.bonds.spec_bond(x, y) == merged_bond(
            b.bonds.spec_bond(x, y),
            if x >= off && y >= off {
                data.bonds.spec_bond(x - off, y - off)
            } else {
                None::<u64>
            },
        )
    &&& forall|k: Seq<char>, v: usize| #[trigger]
        a.ids.has(k, v) <==> (crate::n_to_n::shift_pairs(data.ids.entries(), off).contains((k, v))
            || (b.ids.has(k, v) && !crate::name_index::keys_of(
            crate::n_to_n::shift_pairs(data.ids.entries(), off),
        ).contains(k)))
    &&& forall|k: Seq<char>| #[trigger]
        a.ids.has_key(k) <==> (crate::name_index::keys_of(
            crate::n_to_n::shift_pairs(data.ids.entries(), off),
        ).contains(k) || b.ids.has_key(k))
    &&& forall|g: Seq<char>, x: usize| #[trigger]
        a.groups.has(g, x) <==> (b.groups.has(g, x) || crate::n_to_n::shift_pairs(
            data.groups.pairs(),
            off,
        ).contains((g, x)))
}

/// The arithmetic room an insert needs.
pub open spec fn insert_bounds(off: int, data: &SparseMolecule) -> bool {
    &&& data.atoms.data@.len() + off <= usize::MAX
    &&& data.bonds.view_rows().len() + off < usize::MAX
    &&& forall|i: int|
        0 <= i < data.ids.entries().len() ==> (#[trigger] data.ids.entries()[i]).1 + off
            <= usize::MAX
    &&& forall|i: int|
        0 <= i < data.groups.pairs().len() ==> (#[trigger] data.groups.pairs()[i]).1 + off
            <= usize::MAX
}

/// What writing one slot leaves behind: slot `i` holds `atom`, the list
/// has grown to reach it, everything else is unchanged.
pub open spec fn set_atom_ok(b: &SparseMolecule, i: int, atom: Option<Atom3D>, a: &SparseMolecule) -> bool {
    &&& eq_title(a, b)
    &&& eq_bonds(a, b)
    &&& eq_ids(a, b)
    &&& eq_groups(a, b)
    &&& a.atoms.data@.len() == max_usize(b.atoms.data@.len() as int, i + 1)
    &&& a.atoms.data@[i] == atom
    &&& forall|j: int|
        0 <= j < a.atoms.data@.len() && j != i ==> a.atoms.data@[j] == atom_at(b.atoms.data@, j)
}

/// Positions of the selected present atoms mapped by a translation.
pub open spec fn translated_ok(
    b: &SparseMolecule,
    sel: spec_fn(usize) -> bool,
    delta: (u64, u64, u64),
    a: &SparseMolecule,
) -> bool {
    &&& eq_title(a, b)
    &&& eq_bonds(a, b)
    &&& eq_ids(a, b)
    &&& eq_groups(a, b)
    &&& a.atoms.data@.len() == b.atoms.data@.len()
    &&& forall|i: int|
        0 <= i < a.atoms.data@.len() ==> a.atoms.data@[i] == match b.atoms.data@[i] {
            Some(at) => Some(
                if sel(i as usize) {
                    with_position(at, crate::geom::vec3_of(add_v(at.position@, delta)))
                } else {
                    at
                },
            ),
            None => None::<Atom3D>,
        }
}

/// Positions of the selected present atoms rotated by `q` about
/// `center`.
pub open spec fn rotated_ok(
    b: &SparseMolecule,
    sel: spec_fn(usize) -> bool,
    q: (u64, u64, u64, u64),
    center: (u64, u64, u64),
    a: &SparseMolecule,
) -> bool {
    &&& eq_title(a, b)
    &&& eq_bonds(a, b)
    &&& eq_ids(a, b)
    &&& eq_groups(a, b)
    &&& a.atoms.data@.len() == b.atoms.data@.len()
    &&& forall|i: int|
        0 <= i < a.atoms.data@.len() ==> a.atoms.data@[i] == match b.atoms.data@[i] {
            Some(at) => Some(
                if sel(i as usize) {
                    with_position(
                        at,
                        crate::geom::vec3_of(
                            add_v(rotate_v(q, sub_v(at.position@, center)), center),
                        ),
                    )
                } else {
                    at
                },
            ),
            None => None::<Atom3D>,
        }
}

/// Positions of the selected present atoms rotated by `q` about the
/// origin, with no translation applied.
pub open spec fn rotated_origin_ok(
    b: &SparseMolecule,
    sel: spec_fn(usize) -> bool,
    q: (u64, u64, u64, u64),
    a: &SparseMolecule,
) -> bool {
    &&& eq_title(a, b)
    &&& eq_bonds(a, b)
    &&& eq_ids(a, b)
    &&& eq_groups(a, b)
    &&& a.atoms.data@.len() == b.atoms.data@.len()
    &&& forall|i: int|
        0 <= i < a.atoms.data@.len() ==> a.atoms.data@[i] == match b.atoms.data@[i] {
            Some(at) => Some(
                if sel(i as usize) {
                    with_position(at, crate::geom::vec3_of(rotate_v(q, at.position@)))
                } else {
                    at
                },
            ),
            None => None::<Atom3D>,
        }
}

/// The payload molecules a layer carries are themselves well-formed.
pub open spec fn layer_wf(l: &Layer) -> bool {
    match l {
        Layer::Fill { data } => data.wf(),
        Layer::Insert { offset, data } => data.wf(),
        Layer::Append { name, data } => data.wf(),
        _ => true,
    }
}

/// The machine bounds a layer application needs; everything else about
/// the inputs is allowed.
pub open spec fn filter_bounds(l: &Layer, m: &SparseMolecule) -> bool {
    match l {
        Layer::Fill { data } => data.bonds.view_rows().len() < usize::MAX,
        Layer::Insert { offset, data } => insert_bounds(*offset as int, data),
        Layer::Append { name, data } => append_bounds(m, data),
        Layer::SetAtom { target, atom } => match target.spec_to_index(m) {
            Some(i) => i < usize::MAX,
            None => true,
        },
        Layer::AppendAtoms { atoms } => m.atoms.data@.len() + atoms@.len() <= usize::MAX,
        Layer::SetBond { bonds } => set_bond_bounds(m, bonds@),
        _ => true,
    }
}

/// Whether the layer applied to `b` must fail, and hence returns its
/// error rather than a molecule.
pub open spec fn filter_fails(l: &Layer, b: &SparseMolecule) -> bool {
    match l {
        Layer::SetAtom { target, atom } => target.spec_to_index(b) is None,
        Layer::UpdateFormalCharge { target, charge } => target.spec_get_atom(b) is None,
        Layer::SetBond { bonds } => set_bond_some_unresolved(b, bonds@),
        Layer::IdMap { targets } => id_map_some_unresolved(b, targets@),
        Layer::SetCenter { select, center } => select.spec_get_atom(b) is None,
        Layer::DirectionAlign { select, direction } => select.spec_get_atom(b) is None,
        Layer::XYAlign { o, x, y, select } => sel_position(o, b) is None || sel_position(x, b)
            is None || sel_position(y, b) is None,
        Layer::TranslationTo { select, target, position } => target.spec_get_atom(b) is None,
        Layer::RotationTo { a, b: bsel, select, direction } => a.spec_get_atom(b) is None
            || bsel.spec_get_atom(b) is None,
        Layer::Hide { select } => exists|i: usize|
            #[trigger] select.selects(b, i) && hide_blocked_at(b.atoms.data@, i as int),
        Layer::UnHide { select } => exists|i: usize|
            #[trigger] select.selects(b, i) && unhide_blocked_at(b.atoms.data@, i as int),
        _ => false,
    }
}

/// What the layer's error says, when it fails.
pub open spec fn filter_err(l: &Layer, b: &SparseMolecule, e: &LayerStorageError) -> bool {
    match l {
        Layer::SetAtom { target, atom } => is_select_err(e, sel_view(target)),
        Layer::UpdateFormalCharge { target, charge } => is_select_err(e, sel_view(target)),
        Layer::SetBond { bonds } => set_bond_failure(b, bonds@, e),
        Layer::IdMap { targets } => id_map_failure(b, targets@, e),
        Layer::SetCenter { select, center } => is_select_err(e, sel_view(select)),
        Layer::DirectionAlign { select, direction } => is_select_err(e, sel_view(select)),
        Layer::XYAlign { o, x, y, select } => xy_align_failure(o, x, y, b, e),
        Layer::TranslationTo { select, target, position } => is_select_err(e, sel_view(target)),
        Layer::RotationTo { a, b: bsel, select, direction } => if a.spec_get_atom(b) is None {
            is_select_err(e, sel_view(a))
        } else {
            is_select_err(e, sel_view(bsel))
        },
        Layer::Hide { select } => exists|i: usize|
            select.selects(b, i) && hide_blocked_at(b.atoms.data@, i as int) && (forall|j: usize|
                j < i ==> !(select.selects(b, j) && hide_blocked_at(b.atoms.data@, j as int)))
                && (#[trigger] e_matches_hide(e, i, b.atoms.data@)),
        Layer::UnHide { select } => exists|i: usize|
            select.selects(b, i) && unhide_blocked_at(b.atoms.data@, i as int) && (forall|
                j: usize,
            |
                j < i ==> !(select.selects(b, j) && unhide_blocked_at(b.atoms.data@, j as int)))
                && (#[trigger] e_matches_hide(e, i, b.atoms.data@)),
        _ => false,
    }
}

/// Whether slot `i` holds a present atom already in the hidden band.
pub open spec fn hide_blocked_at(m: Seq<Option<Atom3D>>, i: int) -> bool {
    match atom_at(m, i) {
        Some(a) => a.element >= HIDDEN_ELEMENT_OFFSET,
        None => false,
    }
}

/// Whether slot `i` holds a present atom below the hidden band.
pub open spec fn unhide_blocked_at(m: Seq<Option<Atom3D>>, i: int) -> bool {
    match atom_at(m, i) {
        Some(a) => a.element < HIDDEN_ELEMENT_OFFSET,
        None => false,
    }
}

/// Whether `e` is the band error for slot `i` of `m`.
pub open spec fn e_matches_hide(e: &LayerStorageError, i: usize, m: Seq<Option<Atom3D>>) -> bool {
    match e {
        LayerStorageError::HideOverflow { idx, current_value } => *idx == i && match atom_at(
            m,
            i as int,
        ) {
            Some(a) => *current_value == a.element,
            None => false,
        },
        _ => false,
    }
}

/// Positions of the selected present atoms mapped by a rigid transform:
/// rotate by `q`, then translate by `t`.
pub open spec fn isometried_ok(
    b: &SparseMolecule,
    sel: spec_fn(usize) -> bool,
    q: (u64, u64, u64, u64),
    t: (u64, u64, u64),
    a: &SparseMolecule,
) -> bool {
    &&& eq_title(a, b)
    &&& eq_bonds(a, b)
    &&& eq_ids(a, b)
    &&& eq_groups(a, b)
    &&& a.atoms.data@.len() == b.atoms.data@.len()
    &&& forall|i: int|
        0 <= i < a.atoms.data@.len() ==> a.atoms.data@[i] == match b.atoms.data@[i] {
            Some(at) => Some(
                if sel(i as usize) {
                    with_position(at, crate::geom::vec3_of(add_v(rotate_v(q, at.position@), t)))
                } else {
                    at
                },
            ),
            None => None::<Atom3D>,
        }
}

/// Positions of the selected present atoms reflected across the plane
/// through `center` with unit normal `n`.
pub open spec fn mirrored_ok(
    b: &SparseMolecule,
    sel: spec_fn(usize) -> bool,
    center: (u64, u64, u64),
    n: (u64, u64, u64),
    a: &SparseMolecule,
) -> bool {
    &&& eq_title(a, b)
    &&& eq_bonds(a, b)
    &&& eq_ids(a, b)
    &&& eq_groups(a, b)
    &&& a.atoms.data@.len() == b.atoms.data@.len()
    &&& forall|i: int|
        0 <= i < a.atoms.data@.len() ==> a.atoms.data@[i] == match b.atoms.data@[i] {
            Some(at) => Some(
                if sel(i as usize) {
                    with_position(
                        at,
                        crate::geom::vec3_of(
                            sub_v(
                                at.position@,
                                scale_v(
                                    scale_v(n, dot_s(sub_v(at.position@, center), n)),
                                    TWO_BITS,
                                ),
                            ),
                        ),
                    )
                } else {
                    at
                },
            ),
            None => None::<Atom3D>,
        }
}

/// The selected slots replaced by the inert placeholder atom; nothing
/// is renumbered and no gap is punched.
pub open spec fn removed_ok(b: &SparseMolecule, sel: spec_fn(usize) -> bool, a: &SparseMolecule) -> bool {
    &&& eq_title(a, b)
    &&& eq_bonds(a, b)
    &&& eq_ids(a, b)
    &&& eq_groups(a, b)
    &&& a.atoms.data@.len() == b.atoms.data@.len()
    &&& forall|i: int|
        0 <= i < a.atoms.data@.len() ==> a.atoms.data@[i] == if sel(i as usize) {
            Some(Atom3D::placeholder())
        } else {
            b.atoms.data@[i]
        }
}

/// The selected present atoms moved into the hidden element band, by
/// `delta` added to their codes (`delta` is subtracted for unhiding).
pub open spec fn band_shifted_ok(
    b: &SparseMolecule,
    sel: spec_fn(usize) -> bool,
    up: bool,
    a: &SparseMolecule,
) -> bool {
    &&& eq_title(a, b)
    &&& eq_bonds(a, b)
    &&& eq_ids(a, b)
    &&& eq_groups(a, b)
    &&& a.atoms.data@.len() == b.atoms.data@.len()
    &&& forall|i: int|
        0 <= i < a.atoms.data@.len() ==> a.atoms.data@[i] == match b.atoms.data@[i] {
            Some(at) => Some(
                if sel(i as usize) {
                    Atom3D {
                        element: if up {
                            (at.element + HIDDEN_ELEMENT_OFFSET) as usize
                        } else {
                            (at.element - HIDDEN_ELEMENT_OFFSET) as usize
                        },
                        position: at.position,
                        formal_charge: at.formal_charge,
                    }
                } else {
                    at
                },
            ),
            None => None::<Atom3D>,
        }
}

/// What each successful layer application leaves behind.
pub open spec fn filter_ok(l: &Layer, b: &SparseMolecule, a: &SparseMolecule) -> bool {
    match l {
        Layer::Transparent => mol_same(a, b),
        Layer::Fill { data } => migrated(*b, *data, *a),
        Layer::Insert { offset, data } => insert_ok(b, *offset as int, data, a),
        Layer::Append { name, data } => append_ok(b, name@, data, a),
        Layer::SetAtom { target, atom } => set_atom_ok(
            b,
            target.spec_to_index(b)->0 as int,
            *atom,
            a,
        ),
        Layer::UpdateFormalCharge { target, charge } => {
            let at = target.spec_get_atom(b)->0;
            set_atom_ok(
                b,
                target.spec_to_index(b)->0 as int,
                Some(Atom3D { element: at.element, position: at.position, formal_charge: *charge }),
                a,
            )
        },
        Layer::AppendAtoms { atoms } => {
            &&& eq_title(a, b)
            &&& eq_bonds(a, b)
            &&& eq_ids(a, b)
            &&& eq_groups(a, b)
            &&& a.atoms.data@ == b.atoms.data@ + atoms@.map_values(|t: Atom3D| Some(t))
        },
        Layer::SetBond { bonds } => set_bond_ok(b, bonds@, a),
        Layer::IdMap { targets } => id_map_ok(b, targets@, a),
        Layer::GroupMap { groups } => group_map_applied(groups@, *b, *a),
        Layer::SetCenter { select, center } => translated_ok(
            b,
            |i: usize| true,
            sub_v(center@, sel_position(select, b)->0@),
            a,
        ),
        Layer::DirectionAlign { select, direction } => {
            let cd = sub_v(sel_position(select, b)->0@, v3_zero()@);
            rotated_origin_ok(
                b,
                |i: usize| true,
                quat_of(chosen_axis(direction@, cd), chosen_angle(direction@, cd)),
                a,
            )
        },
        Layer::XYAlign { o, x, y, select } => xy_align_ok(o, x, y, select, b, a),
        Layer::Translation { select, vector } => translated_ok(
            b,
            |i: usize| select.selects(b, i),
            vector@,
            a,
        ),
        Layer::TranslationTo { select, target, position } => translated_ok(
            b,
            |i: usize| select.selects(b, i),
            sub_v(position@, sel_position(target, b)->0@),
            a,
        ),
        Layer::RotationTo { a: asel, b: bsel, select, direction } => {
            let apos = sel_position(asel, b)->0;
            let cd = sub_v(sel_position(bsel, b)->0@, apos@);
            rotated_ok(
                b,
                |i: usize| select.selects(b, i),
                quat_of(chosen_axis(direction@, cd), chosen_angle(direction@, cd)),
                apos@,
                a,
            )
        },
        Layer::Rotation { select, center, axis, angle, degree } => {
            let ang = if *degree {
                deg_to_rad(*angle)
            } else {
                *angle
            };
            if is_zero_bits(len_s(axis@)) {
                mol_same(a, b)
            } else {
                rotated_ok(
                    b,
                    |i: usize| select.selects(b, i),
                    quat_of(norm_v(axis@), ang),
                    center@,
                    a,
                )
            }
        },
        Layer::Isometry { select, rotation, translation } => isometried_ok(
            b,
            |i: usize| select.selects(b, i),
            rotation@,
            translation@,
            a,
        ),
        Layer::Mirror { select, center, law_vector } => mirrored_ok(
            b,
            |i: usize| select.selects(b, i),
            center@,
            norm_v(law_vector@),
            a,
        ),
        Layer::RemoveAtoms { select } => removed_ok(b, |i: usize| select.selects(b, i), a),
        Layer::Hide { select } => band_shifted_ok(b, |i: usize| select.selects(b, i), true, a),
        Layer::UnHide { select } => band_shifted_ok(b, |i: usize| select.selects(b, i), false, a),
    }
}

impl Layer {
    /// Applies this layer to the molecule: the edited molecule, or the
    /// error naming what could not be resolved.  Succeeds exactly when
    /// `filter_fails` does not hold of the inputs.
    pub fn filter(&self, current: SparseMolecule) -> (r: Result<
        SparseMolecule,
        LayerStorageError,
    >)
        requires
            current.wf(),
            layer_wf(self),
            filter_bounds(self, &current),
        ensures
            match r {
                Ok(m) => m.wf() && filter_ok(self, &current, &m),
                Err(e) => filter_err(self, &current, &e),
            },
            (r is Err) == filter_fails(self, &current),
    {
        let ghost orig = current;
        match self {
            Layer::Transparent => Ok(current),
            Layer::Fill { data } => {
                let mut cur = current;
                cur.migrate(data);
                Ok(cur)
            },
            Layer::Insert { offset, data } => {
                let copy = data.duplicated();
                proof {
                    assert(copy.bonds.view_rows() == data.bonds.view_rows());
                    assert(copy.ids.entries() == data.ids.entries());
                    assert(copy.groups.pairs() == data.groups.pairs());
                    assert(copy.wf());
                }
                let moved = copy.offset(*offset);
                let mut cur = current;
                cur.migrate(&moved);
                proof {
                    assert(moved.ids.entries() == crate::n_to_n::shift_pairs(
                        data.ids.entries(),
                        *offset as int,
                    ));
                    assert(moved.groups.pairs() == crate::n_to_n::shift_pairs(
                        data.groups.pairs(),
                        *offset as int,
                    ));
                    let off = *offset as int;
                    assert forall|i: int|
                        0 <= i < cur.atoms.data@.len() implies cur.atoms.data@[i] == merged_atom(
                        atom_at(orig.atoms.data@, i),
                        shifted_atom(data.atoms.data@, off, i),
                    ) by {
                        assert(atom_at(moved.atoms.data@, i) == shifted_atom(
                            data.atoms.data@,
                            off,
                            i,
                        ));
                    }
                    assert forall|x: int, y: int| #[trigger]
                        cur.bonds.spec_bond(x, y) == merged_bond(
                        orig.bonds.spec_bond(x, y),
                        if x >= off && y >= off {
                            data.bonds.spec_bond(x - off, y - off)
                        } else {
                            None::<u64>
                        },
                    ) by {
                        assert(moved.bonds.spec_bond(x, y) == if x >= off && y >= off {
                            copy.bonds.spec_bond(x - off, y - off)
                        } else {
                            None::<u64>
                        });
                        assert(copy.bonds.spec_bond(x - off, y - off) == data.bonds.spec_bond(
                            x - off,
                            y - off,
                        ));
                    }
                }
                Ok(cur)
            },
            Layer::Append { name, data } => Ok(apply_append(current, name, data)),
            Layer::SetAtom { target, atom } => {
                let i = match target.to_index(&current) {
                    Some(i) => i,
                    None => {
                        return Err(LayerStorageError::SelectNotFound(target.duplicated()));
                    },
                };
                let mut cur = current;
                let mut one: Vec<Option<Atom3D>> = Vec::new();
                one.push(*atom);
                cur.atoms.set_atoms(i, one);
                Ok(cur)
            },
            Layer::UpdateFormalCharge { target, charge } => {
                let at = match target.get_atom(&current) {
                    Some(a) => a,
                    None => {
                        return Err(LayerStorageError::SelectNotFound(target.duplicated()));
                    },
                };
                let i = match target.to_index(&current) {
                    Some(i) => i,
                    None => {
                        proof {
                            assert(false);
                        }
                        return Err(LayerStorageError::SelectNotFound(target.duplicated()));
                    },
                };
                let mut cur = current;
                let l = cur.atoms.len();
                assert(i < l);
                let mut one: Vec<Option<Atom3D>> = Vec::new();
                one.push(Some(Atom3D { element: at.element, position: at.position, formal_charge: *charge }));
                cur.atoms.set_atoms(i, one);
                Ok(cur)
            },
            Layer::AppendAtoms { atoms } => {
                let mut cur = current;
                let base = cur.atoms.len();
                let mut slots: Vec<Option<Atom3D>> = Vec::new();
                let n = atoms.len();
                for k in 0..n
                    invariant
                        n == atoms@.len(),
                        slots@.len() == k,
                        forall|j: int| 0 <= j < k ==> slots@[j] == Some(atoms@[j]),
                {
                    slots.push(Some(atoms[k]));
                }
                cur.atoms.set_atoms(base, slots);
                proof {
                    assert(cur.atoms.data@ =~= orig.atoms.data@ + atoms@.map_values(
                        |t: Atom3D| Some(t),
                    ));
                }
                Ok(cur)
            },
            Layer::SetBond { bonds } => apply_set_bond(current, bonds),
            Layer::IdMap { targets } => apply_id_map(current, targets),
            Layer::GroupMap { groups } => Ok(apply_group_map(current, groups)),
            Layer::SetCenter { select, center } => {
                let at = match select.get_atom(&current) {
                    Some(a) => a,
                    None => {
                        return Err(LayerStorageError::SelectNotFound(select.duplicated()));
                    },
                };
                let mut cur = current;
                let every = every_index(cur.atoms.len());
                let delta = v_sub(*center, at.position);
                translate_atoms(&mut cur.atoms, &every, delta);
                Ok(cur)
            },
            Layer::DirectionAlign { select, direction } => {
                let at = match select.get_atom(&current) {
                    Some(a) => a,
                    None => {
                        return Err(LayerStorageError::SelectNotFound(select.duplicated()));
                    },
                };
                let zero = Vec3 { x: ZERO_BITS, y: ZERO_BITS, z: ZERO_BITS };
                let cd = v_sub(at.position, zero);
                let (axis, angle) = crate::geom::axis_angle_for_b2a(*direction, cd);
                let q = q_from_axis_angle(axis, angle);
                let mut cur = current;
                let every = every_index(cur.atoms.len());
                rotate_atoms_origin(&mut cur.atoms, &every, q);
                Ok(cur)
            },
            Layer::XYAlign { o, x, y, select } => apply_xy_align(current, o, x, y, select),
            Layer::Translation { select, vector } => {
                let mut cur = current;
                let sel = select.to_indexes(&cur);
                translate_atoms(&mut cur.atoms, &sel, *vector);
                Ok(cur)
            },
            Layer::TranslationTo { select, target, position } => {
                let at = match target.get_atom(&current) {
                    Some(a) => a,
                    None => {
                        return Err(LayerStorageError::SelectNotFound(target.duplicated()));
                    },
                };
                let mut cur = current;
                let sel = select.to_indexes(&cur);
                let delta = v_sub(*position, at.position);
                translate_atoms(&mut cur.atoms, &sel, delta);
                Ok(cur)
            },
            Layer::RotationTo { a, b, select, direction } => {
                let aat = match a.get_atom(&current) {
                    Some(t) => t,
                    None => {
                        return Err(LayerStorageError::SelectNotFound(a.duplicated()));
                    },
                };
                let bat = match b.get_atom(&current) {
                    Some(t) => t,
                    None => {
                        return Err(LayerStorageError::SelectNotFound(b.duplicated()));
                    },
                };
                let cd = v_sub(bat.position, aat.position);
                let (axis, angle) = crate::geom::axis_angle_for_b2a(*direction, cd);
                let q = q_from_axis_angle(axis, angle);
                let mut cur = current;
                let sel = select.to_indexes(&cur);
                rotate_atoms_about(&mut cur.atoms, &sel, q, aat.position);
                Ok(cur)
            },
            Layer::Rotation { select, center, axis, angle, degree } => {
                let ang = if *degree {
                    degrees_to_radians(*angle)
                } else {
                    *angle
                };
                if bits_are_zero(v_len(*axis)) {
                    Ok(current)
                } else {
                    let axisn = v_norm(*axis);
                    let q = q_from_axis_angle(axisn, ang);
                    let mut cur = current;
                    let sel = select.to_indexes(&cur);
                    rotate_atoms_about(&mut cur.atoms, &sel, q, *center);
                    Ok(cur)
                }
            },
            Layer::Isometry { select, rotation, translation } => {
                let mut cur = current;
                let sel = select.to_indexes(&cur);
                isometry_atoms(&mut cur.atoms, &sel, *rotation, *translation);
                Ok(cur)
            },
            Layer::Mirror { select, center, law_vector } => {
                let n = v_norm(*law_vector);
                let mut cur = current;
                let sel = select.to_indexes(&cur);
                mirror_atoms(&mut cur.atoms, &sel, *center, n);
                Ok(cur)
            },
            Layer::RemoveAtoms { select } => {
                let mut cur = current;
                let sel = select.to_indexes(&cur);
                blank_atoms(&mut cur.atoms, &sel);
                proof {
                    assert forall|i: int|
                        0 <= i < cur.atoms.data@.len() implies cur.atoms.data@[i] == (if (
                    |t: usize| select.selects(&orig, t))(i as usize) {
                        Some(Atom3D::placeholder())
                    } else {
                        orig.atoms.data@[i]
                    }) by {
                        assert(sel@.contains(i as usize) == select.selects(&orig, i as usize));
                    }
                }
                Ok(cur)
            },
            Layer::Hide { select } => {
                let mut cur = current;
                let sel = select.to_indexes(&cur);
                match hide_atoms(&mut cur.atoms, &sel) {
                    None => {
                        proof {
                            assert forall|i: usize|
                                select.selects(&orig, i) implies !hide_blocked_at(
                                orig.atoms.data@,
                                i as int,
                            ) by {
                                if i < orig.atoms.data@.len() {
                                    assert(!hide_blocked(orig.atoms.data@, sel@, i as int));
                                }
                            }
                        }
                        Ok(cur)
                    },
                    Some((idx, e)) => {
                        proof {
                            assert(select.selects(&orig, idx));
                            assert forall|j: usize|
                                j < idx implies !(select.selects(&orig, j) && hide_blocked_at(
                                orig.atoms.data@,
                                j as int,
                            )) by {
                                assert(!hide_blocked(orig.atoms.data@, sel@, j as int));
                            }
                        }
                        let err = LayerStorageError::HideOverflow { idx, current_value: e };
                        proof {
                            assert(e_matches_hide(&err, idx, orig.atoms.data@));
                            assert(hide_blocked_at(orig.atoms.data@, idx as int));
                        }
                        Err(err)
                    },
                }
            },
            Layer::UnHide { select } => {
                let mut cur = current;
                let sel = select.to_indexes(&cur);
                match unhide_atoms(&mut cur.atoms, &sel) {
                    None => {
                        proof {
                            assert forall|i: usize|
                                select.selects(&orig, i) implies !unhide_blocked_at(
                                orig.atoms.data@,
                                i as int,
                            ) by {
                                if i < orig.atoms.data@.len() {
                                    assert(!unhide_blocked(orig.atoms.data@, sel@, i as int));
                                }
                            }
                        }
                        Ok(cur)
                    },
                    Some((idx, e)) => {
                        proof {
                            assert(select.selects(&orig, idx));
                            assert forall|j: usize|
                                j < idx implies !(select.selects(&orig, j) && unhide_blocked_at(
                                orig.atoms.data@,
                                j as int,
                            )) by {
                                assert(!unhide_blocked(orig.atoms.data@, sel@, j as int));
                            }
                        }
                        let err = LayerStorageError::HideOverflow { idx, current_value: e };
                        proof {
                            assert(e_matches_hide(&err, idx, orig.atoms.data@));
                            assert(unhide_blocked_at(orig.atoms.data@, idx as int));
                        }
                        Err(err)
                    },
                }
            },
        }
    }
}

/// Hiding then unhiding the same selection restores every element code
/// exactly, provided the selection picks the same slots both times and
/// no selected atom was already hidden (on such an atom hiding fails
/// with its band error instead, as `filter` promises).
pub proof fn lemma_hide_unhide_inverse(
    b: SparseMolecule,
    mid: SparseMolecule,
    out: SparseMolecule,
    sel: spec_fn(usize) -> bool,
)
    requires
        band_shifted_ok(&b, sel, true, &mid),
        band_shifted_ok(&mid, sel, false, &out),
        forall|i: int|
            0 <= i < b.atoms.data@.len() ==> match #[trigger] b.atoms.data@[i] {
                Some(a) => sel(i as usize) ==> a.element < HIDDEN_ELEMENT_OFFSET,
                None => true,
            },
    ensures
        out.atoms.data@ =~= b.atoms.data@,
        eq_title(&out, &b),
        eq_bonds(&out, &b),
        eq_ids(&out, &b),
        eq_groups(&out, &b),
{
    assert forall|i: int| 0 <= i < out.atoms.data@.len() implies out.atoms.data@[i]
        == b.atoms.data@[i] by {
        match b.atoms.data@[i] {
            Some(a) => {
                if sel(i as usize) {
                    assert(a.element < HIDDEN_ELEMENT_OFFSET);
                }
            },
            None => {},
        }
    }
}

/// Bond-list outcomes depend only on the incoming molecule's name
/// bindings and recorded bonds, not on their storage order.
pub proof fn lemma_bonds_outcome_like(
    m1: &SparseMolecule,
    m2: &SparseMolecule,
    bonds: Seq<(SelectOne, SelectOne, u64)>,
    x: int,
    y: int,
)
    requires
        mol_like(m1, m2),
        m1.ids.wf(),
        m2.ids.wf(),
    ensures
        bonds_outcome(m1, bonds, x, y) == bonds_outcome(m2, bonds, x, y),
        bonds_len_outcome(m1, bonds) == bonds_len_outcome(m2, bonds),
    decreases bonds.len(),
{
    if bonds.len() > 0 {
        lemma_bonds_outcome_like(m1, m2, bonds.drop_last(), x, y);
        lemma_to_index_same_entries(&bonds.last().0, m1, m2);
        lemma_to_index_same_entries(&bonds.last().1, m1, m2);
    }
}

/// Name-map outcomes depend only on the incoming molecule's name
/// bindings, not on their storage order.
pub proof fn lemma_ids_outcome_like(
    m1: &SparseMolecule,
    m2: &SparseMolecule,
    targets: Seq<(String, SelectOne)>,
    k: Seq<char>,
    v: usize,
)
    requires
        mol_like(m1, m2),
        m1.ids.wf(),
        m2.ids.wf(),
    ensures
        ids_outcome_has(m1, targets, k, v) == ids_outcome_has(m2, targets, k, v),
        ids_outcome_has_key(m1, targets, k) == ids_outcome_has_key(m2, targets, k),
    decreases targets.len(),
{
    if targets.len() > 0 {
        lemma_ids_outcome_like(m1, m2, targets.drop_last(), k, v);
        lemma_to_index_same_entries(&targets.last().1, m1, m2);
    }
}

/// One named-group step carries observational equivalence forward: the
/// results agree wherever the starting molecules do.
pub proof fn lemma_group_step_like(
    item: (String, SelectMany),
    b1: SparseMolecule,
    a1: SparseMolecule,
    b2: SparseMolecule,
    a2: SparseMolecule,
)
    requires
        group_map_step(item, b1, a1),
        group_map_step(item, b2, a2),
        mol_like(&b1, &b2),
        b1.ids.wf(),
        b2.ids.wf(),
    ensures
        mol_like(&a1, &a2),
        a1.ids.wf() == b1.ids.wf(),
        a2.ids.wf() == b2.ids.wf(),
{
    assert(same_selection_view(&b1, &b2));
    lemma_selects_same_view(&item.1, &b1, &b2);
    assert forall|g: Seq<char>, x: usize| #[trigger] a1.groups.has(g, x) <==> a2.groups.has(
        g,
        x,
    ) by {
        assert(b1.groups.has(g, x) == b2.groups.has(g, x));
        assert(item.1.selects(&b1, x) == item.1.selects(&b2, x));
    }
    assert forall|x: int, y: int| #[trigger]
        a1.bonds.spec_bond(x, y) == a2.bonds.spec_bond(x, y) by {
        assert(b1.bonds.spec_bond(x, y) == b2.bonds.spec_bond(x, y));
    }
    assert forall|k: Seq<char>, v: usize| #[trigger] a1.ids.has(k, v) <==> a2.ids.has(k, v) by {
        assert(b1.ids.has(k, v) == b2.ids.has(k, v));
    }
    assert forall|k: Seq<char>| #[trigger] a1.ids.has_key(k) <==> a2.ids.has_key(k) by {
        assert(b1.ids.has_key(k) == b2.ids.has_key(k));
    }
}

/// The whole named-group operation carries observational equivalence
/// forward.
pub proof fn lemma_group_map_like(
    items: Seq<(String, SelectMany)>,
    b1: SparseMolecule,
    a1: SparseMolecule,
    b2: SparseMolecule,
    a2: SparseMolecule,
)
    requires
        group_map_applied(items, b1, a1),
        group_map_applied(items, b2, a2),
        mol_like(&b1, &b2),
        b1.ids.wf(),
        b2.ids.wf(),
    ensures
        mol_like(&a1, &a2),
{
    let mols1 = choose|mols: Seq<SparseMolecule>|
        #[trigger] group_map_chain(items, mols) && mols[0] == b1 && mols[mols.len() - 1] == a1;
    let mols2 = choose|mols: Seq<SparseMolecule>|
        #[trigger] group_map_chain(items, mols) && mols[0] == b2 && mols[mols.len() - 1] == a2;
    lemma_group_chain_like(items, mols1, mols2, items.len() as int);
}

/// Stepwise transfer of observational equivalence along two snapshot
/// chains for the same named-group items.
pub proof fn lemma_group_chain_like(
    items: Seq<(String, SelectMany)>,
    mols1: Seq<SparseMolecule>,
    mols2: Seq<SparseMolecule>,
    k: int,
)
    requires
        group_map_chain(items, mols1),
        group_map_chain(items, mols2),
        mol_like(&mols1[0], &mols2[0]),
        mols1[0].ids.wf(),
        mols2[0].ids.wf(),
        0 <= k <= items.len(),
    ensures
        mol_like(&mols1[k], &mols2[k]),
        mols1[k].ids.wf(),
        mols2[k].ids.wf(),
    decreases k,
{
    if k > 0 {
        lemma_group_chain_like(items, mols1, mols2, k - 1);
        assert(group_map_step(items[k - 1], mols1[k - 1], mols1[k]));
        assert(group_map_step(items[k - 1], mols2[k - 1], mols2[k]));
        assert(mols1[k].ids.entries() == mols1[k - 1].ids.entries());
        assert(mols2[k].ids.entries() == mols2[k - 1].ids.entries());
        lemma_group_step_like(
            items[k - 1],
            mols1[k - 1],
            mols1[k],
            mols2[k - 1],
            mols2[k],
        );
    }
}

/// A one-atom selector resolves and reads identically against
/// observably equivalent molecules.
pub proof fn lemma_resolve_like(sel: &SelectOne, m1: &SparseMolecule, m2: &SparseMolecule)
    requires
        mol_like(m1, m2),
        m1.ids.wf(),
        m2.ids.wf(),
    ensures
        sel.spec_to_index(m1) == sel.spec_to_index(m2),
        sel.spec_get_atom(m1) == sel.spec_get_atom(m2),
        sel_position(sel, m1) == sel_position(sel, m2),
{
    lemma_to_index_same_entries(sel, m1, m2);
}

/// A many-atom selector selects identically against observably
/// equivalent molecules.
pub proof fn lemma_selects_like(s: &SelectMany, m1: &SparseMolecule, m2: &SparseMolecule)
    requires
        mol_like(m1, m2),
        m1.ids.wf(),
        m2.ids.wf(),
    ensures
        forall|i: usize| #[trigger] s.selects(m1, i) == s.selects(m2, i),
{
    assert(same_selection_view(m1, m2));
    lemma_selects_same_view(s, m1, m2);
}

/// Results that keep the incoming name bindings keep their equivalence.
pub proof fn lemma_ids_eq_transfer(
    a1: &SparseMolecule,
    b1: &SparseMolecule,
    a2: &SparseMolecule,
    b2: &SparseMolecule,
)
    requires
        eq_ids(a1, b1),
        eq_ids(a2, b2),
        ids_like(b1, b2),
    ensures
        ids_like(a1, a2),
{
    assert forall|k: Seq<char>, v: usize| #[trigger] a1.ids.has(k, v) <==> a2.ids.has(k, v) by {
        assert(b1.ids.has(k, v) == b2.ids.has(k, v));
    }
    assert forall|k: Seq<char>| #[trigger] a1.ids.has_key(k) <==> a2.ids.has_key(k) by {
        assert(b1.ids.has_key(k) == b2.ids.has_key(k));
    }
}

/// Results that keep the incoming groups keep their equivalence.
pub proof fn lemma_groups_eq_transfer(
    a1: &SparseMolecule,
    b1: &SparseMolecule,
    a2: &SparseMolecule,
    b2: &SparseMolecule,
)
    requires
        eq_groups(a1, b1),
        eq_groups(a2, b2),
        groups_like(b1, b2),
    ensures
        groups_like(a1, a2),
{
    assert forall|g: Seq<char>, x: usize| #[trigger] a1.groups.has(g, x) <==> a2.groups.has(
        g,
        x,
    ) by {
        assert(b1.groups.has(g, x) == b2.groups.has(g, x));
    }
}

/// Results that keep the incoming bond matrix keep its reads.
pub proof fn lemma_bonds_eq_transfer(
    a1: &SparseMolecule,
    b1: &SparseMolecule,
    a2: &SparseMolecule,
    b2: &SparseMolecule,
)
    requires
        eq_bonds(a1, b1),
        eq_bonds(a2, b2),
        b1.bonds.view_rows().len() == b2.bonds.view_rows().len(),
        forall|x: int, y: int| #[trigger] b1.bonds.spec_bond(x, y) == b2.bonds.spec_bond(x, y),
    ensures
        a1.bonds.view_rows().len() == a2.bonds.view_rows().len(),
        forall|x: int, y: int| #[trigger] a1.bonds.spec_bond(x, y) == a2.bonds.spec_bond(x, y),
{
    assert forall|x: int, y: int| #[trigger]
        a1.bonds.spec_bond(x, y) == a2.bonds.spec_bond(x, y) by {
        assert(b1.bonds.spec_bond(x, y) == b2.bonds.spec_bond(x, y));
    }
}

/// Every layer operation is deterministic up to observation: applied to
/// observably equivalent well-formed molecules, its contract pins
/// observably equivalent results.
pub proof fn lemma_filter_ok_like(
    l: &Layer,
    b1: &SparseMolecule,
    a1: &SparseMolecule,
    b2: &SparseMolecule,
    a2: &SparseMolecule,
)
    requires
        filter_ok(l, b1, a1),
        filter_ok(l, b2, a2),
        mol_like(b1, b2),
        b1.wf(),
        b2.wf(),
    ensures
        mol_like(a1, a2),
{
    match l {
        Layer::Transparent => {
            lemma_ids_eq_transfer(a1, b1, a2, b2);
            lemma_groups_eq_transfer(a1, b1, a2, b2);
            lemma_bonds_eq_transfer(a1, b1, a2, b2);
        },
        Layer::Fill { data } => {
            assert forall|i: int|
                0 <= i < a1.atoms.data@.len() implies a1.atoms.data@[i] == a2.atoms.data@[i] by {}
            assert(a1.atoms.data@ =~= a2.atoms.data@);
            assert forall|x: int, y: int| #[trigger]
                a1.bonds.spec_bond(x, y) == a2.bonds.spec_bond(x, y) by {
                assert(b1.bonds.spec_bond(x, y) == b2.bonds.spec_bond(x, y));
            }
            assert forall|k: Seq<char>, v: usize| #[trigger]
                a1.ids.has(k, v) <==> a2.ids.has(k, v) by {
                assert(b1.ids.has(k, v) == b2.ids.has(k, v));
            }
            assert forall|k: Seq<char>| #[trigger] a1.ids.has_key(k) <==> a2.ids.has_key(k) by {
                assert(b1.ids.has_key(k) == b2.ids.has_key(k));
            }
            assert forall|g: Seq<char>, x: usize| #[trigger]
                a1.groups.has(g, x) <==> a2.groups.has(g, x) by {
                assert(b1.groups.has(g, x) == b2.groups.has(g, x));
            }
        },
        Layer::Insert { offset, data } => {
            assert forall|i: int|
                0 <= i < a1.atoms.data@.len() implies a1.atoms.data@[i] == a2.atoms.data@[i] by {}
            assert(a1.atoms.data@ =~= a2.atoms.data@);
            assert forall|x: int, y: int| #[trigger]
                a1.bonds.spec_bond(x, y) == a2.bonds.spec_bond(x, y) by {
                assert(b1.bonds.spec_bond(x, y) == b2.bonds.spec_bond(x, y));
            }
            assert forall|k: Seq<char>, v: usize| #[trigger]
                a1.ids.has(k, v) <==> a2.ids.has(k, v) by {
                assert(b1.ids.has(k, v) == b2.ids.has(k, v));
            }
            assert forall|k: Seq<char>| #[trigger] a1.ids.has_key(k) <==> a2.ids.has_key(k) by {
                assert(b1.ids.has_key(k) == b2.ids.has_key(k));
            }
            assert forall|g: Seq<char>, x: usize| #[trigger]
                a1.groups.has(g, x) <==> a2.groups.has(g, x) by {
                assert(b1.groups.has(g, x) == b2.groups.has(g, x));
            }
        },
        Layer::Append { name, data } => {
            assert(b1.atoms.data@.len() == b2.atoms.data@.len());
            assert forall|i: int|
                0 <= i < a1.atoms.data@.len() implies a1.atoms.data@[i] == a2.atoms.data@[i] by {}
            assert(a1.atoms.data@ =~= a2.atoms.data@);
            assert forall|x: int, y: int| #[trigger]
                a1.bonds.spec_bond(x, y) == a2.bonds.spec_bond(x, y) by {
                assert(b1.bonds.spec_bond(x, y) == b2.bonds.spec_bond(x, y));
            }
            assert forall|k: Seq<char>, v: usize| #[trigger]
                a1.ids.has(k, v) <==> a2.ids.has(k, v) by {
                assert(b1.ids.has(k, v) == b2.ids.has(k, v));
            }
            assert forall|k: Seq<char>| #[trigger] a1.ids.has_key(k) <==> a2.ids.has_key(k) by {
                assert(b1.ids.has_key(k) == b2.ids.has_key(k));
            }
            assert forall|g: Seq<char>, x: usize| #[trigger]
                a1.groups.has(g, x) <==> a2.groups.has(g, x) by {
                assert(b1.groups.has(g, x) == b2.groups.has(g, x));
            }
        },
        Layer::SetAtom { target, atom } => {
            lemma_resolve_like(target, b1, b2);
            assert forall|i: int|
                0 <= i < a1.atoms.data@.len() implies a1.atoms.data@[i] == a2.atoms.data@[i] by {}
            assert(a1.atoms.data@ =~= a2.atoms.data@);
            lemma_ids_eq_transfer(a1, b1, a2, b2);
            lemma_groups_eq_transfer(a1, b1, a2, b2);
            lemma_bonds_eq_transfer(a1, b1, a2, b2);
        },
        Layer::UpdateFormalCharge { target, charge } => {
            lemma_resolve_like(target, b1, b2);
            assert forall|i: int|
                0 <= i < a1.atoms.data@.len() implies a1.atoms.data@[i] == a2.atoms.data@[i] by {}
            assert(a1.atoms.data@ =~= a2.atoms.data@);
            lemma_ids_eq_transfer(a1, b1, a2, b2);
            lemma_groups_eq_transfer(a1, b1, a2, b2);
            lemma_bonds_eq_transfer(a1, b1, a2, b2);
        },
        Layer::AppendAtoms { atoms } => {
            lemma_ids_eq_transfer(a1, b1, a2, b2);
            lemma_groups_eq_transfer(a1, b1, a2, b2);
            lemma_bonds_eq_transfer(a1, b1, a2, b2);
        },
        Layer::SetBond { bonds } => {
            lemma_bonds_outcome_like(b1, b2, bonds@, 0, 0);
            assert forall|x: int, y: int| #[trigger]
                a1.bonds.spec_bond(x, y) == a2.bonds.spec_bond(x, y) by {
                lemma_bonds_outcome_like(b1, b2, bonds@, x, y);
            }
            lemma_ids_eq_transfer(a1, b1, a2, b2);
            lemma_groups_eq_transfer(a1, b1, a2, b2);
        },
        Layer::IdMap { targets } => {
            assert forall|k: Seq<char>, v: usize| #[trigger]
                a1.ids.has(k, v) <==> a2.ids.has(k, v) by {
                lemma_ids_outcome_like(b1, b2, targets@, k, v);
            }
            assert forall|k: Seq<char>| #[trigger] a1.ids.has_key(k) <==> a2.ids.has_key(k) by {
                lemma_ids_outcome_like(b1, b2, targets@, k, 0);
            }
            lemma_groups_eq_transfer(a1, b1, a2, b2);
            lemma_bonds_eq_transfer(a1, b1, a2, b2);
        },
        Layer::GroupMap { groups } => {
            lemma_group_map_like(groups@, *b1, *a1, *b2, *a2);
        },
        Layer::SetCenter { select, center } => {
            lemma_resolve_like(select, b1, b2);
            assert forall|i: int|
                0 <= i < a1.atoms.data@.len() implies a1.atoms.data@[i] == a2.atoms.data@[i] by {}
            assert(a1.atoms.data@ =~= a2.atoms.data@);
            lemma_ids_eq_transfer(a1, b1, a2, b2);
            lemma_groups_eq_transfer(a1, b1, a2, b2);
            lemma_bonds_eq_transfer(a1, b1, a2, b2);
        },
        Layer::DirectionAlign { select, direction } => {
            lemma_resolve_like(select, b1, b2);
            assert forall|i: int|
                0 <= i < a1.atoms.data@.len() implies a1.atoms.data@[i] == a2.atoms.data@[i] by {}
            assert(a1.atoms.data@ =~= a2.atoms.data@);
            lemma_ids_eq_transfer(a1, b1, a2, b2);
            lemma_groups_eq_transfer(a1, b1, a2, b2);
            lemma_bonds_eq_transfer(a1, b1, a2, b2);
        },
        Layer::XYAlign { o, x, y, select } => {
            lemma_resolve_like(o, b1, b2);
            lemma_resolve_like(x, b1, b2);
            lemma_resolve_like(y, b1, b2);
            lemma_selects_like(select, b1, b2);
            assert forall|i: int|
                0 <= i < a1.atoms.data@.len() implies a1.atoms.data@[i] == a2.atoms.data@[i] by {
                assert(select.selects(b1, i as usize) == select.selects(b2, i as usize));
                let x_i = x.spec_to_index(b1)->0;
                let y_i = y.spec_to_index(b1)->0;
                assert(select.selects(b1, x_i) == select.selects(b2, x_i));
                assert(select.selects(b1, y_i) == select.selects(b2, y_i));
            }
            assert(a1.atoms.data@ =~= a2.atoms.data@);
            lemma_ids_eq_transfer(a1, b1, a2, b2);
            lemma_groups_eq_transfer(a1, b1, a2, b2);
            lemma_bonds_eq_transfer(a1, b1, a2, b2);
        },
        Layer::Translation { select, vector } => {
            lemma_selects_like(select, b1, b2);
                assert forall|i: int|
                    0 <= i < a1.atoms.data@.len() implies a1.atoms.data@[i] == a2.atoms.data@[i] by {
                    assert(select.selects(b1, i as usize) == select.selects(b2, i as usize));
                }
                assert(a1.atoms.data@ =~= a2.atoms.data@);
            lemma_ids_eq_transfer(a1, b1, a2, b2);
            lemma_groups_eq_transfer(a1, b1, a2, b2);
            lemma_bonds_eq_transfer(a1, b1, a2, b2);
        },
        Layer::TranslationTo { select, target, position } => {
            lemma_resolve_like(target, b1, b2);
            lemma_selects_like(select, b1, b2);
                assert forall|i: int|
                    0 <= i < a1.atoms.data@.len() implies a1.atoms.data@[i] == a2.atoms.data@[i] by {
                    assert(select.selects(b1, i as usize) == select.selects(b2, i as usize));
                }
                assert(a1.atoms.data@ =~= a2.atoms.data@);
            lemma_ids_eq_transfer(a1, b1, a2, b2);
            lemma_groups_eq_transfer(a1, b1, a2, b2);
            lemma_bonds_eq_transfer(a1, b1, a2, b2);
        },
        Layer::RotationTo { a, b, select, direction } => {
            lemma_resolve_like(a, b1, b2);
            lemma_resolve_like(b, b1, b2);
            lemma_selects_like(select, b1, b2);
                assert forall|i: int|
                    0 <= i < a1.atoms.data@.len() implies a1.atoms.data@[i] == a2.atoms.data@[i] by {
                    assert(select.selects(b1, i as usize) == select.selects(b2, i as usize));
                }
                assert(a1.atoms.data@ =~= a2.atoms.data@);
            lemma_ids_eq_transfer(a1, b1, a2, b2);
            lemma_groups_eq_transfer(a1, b1, a2, b2);
            lemma_bonds_eq_transfer(a1, b1, a2, b2);
        },
        Layer::Rotation { select, center, axis, angle, degree } => {
            lemma_selects_like(select, b1, b2);
                assert forall|i: int|
                    0 <= i < a1.atoms.data@.len() implies a1.atoms.data@[i] == a2.atoms.data@[i] by {
                    assert(select.selects(b1, i as usize) == select.selects(b2, i as usize));
                }
                assert(a1.atoms.data@ =~= a2.atoms.data@);
            lemma_ids_eq_transfer(a1, b1, a2, b2);
            lemma_groups_eq_transfer(a1, b1, a2, b2);
            lemma_bonds_eq_transfer(a1, b1, a2, b2);
        },
        Layer::Isometry { select, rotation, translation } => {
            lemma_selects_like(select, b1, b2);
                assert forall|i: int|
                    0 <= i < a1.atoms.data@.len() implies a1.atoms.data@[i] == a2.atoms.data@[i] by {
                    assert(select.selects(b1, i as usize) == select.selects(b2, i as usize));
                }
                assert(a1.atoms.data@ =~= a2.atoms.data@);
            lemma_ids_eq_transfer(a1, b1, a2, b2);
            lemma_groups_eq_transfer(a1, b1, a2, b2);
            lemma_bonds_eq_transfer(a1, b1, a2, b2);
        },
        Layer::Mirror { select, center, law_vector } => {
            lemma_selects_like(select, b1, b2);
                assert forall|i: int|
                    0 <= i < a1.atoms.data@.len() implies a1.atoms.data@[i] == a2.atoms.data@[i] by {
                    assert(select.selects(b1, i as usize) == select.selects(b2, i as usize));
                }
                assert(a1.atoms.data@ =~= a2.atoms.data@);
            lemma_ids_eq_transfer(a1, b1, a2, b2);
            lemma_groups_eq_transfer(a1, b1, a2, b2);
            lemma_bonds_eq_transfer(a1, b1, a2, b2);
        },
        Layer::RemoveAtoms { select } => {
            lemma_selects_like(select, b1, b2);
                assert forall|i: int|
                    0 <= i < a1.atoms.data@.len() implies a1.atoms.data@[i] == a2.atoms.data@[i] by {
                    assert(select.selects(b1, i as usize) == select.selects(b2, i as usize));
                }
                assert(a1.atoms.data@ =~= a2.atoms.data@);
            lemma_ids_eq_transfer(a1, b1, a2, b2);
            lemma_groups_eq_transfer(a1, b1, a2, b2);
            lemma_bonds_eq_transfer(a1, b1, a2, b2);
        },
        Layer::Hide { select } => {
            lemma_selects_like(select, b1, b2);
                assert forall|i: int|
                    0 <= i < a1.atoms.data@.len() implies a1.atoms.data@[i] == a2.atoms.data@[i] by {
                    assert(select.selects(b1, i as usize) == select.selects(b2, i as usize));
                }
                assert(a1.atoms.data@ =~= a2.atoms.data@);
            lemma_ids_eq_transfer(a1, b1, a2, b2);
            lemma_groups_eq_transfer(a1, b1, a2, b2);
            lemma_bonds_eq_transfer(a1, b1, a2, b2);
        },
        Layer::UnHide { select } => {
            lemma_selects_like(select, b1, b2);
                assert forall|i: int|
                    0 <= i < a1.atoms.data@.len() implies a1.atoms.data@[i] == a2.atoms.data@[i] by {
                    assert(select.selects(b1, i as usize) == select.selects(b2, i as usize));
                }
                assert(a1.atoms.data@ =~= a2.atoms.data@);
            lemma_ids_eq_transfer(a1, b1, a2, b2);
            lemma_groups_eq_transfer(a1, b1, a2, b2);
            lemma_bonds_eq_transfer(a1, b1, a2, b2);
        },
    }
}

/// Whether a layer must fail depends only on what the molecule
/// observably holds, never on the storage order of names or groups.
pub proof fn lemma_filter_fails_like(l: &Layer, b1: &SparseMolecule, b2: &SparseMolecule)
    requires
        mol_like(b1, b2),
        b1.wf(),
        b2.wf(),
    ensures
        filter_fails(l, b1) == filter_fails(l, b2),
{
    match l {
        Layer::SetAtom { target, atom } => {
            lemma_resolve_like(target, b1, b2);
        },
        Layer::UpdateFormalCharge { target, charge } => {
            lemma_resolve_like(target, b1, b2);
        },
        Layer::SetBond { bonds } => {
            assert forall|j: int|
                0 <= j < bonds@.len() implies pair_resolved(b1, #[trigger] bonds@[j])
                    == pair_resolved(b2, bonds@[j]) by {
                lemma_resolve_like(&bonds@[j].0, b1, b2);
                lemma_resolve_like(&bonds@[j].1, b1, b2);
            }
            if set_bond_some_unresolved(b1, bonds@) {
                let j = choose|j: int|
                    0 <= j < bonds@.len() && !pair_resolved(b1, #[trigger] bonds@[j]);
                assert(!pair_resolved(b2, bonds@[j]));
            }
            if set_bond_some_unresolved(b2, bonds@) {
                let j = choose|j: int|
                    0 <= j < bonds@.len() && !pair_resolved(b2, #[trigger] bonds@[j]);
                assert(!pair_resolved(b1, bonds@[j]));
            }
        },
        Layer::IdMap { targets } => {
            assert forall|j: int|
                0 <= j < targets@.len() implies ((#[trigger] targets@[j]).1.spec_to_index(b1)
                    is None) == (targets@[j].1.spec_to_index(b2) is None) by {
                lemma_resolve_like(&targets@[j].1, b1, b2);
            }
            if id_map_some_unresolved(b1, targets@) {
                let j = choose|j: int|
                    0 <= j < targets@.len() && (#[trigger] targets@[j]).1.spec_to_index(b1)
                        is None;
                assert(targets@[j].1.spec_to_index(b2) is None);
            }
            if id_map_some_unresolved(b2, targets@) {
                let j = choose|j: int|
                    0 <= j < targets@.len() && (#[trigger] targets@[j]).1.spec_to_index(b2)
                        is None;
                assert(targets@[j].1.spec_to_index(b1) is None);
            }
        },
        Layer::SetCenter { select, center } => {
            lemma_resolve_like(select, b1, b2);
        },
        Layer::DirectionAlign { select, direction } => {
            lemma_resolve_like(select, b1, b2);
        },
        Layer::XYAlign { o, x, y, select } => {
            lemma_resolve_like(o, b1, b2);
            lemma_resolve_like(x, b1, b2);
            lemma_resolve_like(y, b1, b2);
        },
        Layer::TranslationTo { select, target, position } => {
            lemma_resolve_like(target, b1, b2);
        },
        Layer::RotationTo { a, b, select, direction } => {
            lemma_resolve_like(a, b1, b2);
            lemma_resolve_like(b, b1, b2);
        },
        Layer::Hide { select } => {
            lemma_selects_like(select, b1, b2);
            if filter_fails(l, b1) {
                let i = choose|i: usize|
                    #[trigger] select.selects(b1, i) && hide_blocked_at(b1.atoms.data@, i as int);
                assert(select.selects(b2, i) && hide_blocked_at(b2.atoms.data@, i as int));
            }
            if filter_fails(l, b2) {
                let i = choose|i: usize|
                    #[trigger] select.selects(b2, i) && hide_blocked_at(b2.atoms.data@, i as int);
                assert(select.selects(b1, i) && hide_blocked_at(b1.atoms.data@, i as int));
            }
        },
        Layer::UnHide { select } => {
            lemma_selects_like(select, b1, b2);
            if filter_fails(l, b1) {
                let i = choose|i: usize|
                    #[trigger] select.selects(b1, i) && unhide_blocked_at(
                        b1.atoms.data@,
                        i as int,
                    );
                assert(select.selects(b2, i) && unhide_blocked_at(b2.atoms.data@, i as int));
            }
            if filter_fails(l, b2) {
                let i = choose|i: usize|
                    #[trigger] select.selects(b2, i) && unhide_blocked_at(
                        b2.atoms.data@,
                        i as int,
                    );
                assert(select.selects(b1, i) && unhide_blocked_at(b1.atoms.data@, i as int));
            }
        },
        _ => {},
    }
}

/// Observational equivalence is symmetric.
pub proof fn lemma_mol_like_sym(a: &SparseMolecule, b: &SparseMolecule)
    requires
        mol_like(a, b),
    ensures
        mol_like(b, a),
{
    assert forall|x: int, y: int| #[trigger]
        b.bonds.spec_bond(x, y) == a.bonds.spec_bond(x, y) by {
        assert(a.bonds.spec_bond(x, y) == b.bonds.spec_bond(x, y));
    }
    assert forall|k: Seq<char>, v: usize| #[trigger] b.ids.has(k, v) <==> a.ids.has(k, v) by {
        assert(a.ids.has(k, v) == b.ids.has(k, v));
    }
    assert forall|k: Seq<char>| #[trigger] b.ids.has_key(k) <==> a.ids.has_key(k) by {
        assert(a.ids.has_key(k) == b.ids.has_key(k));
    }
    assert forall|g: Seq<char>, x: usize| #[trigger] b.groups.has(g, x) <==> a.groups.has(
        g,
        x,
    ) by {
        assert(a.groups.has(g, x) == b.groups.has(g, x));
    }
}

/// Observational equivalence is transitive.
pub proof fn lemma_mol_like_trans(a: &SparseMolecule, b: &SparseMolecule, c: &SparseMolecule)
    requires
        mol_like(a, b),
        mol_like(b, c),
    ensures
        mol_like(a, c),
{
    assert forall|x: int, y: int| #[trigger]
        a.bonds.spec_bond(x, y) == c.bonds.spec_bond(x, y) by {
        assert(a.bonds.spec_bond(x, y) == b.bonds.spec_bond(x, y));
        assert(b.bonds.spec_bond(x, y) == c.bonds.spec_bond(x, y));
    }
    assert forall|k: Seq<char>, v: usize| #[trigger] a.ids.has(k, v) <==> c.ids.has(k, v) by {
        assert(a.ids.has(k, v) == b.ids.has(k, v));
        assert(b.ids.has(k, v) == c.ids.has(k, v));
    }
    assert forall|k: Seq<char>| #[trigger] a.ids.has_key(k) <==> c.ids.has_key(k) by {
        assert(a.ids.has_key(k) == b.ids.has_key(k));
        assert(b.ids.has_key(k) == c.ids.has_key(k));
    }
    assert forall|g: Seq<char>, x: usize| #[trigger] a.groups.has(g, x) <==> c.groups.has(
        g,
        x,
    ) by {
        assert(a.groups.has(g, x) == b.groups.has(g, x));
        assert(b.groups.has(g, x) == c.groups.has(g, x));
    }
}

} // verus!
