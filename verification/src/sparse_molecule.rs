//! The sparse molecular data model.
//!
//! Atoms live in an index-addressable list whose slots may be empty; bonds
//! live in a symmetric square matrix of optional orders; names and groups
//! index into the atom list.  Indices are stable: the list only grows, and
//! removal writes a placeholder instead of renumbering.

use vstd::prelude::*;
use crate::chemistry::{spec_validated_element_num, validated_element_num, Atom3D};
use crate::group_name::GroupName;
use crate::name_index::NameIndex;

verus! {

broadcast use vstd::seq_lib::lemma_seq_contains_after_push;

/// The atom read from slot `i`: `None` outside the list or at a gap.
pub open spec fn atom_at(s: Seq<Option<Atom3D>>, i: int) -> Option<Atom3D> {
    if 0 <= i < s.len() {
        s[i]
    } else {
        None
    }
}

/// The atom that slot `i` holds after laying `over` on top of `base`:
/// the incoming atom wherever it is present, else the existing one.
pub open spec fn merged_atom(base: Option<Atom3D>, over: Option<Atom3D>) -> Option<Atom3D> {
    if over is Some {
        over
    } else {
        base
    }
}

/// How many slots among the first `i` hold a present atom with a valid
/// element code.
pub open spec fn count_valid(s: Seq<Option<Atom3D>>, i: int) -> int
    decreases i,
{
    if i <= 0 {
        0
    } else {
        count_valid(s, i - 1) + if slot_is_valid(s, i - 1) {
            1int
        } else {
            0int
        }
    }
}

/// The running count of valid slots never drops and rises by at most
/// one per slot.
pub proof fn lemma_count_valid_step(s: Seq<Option<Atom3D>>, j: int, i: int)
    requires
        0 <= j < i,
    ensures
        count_valid(s, j) + if slot_is_valid(s, j) {
            1int
        } else {
            0int
        } <= count_valid(s, i),
        count_valid(s, j) >= 0,
    decreases i - j,
{
    lemma_count_valid_nonneg(s, j);
    if j + 1 < i {
        lemma_count_valid_step(s, j + 1, i);
    }
}

/// The count of valid slots is never negative and never exceeds the
/// number of slots counted.
pub proof fn lemma_count_valid_nonneg(s: Seq<Option<Atom3D>>, i: int)
    ensures
        count_valid(s, i) >= 0,
        count_valid(s, i) <= max_usize(i, 0),
    decreases i,
{
    if i > 0 {
        lemma_count_valid_nonneg(s, i - 1);
    }
}

/// Whether slot `i` holds a present atom with a valid element code.
pub open spec fn slot_is_valid(s: Seq<Option<Atom3D>>, i: int) -> bool {
    match atom_at(s, i) {
        Some(a) => spec_validated_element_num(a.element),
        None => false,
    }
}

/// An ordered, index-addressable list of optional atoms.  `None` at a
/// slot means the slot is empty; the list's length only ever grows.
#[derive(Debug)]
pub struct SparseAtomList {
    pub data: Vec<Option<Atom3D>>,
}

impl SparseAtomList {
    /// A list of `capacity` empty slots.
    pub fn new(capacity: usize) -> (r: Self)
        ensures
            r.data@.len() == capacity,
            forall|i: int| 0 <= i < capacity ==> r.data@[i] is None,
    {
        let mut data: Vec<Option<Atom3D>> = Vec::new();
        for i in 0..capacity
            invariant
                data@.len() == i,
                forall|j: int| 0 <= j < i ==> data@[j] is None,
        {
            data.push(None);
        }
        SparseAtomList { data }
    }

    /// A list with one present atom per entry of `atoms`, in order.
    pub fn from_atoms(atoms: Vec<Atom3D>) -> (r: Self)
        ensures
            r.data@.len() == atoms@.len(),
            forall|i: int| 0 <= i < atoms@.len() ==> r.data@[i] == Some(atoms@[i]),
    {
        let n = atoms.len();
        let mut data: Vec<Option<Atom3D>> = Vec::new();
        for i in 0..n
            invariant
                n == atoms@.len(),
                data@.len() == i,
                forall|j: int| 0 <= j < i ==> data@[j] == Some(atoms@[j]),
        {
            data.push(Some(atoms[i]));
        }
        SparseAtomList { data }
    }

    /// A list that owns the given slots.
    pub fn from_slots(slots: Vec<Option<Atom3D>>) -> (r: Self)
        ensures
            r.data@ == slots@,
    {
        SparseAtomList { data: slots }
    }

    /// The number of slots.
    pub fn len(&self) -> (r: usize)
        ensures
            r == self.data@.len(),
    {
        self.data.len()
    }

    /// An equal copy of the list.
    pub fn duplicated(&self) -> (r: Self)
        ensures
            r.data@ =~= self.data@,
    {
        let mut out: Vec<Option<Atom3D>> = Vec::new();
        let n = self.data.len();
        for i in 0..n
            invariant
                n == self.data@.len(),
                out@ =~= self.data@.subrange(0, i as int),
        {
            out.push(self.data[i]);
            assert(out@ =~= self.data@.subrange(0, i + 1));
        }
        SparseAtomList { data: out }
    }

    /// The atom at slot `index`: `None` for a gap or an index out of
    /// range.
    pub fn read_atom(&self, index: usize) -> (r: Option<Atom3D>)
        ensures
            r == atom_at(self.data@, index as int),
    {
        if index < self.data.len() {
            self.data[index]
        } else {
            None
        }
    }

    /// Grows the list with empty slots until it holds at least
    /// `capacity`; never shrinks it.
    pub fn extend_to(&mut self, capacity: usize)
        ensures
            final(self).data@.len() == max_usize(old(self).data@.len() as int, capacity as int),
            forall|i: int|
                0 <= i < old(self).data@.len() ==> final(self).data@[i] == old(self).data@[i],
            forall|i: int|
                old(self).data@.len() <= i < final(self).data@.len() ==> final(self).data@[i]
                    is None,
    {
        while self.data.len() < capacity
            invariant
                self.data@.len() >= old(self).data@.len(),
                self.data@.len() <= max_usize(old(self).data@.len() as int, capacity as int),
                forall|i: int|
                    0 <= i < old(self).data@.len() ==> self.data@[i] == old(self).data@[i],
                forall|i: int|
                    old(self).data@.len() <= i < self.data@.len() ==> self.data@[i] is None,
            decreases capacity - self.data@.len(),
        {
            self.data.push(None);
        }
    }

    /// The list shifted up by `offset`: that many fresh empty slots in
    /// front, every existing slot moved up accordingly.
    pub fn offset(self, offset: usize) -> (r: Self)
        requires
            self.data@.len() + offset <= usize::MAX,
        ensures
            r.data@.len() == self.data@.len() + offset,
            forall|i: int| 0 <= i < offset ==> r.data@[i] is None,
            forall|i: int|
                offset <= i < r.data@.len() ==> r.data@[i] == self.data@[i - offset],
    {
        let mut data: Vec<Option<Atom3D>> = Vec::new();
        for i in 0..offset
            invariant
                data@.len() == i,
                forall|j: int| 0 <= j < i ==> data@[j] is None,
        {
            data.push(None);
        }
        let n = self.data.len();
        for i in 0..n
            invariant
                n == self.data@.len(),
                data@.len() == offset + i,
                forall|j: int| 0 <= j < offset ==> data@[j] is None,
                forall|j: int| offset <= j < offset + i ==> data@[j] == self.data@[j - offset],
        {
            data.push(self.data[i]);
        }
        SparseAtomList { data }
    }

    /// Writes the given slots starting at `offset`, growing the list as
    /// needed; slots outside the written window keep their atoms.
    pub fn set_atoms(&mut self, offset: usize, atoms: Vec<Option<Atom3D>>)
        requires
            offset + atoms@.len() <= usize::MAX,
        ensures
            final(self).data@.len() == max_usize(
                old(self).data@.len() as int,
                offset + atoms@.len(),
            ),
            forall|i: int|
                offset <= i < offset + atoms@.len() ==> final(self).data@[i] == atoms@[i
                    - offset],
            forall|i: int|
                0 <= i < final(self).data@.len() && !(offset <= i < offset + atoms@.len())
                    ==> final(self).data@[i] == atom_at(old(self).data@, i),
    {
        self.extend_to(offset + atoms.len());
        let n = atoms.len();
        for k in 0..n
            invariant
                n == atoms@.len(),
                offset + n <= usize::MAX,
                self.data@.len() == max_usize(old(self).data@.len() as int, offset + atoms@.len()),
                offset + atoms@.len() <= self.data@.len(),
                forall|i: int| offset <= i < offset + k ==> self.data@[i] == atoms@[i - offset],
                forall|i: int|
                    0 <= i < self.data@.len() && !(offset <= i < offset + k) ==> self.data@[i]
                        == atom_at(old(self).data@, i),
        {
            self.data.set(offset + k, atoms[k]);
        }
    }

    /// Lays `other` over this list: wherever `other` has a present atom
    /// it wins, elsewhere the existing atom stays; the list grows to the
    /// longer of the two.
    pub fn migrate(&mut self, other: &Self)
        ensures
            final(self).data@.len() == max_usize(old(self).data@.len() as int, other.data@.len() as int),
            forall|i: int|
                0 <= i < final(self).data@.len() ==> final(self).data@[i] == merged_atom(
                    atom_at(old(self).data@, i),
                    atom_at(other.data@, i),
                ),
    {
        self.extend_to(other.data.len());
        let n = other.data.len();
        for k in 0..n
            invariant
                n == other.data@.len(),
                self.data@.len() == max_usize(old(self).data@.len() as int, other.data@.len() as int),
                n <= self.data@.len(),
                forall|i: int|
                    0 <= i < k ==> self.data@[i] == merged_atom(
                        atom_at(old(self).data@, i),
                        atom_at(other.data@, i),
                    ),
                forall|i: int|
                    k <= i < self.data@.len() ==> self.data@[i] == atom_at(old(self).data@, i),
        {
            match other.data[k] {
                Some(atom) => self.data.set(k, Some(atom)),
                None => (),
            }
        }
    }

    /// The continuous index of slot `index`: how many valid atoms sit
    /// before it, provided the slot itself holds a valid atom.
    pub fn to_continous_index(&self, index: usize) -> (r: Option<usize>)
        ensures
            r == if slot_is_valid(self.data@, index as int) {
                Some(count_valid(self.data@, index as int) as usize)
            } else {
                None::<usize>
            },
    {
        let valid_here = match self.read_atom(index) {
            Some(atom) => validated_element_num(atom.element),
            None => false,
        };
        if !valid_here {
            return None;
        }
        let mut count: usize = 0;
        for i in 0..index
            invariant
                index < self.data@.len(),
                count == count_valid(self.data@, i as int),
                count <= i,
        {
            let v = match self.read_atom(i) {
                Some(atom) => validated_element_num(atom.element),
                None => false,
            };
            if v {
                count = count + 1;
            }
        }
        Some(count)
    }

    /// The sparse index of the `index`-th valid atom, if that many exist.
    pub fn from_countious_index(&self, index: usize) -> (r: Option<usize>)
        ensures
            match r {
                Some(j) => slot_is_valid(self.data@, j as int) && count_valid(self.data@, j as int)
                    == index,
                None => count_valid(self.data@, self.data@.len() as int) <= index,
            },
    {
        let n = self.data.len();
        let mut count: usize = 0;
        for i in 0..n
            invariant
                n == self.data@.len(),
                count == count_valid(self.data@, i as int),
                count <= i,
                count <= index,
        {
            let v = match self.read_atom(i) {
                Some(atom) => validated_element_num(atom.element),
                None => false,
            };
            if v {
                if count == index {
                    return Some(i);
                }
                count = count + 1;
            }
        }
        None
    }


    /// Writes a dense list of atoms back over the valid slots, in
    /// order: the inverse direction of `continuous_atoms`, used when an
    /// external tool returns updated coordinates.  `None` when the list
    /// holds fewer atoms than there are valid slots; leftover entries
    /// are ignored.
    pub fn update_from_continous_list(&self, list: &Vec<Atom3D>) -> (r: Option<SparseAtomList>)
        ensures
            (r is None) == (count_valid(self.data@, self.data@.len() as int) > list@.len()),
            match r {
                Some(out) => {
                    &&& out.data@.len() == self.data@.len()
                    &&& forall|i: int|
                        0 <= i < self.data@.len() ==> out.data@[i] == if slot_is_valid(
                            self.data@,
                            i,
                        ) {
                            Some(list@[count_valid(self.data@, i)])
                        } else {
                            self.data@[i]
                        }
                },
                None => true,
            },
    {
        let n = self.data.len();
        let mut out: Vec<Option<Atom3D>> = Vec::new();
        let mut used: usize = 0;
        for i in 0..n
            invariant
                n == self.data@.len(),
                out@.len() == i,
                used == count_valid(self.data@, i as int),
                used <= list@.len(),
                forall|j: int|
                    0 <= j < i ==> out@[j] == if slot_is_valid(self.data@, j) {
                        Some(list@[count_valid(self.data@, j)])
                    } else {
                        self.data@[j]
                    },
        {
            let valid = match self.data[i] {
                Some(a) => validated_element_num(a.element),
                None => false,
            };
            if valid {
                if used >= list.len() {
                    proof {
                        lemma_count_valid_step(self.data@, i as int, self.data@.len() as int);
                    }
                    return None;
                }
                out.push(Some(list[used]));
                used = used + 1;
            } else {
                out.push(self.data[i]);
            }
        }
        proof {
            lemma_count_valid_nonneg(self.data@, n as int);
        }
        Some(SparseAtomList { data: out })
    }

    /// The valid atoms in order: the dense form that external formats
    /// consume, with slot `i` landing at its continuous index.
    pub fn continuous_atoms(&self) -> (r: Vec<Atom3D>)
        ensures
            r@.len() == count_valid(self.data@, self.data@.len() as int),
            forall|i: int|
                0 <= i < self.data@.len() && slot_is_valid(self.data@, i) ==> r@[count_valid(
                    self.data@,
                    i,
                )] == atom_at(self.data@, i)->0,
    {
        let n = self.data.len();
        let mut out: Vec<Atom3D> = Vec::new();
        for i in 0..n
            invariant
                n == self.data@.len(),
                out@.len() == count_valid(self.data@, i as int),
                forall|j: int|
                    0 <= j < i && slot_is_valid(self.data@, j) ==> out@[count_valid(
                        self.data@,
                        j,
                    )] == atom_at(self.data@, j)->0,
        {
            match self.data[i] {
                Some(a) => {
                    if validated_element_num(a.element) {
                        out.push(a);
                    }
                },
                None => (),
            }
            proof {
                assert forall|j: int|
                    0 <= j < i + 1 && slot_is_valid(self.data@, j) implies out@[count_valid(
                    self.data@,
                    j,
                )] == atom_at(self.data@, j)->0 by {
                    lemma_count_valid_nonneg(self.data@, j);
                    if j < i {
                        lemma_count_valid_step(self.data@, j, i as int);
                    }
                }
            }
        }
        out
    }
}

/// The larger of a sequence length and a requested capacity.
pub open spec fn max_usize(a: int, b: int) -> int {
    if a >= b {
        a
    } else {
        b
    }
}

/// The bond order recorded between `a` and `b`: `None` outside the
/// matrix or where no bond is recorded.
pub open spec fn bond_at(m: Seq<Seq<Option<u64>>>, a: int, b: int) -> Option<u64> {
    if 0 <= a < m.len() && 0 <= b < m[a].len() {
        m[a][b]
    } else {
        None
    }
}

/// Every row is as long as the matrix is tall.
pub open spec fn matrix_square(m: Seq<Seq<Option<u64>>>) -> bool {
    forall|i: int| 0 <= i < m.len() ==> (#[trigger] m[i]).len() == m.len()
}

/// Reading `(a, b)` and `(b, a)` always agrees.
pub open spec fn matrix_symmetric(m: Seq<Seq<Option<u64>>>) -> bool {
    forall|a: int, b: int| #[trigger] bond_at(m, a, b) == bond_at(m, b, a)
}

/// The bond that `(a, b)` records after laying `over` on top of `base`:
/// the incoming record wherever present, else the existing one.
pub open spec fn merged_bond(base: Option<u64>, over: Option<u64>) -> Option<u64> {
    if over is Some {
        over
    } else {
        base
    }
}

/// Whether `(x, y)` is an upper-triangle pair of valid atoms carrying
/// bond `t.2`, whose continuous indices are `t.0` and `t.1`.
pub open spec fn triple_at(
    m: &SparseBondMatrix,
    atom_list: &SparseAtomList,
    x: int,
    y: int,
    t: (usize, usize, u64),
) -> bool {
    &&& 0 <= x <= y
    &&& slot_is_valid(atom_list.data@, x)
    &&& slot_is_valid(atom_list.data@, y)
    &&& m.spec_bond(x, y) == Some(t.2)
    &&& t.0 == count_valid(atom_list.data@, x)
    &&& t.1 == count_valid(atom_list.data@, y)
}

/// Strict lexicographic order on continuous bond triples: first by the
/// first endpoint, then by the second.
pub open spec fn triple_lt(a: (usize, usize, u64), b: (usize, usize, u64)) -> bool {
    a.0 < b.0 || (a.0 == b.0 && a.1 < b.1)
}

/// Strictly ascending by `triple_lt`: ordered and duplicate-free.
pub open spec fn triples_sorted(s: Seq<(usize, usize, u64)>) -> bool {
    forall|i: int, j: int| 0 <= i < j < s.len() ==> triple_lt(#[trigger] s[i], #[trigger] s[j])
}

/// A symmetric square matrix of optional bond orders (held as bit
/// patterns); it grows on demand to hold the indices it is asked about.
#[derive(Debug)]
pub struct SparseBondMatrix {
    pub data: Vec<Vec<Option<u64>>>,
}

impl SparseBondMatrix {
    /// Well-formed: square and symmetric.
    pub open spec fn wf(&self) -> bool {
        matrix_square(self.view_rows()) && matrix_symmetric(self.view_rows())
    }

    /// The matrix as a sequence of row sequences.
    pub open spec fn view_rows(&self) -> Seq<Seq<Option<u64>>> {
        self.data@.map_values(|r: Vec<Option<u64>>| r@)
    }

    /// The recorded bond between `a` and `b`.
    pub open spec fn spec_bond(&self, a: int, b: int) -> Option<u64> {
        bond_at(self.view_rows(), a, b)
    }

    /// An empty square matrix of the given size.
    pub fn new(capacity: usize) -> (r: Self)
        ensures
            r.view_rows().len() == capacity,
            r.wf(),
            forall|a: int, b: int| r.spec_bond(a, b) is None,
    {
        let mut data: Vec<Vec<Option<u64>>> = Vec::new();
        for i in 0..capacity
            invariant
                data@.len() == i,
                forall|j: int|
                    0 <= j < i ==> (#[trigger] data@[j])@.len() == capacity && forall|k: int|
                        0 <= k < capacity ==> data@[j]@[k] is None,
        {
            let mut row: Vec<Option<u64>> = Vec::new();
            for k in 0..capacity
                invariant
                    row@.len() == k,
                    forall|t: int| 0 <= t < k ==> row@[t] is None,
            {
                row.push(None);
            }
            data.push(row);
        }
        SparseBondMatrix { data }
    }

    /// A square matrix of the given size with every bond recorded as the
    /// zero order.
    pub fn new_filled(capacity: usize) -> (r: Self)
        ensures
            r.view_rows().len() == capacity,
            r.wf(),
            forall|a: int, b: int|
                0 <= a < capacity && 0 <= b < capacity ==> r.spec_bond(a, b) == Some(
                    crate::geom::ZERO_BITS,
                ),
    {
        let mut data: Vec<Vec<Option<u64>>> = Vec::new();
        for i in 0..capacity
            invariant
                data@.len() == i,
                forall|j: int|
                    0 <= j < i ==> (#[trigger] data@[j])@.len() == capacity && forall|k: int|
                        0 <= k < capacity ==> data@[j]@[k] == Some(crate::geom::ZERO_BITS),
        {
            let mut row: Vec<Option<u64>> = Vec::new();
            for k in 0..capacity
                invariant
                    row@.len() == k,
                    forall|t: int| 0 <= t < k ==> row@[t] == Some(crate::geom::ZERO_BITS),
            {
                row.push(Some(crate::geom::ZERO_BITS));
            }
            data.push(row);
        }
        SparseBondMatrix { data }
    }

    /// The matrix size.
    pub fn len(&self) -> (r: usize)
        ensures
            r == self.view_rows().len(),
    {
        self.data.len()
    }

    /// An equal copy of the matrix.
    pub fn duplicated(&self) -> (r: Self)
        ensures
            r.view_rows() =~~= self.view_rows(),
    {
        let mut data: Vec<Vec<Option<u64>>> = Vec::new();
        let n = self.data.len();
        for i in 0..n
            invariant
                n == self.data@.len(),
                data@.len() == i,
                forall|j: int| 0 <= j < i ==> (#[trigger] data@[j])@ == self.view_rows()[j],
        {
            let m = self.data[i].len();
            let mut row: Vec<Option<u64>> = Vec::new();
            for k in 0..m
                invariant
                    i < n == self.data@.len(),
                    m == self.view_rows()[i as int].len(),
                    row@ =~= self.view_rows()[i as int].subrange(0, k as int),
            {
                row.push(self.data[i][k]);
                assert(row@ =~= self.view_rows()[i as int].subrange(0, k + 1));
            }
            assert(row@ =~= self.view_rows()[i as int]);
            data.push(row);
        }
        SparseBondMatrix { data }
    }

    /// The recorded bond between `a` and `b`, `None` outside the matrix.
    pub fn read_bond(&self, a: usize, b: usize) -> (r: Option<u64>)
        ensures
            r == self.spec_bond(a as int, b as int),
    {
        if a < self.data.len() {
            if b < self.data[a].len() {
                return self.data[a][b];
            }
        }
        None
    }

    /// Grows the matrix to at least `capacity` on both sides, padding
    /// with unrecorded bonds; every recorded bond is preserved.
    pub fn extend_to(&mut self, capacity: usize)
        requires
            old(self).wf(),
        ensures
            final(self).wf(),
            final(self).view_rows().len() == max_usize(
                old(self).view_rows().len() as int,
                capacity as int,
            ),
            forall|a: int, b: int| #[trigger]
                final(self).spec_bond(a, b) == old(self).spec_bond(a, b),
    {
        if self.data.len() >= capacity {
            return ;
        }
        let mut out: Vec<Vec<Option<u64>>> = Vec::new();
        for i in 0..capacity
            invariant
                old(self).wf(),
                *self == *old(self),
                self.view_rows().len() < capacity,
                out@.len() == i,
                forall|j: int|
                    0 <= j < i ==> (#[trigger] out@[j])@.len() == capacity,
                forall|j: int, k: int|
                    0 <= j < i && 0 <= k < capacity ==> #[trigger] (out@[j])@[k]
                        == self.spec_bond(j, k),
        {
            let mut row: Vec<Option<u64>> = Vec::new();
            for k in 0..capacity
                invariant
                    i < capacity,
                    *self == *old(self),
                    row@.len() == k,
                    forall|t: int| 0 <= t < k ==> row@[t] == self.spec_bond(i as int, t),
            {
                row.push(self.read_bond(i, k));
            }
            out.push(row);
        }
        let ghost prior = self.view_rows();
        self.data = out;
        proof {
            let fin = self.view_rows();
            assert(fin.len() == capacity);
            assert forall|a: int, b: int| #[trigger] bond_at(fin, a, b) == bond_at(
                prior,
                a,
                b,
            ) by {
                if 0 <= a < capacity && 0 <= b < capacity {
                    assert(fin[a][b] == bond_at(prior, a, b));
                } else {
                    if 0 <= a < prior.len() {
                        assert(prior[a].len() == prior.len());
                    }
                }
            }
            assert(matrix_square(fin));
            assert forall|a: int, b: int| #[trigger] bond_at(fin, a, b) == bond_at(fin, b, a) by {
                assert(bond_at(fin, a, b) == bond_at(prior, a, b));
                assert(bond_at(fin, b, a) == bond_at(prior, b, a));
                assert(bond_at(prior, a, b) == bond_at(prior, b, a));
            }
        }
    }

    /// Records `bond` symmetrically between `a` and `b`, growing the
    /// matrix to hold both indices.
    pub fn set_bond(&mut self, a: usize, b: usize, bond: Option<u64>)
        requires
            old(self).wf(),
            a < usize::MAX,
            b < usize::MAX,
        ensures
            final(self).wf(),
            final(self).view_rows().len() == max_usize(
                old(self).view_rows().len() as int,
                max_usize(a as int, b as int) + 1,
            ),
            final(self).spec_bond(a as int, b as int) == bond,
            final(self).spec_bond(b as int, a as int) == bond,
            forall|x: int, y: int|
                !((x, y) == (a as int, b as int) || (x, y) == (b as int, a as int))
                    ==> #[trigger] final(self).spec_bond(x, y) == old(self).spec_bond(x, y),
    {
        let cap = if a > b {
            a + 1
        } else {
            b + 1
        };
        self.extend_to(cap);
        let ghost snap = *self;
        let ghost mid = self.view_rows();
        proof {
            assert(mid.len() >= cap);
            assert(mid[a as int].len() == mid.len());
            assert(mid[b as int].len() == mid.len());
            assert(self.data@[a as int]@ == mid[a as int]);
            assert(self.data@[b as int]@ == mid[b as int]);
        }
        self.data[a].set(b, bond);
        let ghost mid2 = self.view_rows();
        proof {
            assert(mid2[a as int] =~= mid[a as int].update(b as int, bond));
            assert(forall|j: int| 0 <= j < mid.len() && j != a ==> #[trigger] mid2[j] == mid[j]);
        }
        proof {
            assert(self.data@[b as int]@ == mid2[b as int]);
            assert(mid2[b as int].len() == mid.len());
        }
        self.data[b].set(a, bond);
        proof {
            let fin = self.view_rows();
            assert(fin[b as int] =~= mid2[b as int].update(a as int, bond));
            assert(forall|j: int| 0 <= j < mid2.len() && j != b ==> #[trigger] fin[j] == mid2[j]);
            assert(matrix_square(fin));
            assert forall|x: int, y: int|
                !((x, y) == (a as int, b as int) || (x, y) == (b as int, a as int)) implies
                #[trigger] bond_at(fin, x, y) == old(self).spec_bond(x, y) by {
                assert(bond_at(fin, x, y) == bond_at(mid, x, y));
                assert(snap.spec_bond(x, y) == old(self).spec_bond(x, y));
            }
            assert(bond_at(fin, a as int, b as int) == bond);
            assert(bond_at(fin, b as int, a as int) == bond);
            assert forall|x: int, y: int| #[trigger] bond_at(fin, x, y) == bond_at(fin, y, x) by {
                if !((x, y) == (a as int, b as int) || (x, y) == (b as int, a as int)) {
                    assert(bond_at(fin, x, y) == bond_at(mid, x, y));
                    assert(bond_at(fin, y, x) == bond_at(mid, y, x));
                    assert(snap.spec_bond(x, y) == old(self).spec_bond(x, y));
                    assert(snap.spec_bond(y, x) == old(self).spec_bond(y, x));
                    assert(bond_at(mid, x, y) == bond_at(mid, y, x));
                }
            }
        }
    }


    /// The recorded bonds between valid atoms, in continuous-index form:
    /// one `(continuous a, continuous b, order)` triple per recorded
    /// upper-triangle entry whose two endpoints are valid atoms, in
    /// strictly ascending endpoint order (hence free of duplicates).
    pub fn to_continous_list(&self, atom_list: &SparseAtomList) -> (r: Vec<(usize, usize, u64)>)
        requires
            self.wf(),
        ensures
            forall|t: (usize, usize, u64)| #[trigger]
                r@.contains(t) <==> exists|x: int, y: int| triple_at(self, atom_list, x, y, t),
            triples_sorted(r@),
            r@.no_duplicates(),
    {
        let n = self.len();
        let mut out: Vec<(usize, usize, u64)> = Vec::new();
        let mut row: usize = 0;
        while row < n
            invariant
                n == self.view_rows().len(),
                self.wf(),
                row <= n,
                forall|t: (usize, usize, u64)| #[trigger]
                    out@.contains(t) <==> exists|x: int, y: int|
                        triple_at(self, atom_list, x, y, t) && x < row,
                triples_sorted(out@),
                forall|k: int|
                    0 <= k < out@.len() ==> (#[trigger] out@[k]).0 < count_valid(
                        atom_list.data@,
                        row as int,
                    ),
            decreases n - row,
        {
            let mut col: usize = row;
            while col < n
                invariant
                    n == self.view_rows().len(),
                    self.wf(),
                    row < n,
                    row <= col <= n,
                    forall|t: (usize, usize, u64)| #[trigger]
                        out@.contains(t) <==> exists|x: int, y: int|
                            triple_at(self, atom_list, x, y, t) && (x < row || (x == row && y
                                < col)),
                    triples_sorted(out@),
                    forall|k: int|
                        0 <= k < out@.len() ==> (#[trigger] out@[k]).0 < count_valid(
                            atom_list.data@,
                            row as int,
                        ) || (slot_is_valid(atom_list.data@, row as int) && out@[k].0
                            == count_valid(atom_list.data@, row as int) && out@[k].1
                            < count_valid(atom_list.data@, col as int)),
                decreases n - col,
            {
                let ghost prev = out@;
                let ca = atom_list.to_continous_index(row);
                let cb = atom_list.to_continous_index(col);
                let bd = self.read_bond(row, col);
                match (ca, cb, bd) {
                    (Some(a), Some(b), Some(order)) => {
                        let ghost before = out@;
                        out.push((a, b, order));
                        proof {
                            lemma_count_valid_nonneg(atom_list.data@, row as int);
                            lemma_count_valid_nonneg(atom_list.data@, col as int);
                            assert(triple_at(
                                self,
                                atom_list,
                                row as int,
                                col as int,
                                (a, b, order),
                            ));
                            assert forall|i: int, j: int|
                                0 <= i < j < out@.len() implies triple_lt(
                                #[trigger] out@[i],
                                #[trigger] out@[j],
                            ) by {
                                if j == before.len() {
                                    assert(out@[j] == (a, b, order));
                                    assert(out@[i] == before[i]);
                                }
                            }
                        }
                    },
                    _ => (),
                }
                proof {
                    assert forall|t: (usize, usize, u64)| #[trigger] out@.contains(t) implies
                        exists|x: int, y: int|
                        triple_at(self, atom_list, x, y, t) && (x < row || (x == row && y < col
                            + 1)) by {
                        if prev.contains(t) {
                            let (x, y) = choose|x: int, y: int|
                                #[trigger] triple_at(self, atom_list, x, y, t) && (x < row || (x
                                    == row && y < col));
                            assert(triple_at(self, atom_list, x, y, t) && (x < row || (x == row
                                && y < col + 1)));
                        } else {
                            assert(t == out@[out@.len() - 1]);
                            assert(triple_at(self, atom_list, row as int, col as int, t));
                        }
                    }
                    assert forall|t: (usize, usize, u64), x: int, y: int|
                        #[trigger] triple_at(self, atom_list, x, y, t) && (x < row || (x == row
                            && y < col + 1)) implies out@.contains(t) by {
                        if x < row || (x == row && y < col) {
                            assert(prev.contains(t));
                        } else {
                            assert(x == row && y == col);
                            lemma_count_valid_nonneg(atom_list.data@, x);
                            lemma_count_valid_nonneg(atom_list.data@, y);
                            assert(ca == Some(count_valid(atom_list.data@, x) as usize));
                            assert(cb == Some(count_valid(atom_list.data@, y) as usize));
                            assert(bd == Some(t.2));
                            assert(out@[out@.len() - 1] == t);
                        }
                    }
                }
                proof {
                    lemma_count_valid_step(atom_list.data@, col as int, col + 1);
                }
                col = col + 1;
            }
            proof {
                assert forall|t: (usize, usize, u64), x: int, y: int|
                    #[trigger] triple_at(self, atom_list, x, y, t) && x < row + 1 implies
                    out@.contains(t) by {
                    if x == row {
                        if y >= n {
                            assert(self.view_rows()[x].len() == n);
                            assert(self.spec_bond(x, y) is None);
                        }
                    }
                }
                lemma_count_valid_step(atom_list.data@, row as int, row + 1);
            }
            row = row + 1;
        }
        proof {
            assert forall|t: (usize, usize, u64), x: int, y: int|
                #[trigger] triple_at(self, atom_list, x, y, t) implies out@.contains(t) by {
                if x >= n {
                    assert(self.spec_bond(x, y) is None);
                }
            }
            assert forall|i: int, j: int|
                0 <= i < j < out@.len() implies out@[i] != out@[j] by {
                assert(triple_lt(out@[i], out@[j]));
            }
        }
        out
    }

    /// Lays `other` over this matrix: wherever `other` records a bond it
    /// wins, elsewhere the existing record stays; the matrix grows to the
    /// larger of the two.
    pub fn migrate(&mut self, other: &Self)
        requires
            old(self).wf(),
            other.wf(),
            other.view_rows().len() < usize::MAX,
        ensures
            final(self).wf(),
            final(self).view_rows().len() == max_usize(
                old(self).view_rows().len() as int,
                other.view_rows().len() as int,
            ),
            forall|x: int, y: int| #[trigger]
                final(self).spec_bond(x, y) == merged_bond(
                    old(self).spec_bond(x, y),
                    other.spec_bond(x, y),
                ),
    {
        let n = other.len();
        self.extend_to(n);
        let mut row: usize = 0;
        while row < n
            invariant
                old(self).wf(),
                other.wf(),
                self.wf(),
                n == other.view_rows().len(),
                n < usize::MAX,
                row <= n,
                self.view_rows().len() == max_usize(
                    old(self).view_rows().len() as int,
                    other.view_rows().len() as int,
                ),
                forall|x: int, y: int| #[trigger]
                    self.spec_bond(x, y) == if (0 <= x < row || 0 <= y < row) && 0 <= x < n && 0
                        <= y < n {
                        merged_bond(old(self).spec_bond(x, y), other.spec_bond(x, y))
                    } else {
                        old(self).spec_bond(x, y)
                    },
            decreases n - row,
        {
            let mut col: usize = row;
            while col < n
                invariant
                    old(self).wf(),
                    other.wf(),
                    self.wf(),
                    n == other.view_rows().len(),
                    n < usize::MAX,
                    row < n,
                    row <= col <= n,
                    self.view_rows().len() == max_usize(
                        old(self).view_rows().len() as int,
                        other.view_rows().len() as int,
                    ),
                    forall|x: int, y: int| #[trigger]
                        self.spec_bond(x, y) == if ((0 <= x < row || 0 <= y < row) || (x == row
                            && row <= y < col) || (y == row && row <= x < col)) && 0 <= x < n && 0
                            <= y < n {
                            merged_bond(old(self).spec_bond(x, y), other.spec_bond(x, y))
                        } else {
                            old(self).spec_bond(x, y)
                        },
                decreases n - col,
            {
                let incoming = other.read_bond(row, col);
                let bond = match incoming {
                    Some(v) => Some(v),
                    None => self.read_bond(row, col),
                };
                self.set_bond(row, col, bond);
                col = col + 1;
            }
            row = row + 1;
        }
    }

    /// The matrix shifted up by `off` on both sides: bonds between the
    /// fresh low indices are unrecorded, every existing bond moves up.
    pub fn offset(self, off: usize) -> (r: Self)
        requires
            self.wf(),
            self.view_rows().len() + off <= usize::MAX,
        ensures
            r.wf(),
            r.view_rows().len() == self.view_rows().len() + off,
            forall|x: int, y: int| #[trigger]
                r.spec_bond(x, y) == if x >= off && y >= off {
                    self.spec_bond(x - off, y - off)
                } else {
                    None::<u64>
                },
    {
        let total = self.data.len() + off;
        let mut out: Vec<Vec<Option<u64>>> = Vec::new();
        for i in 0..total
            invariant
                self.wf(),
                total == self.view_rows().len() + off,
                out@.len() == i,
                forall|j: int| 0 <= j < i ==> (#[trigger] out@[j])@.len() == total,
                forall|j: int, k: int|
                    0 <= j < i && 0 <= k < total ==> #[trigger] (out@[j])@[k] == if j >= off && k
                        >= off {
                        self.spec_bond(j - off, k - off)
                    } else {
                        None::<u64>
                    },
        {
            let mut row: Vec<Option<u64>> = Vec::new();
            for k in 0..total
                invariant
                    self.wf(),
                    i < total == self.view_rows().len() + off,
                    row@.len() == k,
                    forall|t: int|
                        0 <= t < k ==> #[trigger] row@[t] == if i >= off && t >= off {
                            self.spec_bond(i as int - off, t - off)
                        } else {
                            None::<u64>
                        },
            {
                let v = if i >= off && k >= off {
                    self.read_bond(i - off, k - off)
                } else {
                    None
                };
                row.push(v);
            }
            out.push(row);
        }
        let r = SparseBondMatrix { data: out };
        proof {
            let fin = r.view_rows();
            assert(matrix_square(fin));
            assert forall|x: int, y: int| #[trigger] bond_at(fin, x, y) == (if x >= off && y
                >= off {
                self.spec_bond(x - off, y - off)
            } else {
                None::<u64>
            }) by {
                if 0 <= x < fin.len() && 0 <= y < fin.len() {
                } else {
                    if x >= off && y >= off && 0 <= x - off < self.view_rows().len() {
                        assert(self.view_rows()[x - off].len() == self.view_rows().len());
                    }
                }
            }
            assert forall|x: int, y: int| #[trigger] bond_at(fin, x, y) == bond_at(fin, y, x) by {
                if x >= off && y >= off {
                    assert(self.spec_bond(x - off, y - off) == self.spec_bond(y - off, x - off));
                }
            }
        }
        r
    }
}

/// The sparse molecule: the accumulator threaded through layer
/// application.
#[derive(Debug)]
pub struct SparseMolecule {
    pub title: String,
    pub atoms: SparseAtomList,
    pub bonds: SparseBondMatrix,
    pub ids: NameIndex,
    pub groups: GroupName,
}

/// The conjunction of everything `migrate` promises: `to` is `from` with
/// `data` laid over it.  Atoms and bonds take the incoming value wherever
/// it is present; names are merged with the incoming binding winning;
/// groups are united; the incoming title replaces the old one.
pub open spec fn migrated(from: SparseMolecule, data: SparseMolecule, to: SparseMolecule) -> bool {
    &&& to.title@ == data.title@
    &&& to.atoms.data@.len() == max_usize(from.atoms.data@.len() as int, data.atoms.data@.len() as int)
    &&& forall|i: int|
        0 <= i < to.atoms.data@.len() ==> to.atoms.data@[i] == merged_atom(
            atom_at(from.atoms.data@, i),
            atom_at(data.atoms.data@, i),
        )
    &&& to.bonds.view_rows().len() == max_usize(
        from.bonds.view_rows().len() as int,
        data.bonds.view_rows().len() as int,
    )
    &&& forall|x: int, y: int| #[trigger]
        to.bonds.spec_bond(x, y) == merged_bond(
            from.bonds.spec_bond(x, y),
            data.bonds.spec_bond(x, y),
        )
    &&& forall|k: Seq<char>, v: usize| #[trigger]
        to.ids.has(k, v) <==> (data.ids.has(k, v) || (from.ids.has(k, v) && !data.ids.has_key(k)))
    &&& forall|k: Seq<char>| #[trigger] to.ids.has_key(k) <==> (data.ids.has_key(k) || from.ids.has_key(k))
    &&& forall|l: Seq<char>, x: usize| #[trigger]
        to.groups.has(l, x) <==> (from.groups.has(l, x) || data.groups.has(l, x))
}

impl SparseMolecule {
    /// Well-formed: the bond matrix is square and symmetric, names are
    /// unique, groups hold no duplicate pair.
    pub open spec fn wf(&self) -> bool {
        self.bonds.wf() && self.ids.wf() && self.groups.wf()
    }

    /// An empty molecule: no slots, no bonds, no names, no groups, an
    /// empty title.
    pub fn new_empty() -> (r: Self)
        ensures
            r.wf(),
            r.title@ == Seq::<char>::empty(),
            r.atoms.data@.len() == 0,
            r.bonds.view_rows().len() == 0,
            r.ids.entries().len() == 0,
            r.groups.pairs().len() == 0,
    {
        SparseMolecule {
            title: String::new(),
            atoms: SparseAtomList::new(0),
            bonds: SparseBondMatrix::new(0),
            ids: NameIndex::new(),
            groups: GroupName::new(),
        }
    }

    /// The number of atom slots.
    pub fn len(&self) -> (r: usize)
        ensures
            r == self.atoms.data@.len(),
    {
        self.atoms.len()
    }

    /// An equal copy of the molecule.
    pub fn duplicated(&self) -> (r: Self)
        ensures
            r.title@ == self.title@,
            r.atoms.data@ =~= self.atoms.data@,
            r.bonds.view_rows() =~~= self.bonds.view_rows(),
            r.ids.data@ =~= self.ids.data@,
            r.groups.rel.data@ =~= self.groups.rel.data@,
    {
        SparseMolecule {
            title: self.title.clone(),
            atoms: self.atoms.duplicated(),
            bonds: self.bonds.duplicated(),
            ids: self.ids.duplicated(),
            groups: self.groups.duplicated(),
        }
    }

    /// Lays `other` over this molecule: incoming atoms, bonds and name
    /// bindings win wherever present, groups are united, the incoming
    /// title replaces the old one.
    pub fn migrate(&mut self, other: &Self)
        requires
            old(self).wf(),
            other.wf(),
            other.bonds.view_rows().len() < usize::MAX,
        ensures
            final(self).wf(),
            migrated(*old(self), *other, *final(self)),
    {
        self.title = other.title.clone();
        self.atoms.migrate(&other.atoms);
        self.bonds.migrate(&other.bonds);
        self.ids.extend(&other.ids);
        self.groups.extend(other.groups.data());
    }

    /// The molecule shifted up by `offset`: every atom slot, bond index,
    /// name binding and group member moves up by that much.
    pub fn offset(self, offset: usize) -> (r: Self)
        requires
            self.wf(),
            self.atoms.data@.len() + offset <= usize::MAX,
            self.bonds.view_rows().len() + offset <= usize::MAX,
            forall|i: int|
                0 <= i < self.ids.entries().len() ==> (#[trigger] self.ids.entries()[i]).1
                    + offset <= usize::MAX,
            forall|i: int|
                0 <= i < self.groups.pairs().len() ==> (#[trigger] self.groups.pairs()[i]).1
                    + offset <= usize::MAX,
        ensures
            r.wf(),
            r.title@ == self.title@,
            r.atoms.data@.len() == self.atoms.data@.len() + offset,
            forall|i: int| 0 <= i < offset ==> r.atoms.data@[i] is None,
            forall|i: int|
                offset <= i < r.atoms.data@.len() ==> r.atoms.data@[i] == self.atoms.data@[i
                    - offset],
            r.bonds.view_rows().len() == self.bonds.view_rows().len() + offset,
            forall|x: int, y: int| #[trigger]
                r.bonds.spec_bond(x, y) == if x >= offset && y >= offset {
                    self.bonds.spec_bond(x - offset, y - offset)
                } else {
                    None::<u64>
                },
            r.ids.entries() =~~= crate::n_to_n::shift_pairs(self.ids.entries(), offset as int),
            r.groups.pairs() =~~= crate::n_to_n::shift_pairs(self.groups.pairs(), offset as int),
    {
        let ids = self.ids.offset_indices(offset);
        let groups = self.groups.offset_indices(offset);
        SparseMolecule {
            title: self.title,
            atoms: self.atoms.offset(offset),
            bonds: self.bonds.offset(offset),
            ids,
            groups,
        }
    }
}

/// Filling with the same data twice changes nothing over filling once:
/// with the incoming side winning on every field, a second identical
/// overlay reproduces the first result atom for atom, bond for bond,
/// name for name and group for group.
pub proof fn lemma_fill_idempotent(
    base: SparseMolecule,
    data: SparseMolecule,
    once: SparseMolecule,
    twice: SparseMolecule,
)
    requires
        migrated(base, data, once),
        migrated(once, data, twice),
    ensures
        twice.title@ == once.title@,
        twice.atoms.data@ =~= once.atoms.data@,
        forall|x: int, y: int| #[trigger]
            twice.bonds.spec_bond(x, y) == once.bonds.spec_bond(x, y),
        forall|k: Seq<char>, v: usize| #[trigger] twice.ids.has(k, v) <==> once.ids.has(k, v),
        forall|k: Seq<char>| #[trigger] twice.ids.has_key(k) <==> once.ids.has_key(k),
        forall|l: Seq<char>, x: usize| #[trigger] twice.groups.has(l, x) <==> once.groups.has(l, x),
{
    assert forall|i: int| 0 <= i < twice.atoms.data@.len() implies twice.atoms.data@[i]
        == once.atoms.data@[i] by {
        assert(twice.atoms.data@[i] == merged_atom(
            atom_at(once.atoms.data@, i),
            atom_at(data.atoms.data@, i),
        ));
    }
}

/// Reading a shifted molecule at `offset + i` yields exactly what the
/// original held at `i`, and every slot below `offset` is empty; bonds,
/// names and groups shift the same way.
pub proof fn lemma_offset_round_trip(m: SparseMolecule, r: SparseMolecule, offset: usize)
    requires
        r.atoms.data@.len() == m.atoms.data@.len() + offset,
        forall|i: int| 0 <= i < offset ==> r.atoms.data@[i] is None,
        forall|i: int|
            offset <= i < r.atoms.data@.len() ==> r.atoms.data@[i] == m.atoms.data@[i - offset],
        forall|x: int, y: int| #[trigger]
            r.bonds.spec_bond(x, y) == if x >= offset && y >= offset {
                m.bonds.spec_bond(x - offset, y - offset)
            } else {
                None::<u64>
            },
    ensures
        forall|i: int|
            0 <= i ==> atom_at(r.atoms.data@, offset + i) == atom_at(m.atoms.data@, i),
        forall|i: int| 0 <= i < offset ==> atom_at(r.atoms.data@, i) is None,
        forall|x: int, y: int|
            0 <= x && 0 <= y ==> #[trigger] r.bonds.spec_bond(offset + x, offset + y)
                == m.bonds.spec_bond(x, y),
{
}

/// The dense, continuously indexed form of a molecule: what the external
/// text formats consume and produce.  Only valid atoms appear, renumbered
/// from zero; bonds of zero order are dropped; names and groups that
/// point at invalid slots are dropped.
#[derive(Debug)]
pub struct CompactedMolecule {
    pub title: String,
    pub atoms: Vec<Atom3D>,
    pub bonds: Vec<(usize, usize, u64)>,
    pub ids: NameIndex,
    pub groups: GroupName,
}

impl SparseMolecule {
    /// The compacted form of this molecule.
    pub fn compacted(&self) -> (r: CompactedMolecule)
        requires
            self.wf(),
        ensures
            r.title@ == self.title@,
            r.atoms@.len() == count_valid(self.atoms.data@, self.atoms.data@.len() as int),
            forall|i: int|
                0 <= i < self.atoms.data@.len() && slot_is_valid(self.atoms.data@, i)
                    ==> r.atoms@[count_valid(self.atoms.data@, i)] == atom_at(
                    self.atoms.data@,
                    i,
                )->0,
            forall|t: (usize, usize, u64)| #[trigger]
                r.bonds@.contains(t) <==> ((exists|x: int, y: int|
                    triple_at(&self.bonds, &self.atoms, x, y, t)) && !crate::geom::is_zero_bits(
                    t.2,
                )),
            triples_sorted(r.bonds@),
            r.bonds@.no_duplicates(),
            r.ids.wf(),
            forall|k: Seq<char>, ci: usize| #[trigger]
                r.ids.has(k, ci) <==> exists|si: usize|
                    si < self.atoms.data@.len() && #[trigger] slot_is_valid(
                        self.atoms.data@,
                        si as int,
                    ) && self.ids.has(k, si) && ci == count_valid(self.atoms.data@, si as int),
            r.groups.wf(),
            forall|g: Seq<char>, ci: usize| #[trigger]
                r.groups.has(g, ci) <==> exists|si: usize|
                    si < self.atoms.data@.len() && #[trigger] slot_is_valid(
                        self.atoms.data@,
                        si as int,
                    ) && self.groups.has(g, si) && ci == count_valid(self.atoms.data@, si as int),
    {
        let atoms = self.atoms.continuous_atoms();
        let raw = self.bonds.to_continous_list(&self.atoms);
        let mut bonds: Vec<(usize, usize, u64)> = Vec::new();
        let nb = raw.len();
        for i in 0..nb
            invariant
                nb == raw@.len(),
                triples_sorted(raw@),
                forall|t: (usize, usize, u64)| #[trigger]
                    bonds@.contains(t) <==> (raw@.subrange(0, i as int).contains(t)
                        && !crate::geom::is_zero_bits(t.2)),
                triples_sorted(bonds@),
                forall|k: int|
                    0 <= k < bonds@.len() ==> raw@.subrange(0, i as int).contains(
                        #[trigger] bonds@[k],
                    ),
        {
            let ghost prev = bonds@;
            let t = raw[i];
            if !crate::geom::bits_are_zero(t.2) {
                bonds.push(t);
                proof {
                    assert forall|a: int, b: int|
                        0 <= a < b < bonds@.len() implies triple_lt(
                        #[trigger] bonds@[a],
                        #[trigger] bonds@[b],
                    ) by {
                        if b == prev.len() {
                            assert(bonds@[a] == prev[a]);
                            assert(raw@.subrange(0, i as int).contains(prev[a]));
                            let u = choose|u: int|
                                0 <= u < i && #[trigger] raw@.subrange(0, i as int)[u] == prev[a];
                            assert(triple_lt(raw@[u], raw@[i as int]));
                        }
                    }
                    assert forall|k: int|
                        0 <= k < bonds@.len() implies raw@.subrange(0, i + 1).contains(
                        #[trigger] bonds@[k],
                    ) by {
                        if k < prev.len() {
                            assert(raw@.subrange(0, i as int).contains(prev[k]));
                            let u = choose|u: int|
                                0 <= u < i && #[trigger] raw@.subrange(0, i as int)[u] == prev[k];
                            assert(raw@.subrange(0, i + 1)[u] == bonds@[k]);
                        } else {
                            assert(raw@.subrange(0, i + 1)[i as int] == bonds@[k]);
                        }
                    }
                }
            } else {
                proof {
                    assert forall|k: int|
                        0 <= k < bonds@.len() implies raw@.subrange(0, i + 1).contains(
                        #[trigger] bonds@[k],
                    ) by {
                        assert(raw@.subrange(0, i as int).contains(bonds@[k]));
                        let u = choose|u: int|
                            0 <= u < i && #[trigger] raw@.subrange(0, i as int)[u] == bonds@[k];
                        assert(raw@.subrange(0, i + 1)[u] == bonds@[k]);
                    }
                }
            }
            proof {
                assert forall|u: (usize, usize, u64)| #[trigger]
                    bonds@.contains(u) <==> (raw@.subrange(0, i + 1).contains(u)
                        && !crate::geom::is_zero_bits(u.2)) by {
                    if bonds@.contains(u) {
                        if prev.contains(u) {
                            let k = choose|k: int|
                                0 <= k < i && raw@.subrange(0, i as int)[k] == u;
                            assert(raw@.subrange(0, i + 1)[k] == u);
                        } else {
                            assert(u == raw@[i as int]);
                            assert(raw@.subrange(0, i + 1)[i as int] == u);
                        }
                    }
                    if raw@.subrange(0, i + 1).contains(u) && !crate::geom::is_zero_bits(u.2) {
                        let k = choose|k: int|
                            0 <= k <= i && #[trigger] raw@.subrange(0, i + 1)[k] == u;
                        if k < i {
                            assert(raw@.subrange(0, i as int)[k] == u);
                            assert(prev.contains(u));
                        } else {
                            assert(u == raw@[i as int]);
                            assert(bonds@[bonds@.len() - 1] == u);
                        }
                    }
                }
            }
        }
        proof {
            assert(raw@.subrange(0, nb as int) =~= raw@);
            assert forall|a: int, b: int|
                0 <= a < b < bonds@.len() implies bonds@[a] != bonds@[b] by {
                assert(triple_lt(bonds@[a], bonds@[b]));
            }
        }
        let mut ids = NameIndex::new();
        let ni = self.ids.data.len();
        for i in 0..ni
            invariant
                self.wf(),
                ni == self.ids.data@.len(),
                ids.wf(),
                forall|k: Seq<char>, ci: usize| #[trigger]
                    ids.has(k, ci) <==> exists|j: int|
                        0 <= j < i && (#[trigger] self.ids.entries()[j]).0 == k && slot_is_valid(
                            self.atoms.data@,
                            self.ids.entries()[j].1 as int,
                        ) && ci == count_valid(
                            self.atoms.data@,
                            self.ids.entries()[j].1 as int,
                        ),
        {
            let si = self.ids.data[i].1;
            match self.atoms.to_continous_index(si) {
                Some(ci) => {
                    let nm = self.ids.data[i].0.clone();
                    ids.insert(nm, ci);
                    proof {
                        lemma_count_valid_nonneg(self.atoms.data@, si as int);
                    }
                },
                None => (),
            }
            proof {
                assert forall|k: Seq<char>, ci: usize| #[trigger]
                    ids.has(k, ci) <==> exists|j: int|
                        0 <= j < i + 1 && (#[trigger] self.ids.entries()[j]).0 == k
                            && slot_is_valid(
                            self.atoms.data@,
                            self.ids.entries()[j].1 as int,
                        ) && ci == count_valid(
                            self.atoms.data@,
                            self.ids.entries()[j].1 as int,
                        ) by {
                    if ids.has(k, ci) {
                        if exists|j: int|
                            0 <= j < i && (#[trigger] self.ids.entries()[j]).0 == k
                                && slot_is_valid(
                                self.atoms.data@,
                                self.ids.entries()[j].1 as int,
                            ) && ci == count_valid(
                                self.atoms.data@,
                                self.ids.entries()[j].1 as int,
                            ) {
                        } else {
                            assert(self.ids.entries()[i as int].0 == self.ids.data@[i as int].0@);
                        }
                    }
                    if exists|j: int|
                        0 <= j < i + 1 && (#[trigger] self.ids.entries()[j]).0 == k
                            && slot_is_valid(
                            self.atoms.data@,
                            self.ids.entries()[j].1 as int,
                        ) && ci == count_valid(
                            self.atoms.data@,
                            self.ids.entries()[j].1 as int,
                        ) {
                        let j = choose|j: int|
                            0 <= j < i + 1 && (#[trigger] self.ids.entries()[j]).0 == k
                                && slot_is_valid(
                                self.atoms.data@,
                                self.ids.entries()[j].1 as int,
                            ) && ci == count_valid(
                                self.atoms.data@,
                                self.ids.entries()[j].1 as int,
                            );
                        if j == i {
                            lemma_count_valid_nonneg(
                                self.atoms.data@,
                                self.ids.entries()[i as int].1 as int,
                            );
                        } else {
                            assert(crate::name_index::keys_of(self.ids.entries())[j] == k);
                            assert(crate::name_index::keys_of(self.ids.entries())[i as int]
                                == self.ids.entries()[i as int].0);
                        }
                    }
                }
            }
        }
        let mut groups = GroupName::new();
        let ng = self.groups.rel.data.len();
        for i in 0..ng
            invariant
                self.wf(),
                ng == self.groups.rel.data@.len(),
                groups.wf(),
                forall|g: Seq<char>, ci: usize| #[trigger]
                    groups.has(g, ci) <==> exists|j: int|
                        0 <= j < i && (#[trigger] self.groups.pairs()[j]).0 == g
                            && slot_is_valid(
                            self.atoms.data@,
                            self.groups.pairs()[j].1 as int,
                        ) && ci == count_valid(
                            self.atoms.data@,
                            self.groups.pairs()[j].1 as int,
                        ),
        {
            let si = self.groups.rel.data[i].1;
            match self.atoms.to_continous_index(si) {
                Some(ci) => {
                    let nm = self.groups.rel.data[i].0.clone();
                    groups.insert(nm, ci);
                    proof {
                        lemma_count_valid_nonneg(self.atoms.data@, si as int);
                    }
                },
                None => (),
            }
            proof {
                assert forall|g: Seq<char>, ci: usize| #[trigger]
                    groups.has(g, ci) <==> exists|j: int|
                        0 <= j < i + 1 && (#[trigger] self.groups.pairs()[j]).0 == g
                            && slot_is_valid(
                            self.atoms.data@,
                            self.groups.pairs()[j].1 as int,
                        ) && ci == count_valid(
                            self.atoms.data@,
                            self.groups.pairs()[j].1 as int,
                        ) by {
                    if groups.has(g, ci) {
                        if exists|j: int|
                            0 <= j < i && (#[trigger] self.groups.pairs()[j]).0 == g
                                && slot_is_valid(
                                self.atoms.data@,
                                self.groups.pairs()[j].1 as int,
                            ) && ci == count_valid(
                                self.atoms.data@,
                                self.groups.pairs()[j].1 as int,
                            ) {
                        } else {
                            assert(self.groups.pairs()[i as int].0 == self.groups.rel.data@[
                                i as int
                            ].0@);
                        }
                    }
                    if exists|j: int|
                        0 <= j < i + 1 && (#[trigger] self.groups.pairs()[j]).0 == g
                            && slot_is_valid(
                            self.atoms.data@,
                            self.groups.pairs()[j].1 as int,
                        ) && ci == count_valid(
                            self.atoms.data@,
                            self.groups.pairs()[j].1 as int,
                        ) {
                        let j = choose|j: int|
                            0 <= j < i + 1 && (#[trigger] self.groups.pairs()[j]).0 == g
                                && slot_is_valid(
                                self.atoms.data@,
                                self.groups.pairs()[j].1 as int,
                            ) && ci == count_valid(
                                self.atoms.data@,
                                self.groups.pairs()[j].1 as int,
                            );
                        if j == i {
                            lemma_count_valid_nonneg(
                                self.atoms.data@,
                                self.groups.pairs()[i as int].1 as int,
                            );
                        }
                    }
                }
            }
        }
        proof {
            assert forall|k: Seq<char>, ci: usize| #[trigger]
                ids.has(k, ci) <==> exists|si: usize|
                    si < self.atoms.data@.len() && #[trigger] slot_is_valid(
                        self.atoms.data@,
                        si as int,
                    ) && self.ids.has(k, si) && ci == count_valid(
                        self.atoms.data@,
                        si as int,
                    ) by {
                assert(self.ids.entries().subrange(0, ni as int) =~= self.ids.entries());
                lemma_compacted_entry(self.ids.entries(), &self.atoms, k, ci);
            }
            assert forall|g: Seq<char>, ci: usize| #[trigger]
                groups.has(g, ci) <==> exists|si: usize|
                    si < self.atoms.data@.len() && #[trigger] slot_is_valid(
                        self.atoms.data@,
                        si as int,
                    ) && self.groups.has(g, si) && ci == count_valid(
                        self.atoms.data@,
                        si as int,
                    ) by {
                assert(self.groups.pairs().subrange(0, ng as int) =~= self.groups.pairs());
                lemma_compacted_entry(self.groups.pairs(), &self.atoms, g, ci);
            }
        }
        CompactedMolecule { title: self.title.clone(), atoms, bonds, ids, groups }
    }
}

/// Bridges entry-position quantification to membership quantification:
/// a pair sequence holds a compactable binding at some position exactly
/// when it contains one.
proof fn lemma_compacted_entry(
    entries: Seq<(Seq<char>, usize)>,
    atoms: &SparseAtomList,
    k: Seq<char>,
    ci: usize,
)
    ensures
        (exists|j: int|
            0 <= j < entries.len() && (#[trigger] entries[j]).0 == k && slot_is_valid(
                atoms.data@,
                entries[j].1 as int,
            ) && ci == count_valid(atoms.data@, entries[j].1 as int)) <==> (exists|si: usize|
            si < atoms.data@.len() && #[trigger] slot_is_valid(atoms.data@, si as int)
                && entries.contains((k, si)) && ci == count_valid(atoms.data@, si as int)),
{
    if exists|j: int|
        0 <= j < entries.len() && (#[trigger] entries[j]).0 == k && slot_is_valid(
            atoms.data@,
            entries[j].1 as int,
        ) && ci == count_valid(atoms.data@, entries[j].1 as int) {
        let j = choose|j: int|
            0 <= j < entries.len() && (#[trigger] entries[j]).0 == k && slot_is_valid(
                atoms.data@,
                entries[j].1 as int,
            ) && ci == count_valid(atoms.data@, entries[j].1 as int);
        let si = entries[j].1;
        assert(entries[j] == (k, si));
        assert(entries.contains((k, si)));
        assert(si < atoms.data@.len() && slot_is_valid(atoms.data@, si as int)
            && entries.contains((k, si)) && ci == count_valid(atoms.data@, si as int));
    }
    if exists|si: usize|
        si < atoms.data@.len() && #[trigger] slot_is_valid(atoms.data@, si as int)
            && entries.contains((k, si)) && ci == count_valid(atoms.data@, si as int) {
        let si = choose|si: usize|
            si < atoms.data@.len() && #[trigger] slot_is_valid(atoms.data@, si as int)
                && entries.contains((k, si)) && ci == count_valid(atoms.data@, si as int);
        assert(entries.contains((k, si)));
        let j = choose|j: int| 0 <= j < entries.len() && entries[j] == (k, si);
        assert(entries[j] == (k, si));
        assert(0 <= j < entries.len() && (entries[j]).0 == k && slot_is_valid(
            atoms.data@,
            entries[j].1 as int,
        ) && ci == count_valid(atoms.data@, entries[j].1 as int));
    }
}

} // verus!
