//! The layer store and the stack resolver.
//!
//! Layers are stored append-only under consecutive integer IDs starting
//! at zero.  A stack is an ordered list of layer IDs; resolving it folds
//! each layer's application over a base molecule, memoizing the result of
//! every prefix so that stacks sharing a prefix replay it at most once.

use vstd::prelude::*;
use crate::layer::{
    filter_bounds, filter_err, filter_fails, filter_ok, layer_wf, lemma_filter_fails_like,
    lemma_filter_ok_like, lemma_mol_like_sym, lemma_mol_like_trans, lemma_mol_same_like,
    mol_like, mol_same, Layer, LayerStorageError,
};
use crate::chemistry::Atom3D;
use crate::sparse_molecule::{atom_at, max_usize, SparseMolecule};

verus! {

/// The append-only layer table: the layer with ID `i` sits at index `i`,
/// so IDs are consecutive from zero and never reused.
#[derive(Debug)]
pub struct LayerStorage {
    pub layers: Vec<Layer>,
}

/// One stack entry rewrites `b` into `a`: the stored layer's
/// application contract holds of them and could not have failed, judged
/// by what the molecules observably hold (their titles, slots, bonds,
/// names and groups).
pub open spec fn stack_step(store: &LayerStorage, id: u64, b: SparseMolecule, a: SparseMolecule) -> bool {
    &&& id < store.layers@.len()
    &&& exists|b2: SparseMolecule, a2: SparseMolecule|
        b2.wf() && a2.wf() && mol_like(&b2, &b) && mol_like(&a2, &a) && !filter_fails(
            &store.layers@[id as int],
            &b2,
        ) && #[trigger] filter_ok(&store.layers@[id as int], &b2, &a2)
}

/// A chain of molecule snapshots witnessing one successful layer
/// application per stack entry.
pub open spec fn stack_chain(
    store: &LayerStorage,
    path: Seq<u64>,
    mols: Seq<SparseMolecule>,
) -> bool {
    &&& mols.len() == path.len() + 1
    &&& forall|j: int|
        0 <= j < path.len() ==> stack_step(store, #[trigger] path[j], mols[j], mols[j + 1])
}

/// The stack rewrites `b` into `a`: some snapshot chain connects them.
pub open spec fn stack_applied(
    store: &LayerStorage,
    path: Seq<u64>,
    b: SparseMolecule,
    a: SparseMolecule,
) -> bool {
    exists|mols: Seq<SparseMolecule>|
        #[trigger] stack_chain(store, path, mols) && mol_like(&mols[0], &b) && mol_like(
            &mols[mols.len() - 1],
            &a,
        )
}

/// The stack's resolution fails with `e`: some chain reaches a layer
/// that is missing from the store or whose application must fail.
pub open spec fn stack_failure(
    store: &LayerStorage,
    path: Seq<u64>,
    b: SparseMolecule,
    e: &LayerStorageError,
) -> bool {
    exists|j: int, mols: Seq<SparseMolecule>|
        0 <= j < path.len() && #[trigger] stack_chain(store, path.subrange(0, j), mols)
            && mol_like(&mols[0], &b) && if path[j] >= store.layers@.len() {
            e matches LayerStorageError::NoSuchLayer(id) && id == path[j]
        } else {
            exists|m2: SparseMolecule|
                m2.wf() && mol_like(&m2, &mols[mols.len() - 1]) && #[trigger] filter_fails(
                    &store.layers@[path[j] as int],
                    &m2,
                ) && filter_err(&store.layers@[path[j] as int], &m2, e)
        }
}

/// The stack cannot resolve from `base`: some chain of successful steps
/// reaches a position whose layer is missing from the store, or whose
/// application must fail on what the chain has built.  Since every chain
/// step certifies that its own layer could not have failed, the reached
/// position is the chronologically first failure.
pub open spec fn stack_blocked(store: &LayerStorage, path: Seq<u64>, base: SparseMolecule) -> bool {
    exists|j: int, mols: Seq<SparseMolecule>|
        0 <= j < path.len() && #[trigger] stack_chain(store, path.subrange(0, j), mols)
            && mol_like(&mols[0], &base) && (path[j] >= store.layers@.len() || exists|
            m2: SparseMolecule,
        |
            m2.wf() && mol_like(&m2, &mols[mols.len() - 1]) && #[trigger] filter_fails(
                &store.layers@[path[j] as int],
                &m2,
            ))
}

/// Along every chain the stack can take from `base`, the next layer's
/// machine bounds hold; molecules stay far from the index limits.
pub open spec fn stack_runs_within_bounds(
    store: &LayerStorage,
    path: Seq<u64>,
    base: SparseMolecule,
) -> bool {
    forall|j: int, mols: Seq<SparseMolecule>, m2: SparseMolecule|
        0 <= j < path.len() && #[trigger] stack_chain(store, path.subrange(0, j), mols)
            && mol_like(&mols[0], &base) && #[trigger] mol_like(&m2, &mols[mols.len() - 1])
            && path[j] < store.layers@.len() ==> filter_bounds(
            &store.layers@[path[j] as int],
            &m2,
        )
}

impl LayerStorage {
    /// Every stored layer carries well-formed payloads.
    pub open spec fn wf(&self) -> bool {
        forall|i: int| 0 <= i < self.layers@.len() ==> layer_wf(&self.layers@[i])
    }

    /// An empty store.
    pub fn new() -> (r: Self)
        ensures
            r.layers@.len() == 0,
            r.wf(),
    {
        LayerStorage { layers: Vec::new() }
    }

    /// The ID the next created layer will get.
    pub fn next_layer_id(&self) -> (r: u64)
        requires
            self.layers@.len() <= u64::MAX,
        ensures
            r == self.layers@.len(),
    {
        self.layers.len() as u64
    }

    /// Every ID the store currently holds, ascending.
    pub fn layer_ids(&self) -> (r: Vec<u64>)
        requires
            self.layers@.len() <= u64::MAX,
        ensures
            r@.len() == self.layers@.len(),
            forall|i: int| 0 <= i < r@.len() ==> r@[i] == i,
    {
        let n = self.layers.len();
        let mut out: Vec<u64> = Vec::new();
        for i in 0..n
            invariant
                n == self.layers@.len(),
                n <= u64::MAX,
                out@.len() == i,
                forall|j: int| 0 <= j < i ==> out@[j] == j,
        {
            out.push(i as u64);
        }
        out
    }

    /// Appends the given layers, assigning them the next consecutive
    /// IDs; returns the half-open ID range they received.
    pub fn create_layers(&mut self, layers: Vec<Layer>) -> (r: (u64, u64))
        requires
            old(self).wf(),
            old(self).layers@.len() + layers@.len() <= u64::MAX,
            old(self).layers@.len() + layers@.len() <= usize::MAX,
            forall|i: int| 0 <= i < layers@.len() ==> layer_wf(&layers@[i]),
        ensures
            final(self).wf(),
            r.0 == old(self).layers@.len(),
            r.1 == final(self).layers@.len(),
            final(self).layers@ == old(self).layers@ + layers@,
    {
        let start = self.layers.len() as u64;
        let mut incoming = layers;
        self.layers.append(&mut incoming);
        let end = self.layers.len() as u64;
        proof {
            assert(final(self).layers@ =~= old(self).layers@ + layers@);
        }
        (start, end)
    }

    /// The layer stored under `layer_id`, if any.
    pub fn read_layer(&self, layer_id: u64) -> (r: Option<&Layer>)
        ensures
            match r {
                Some(l) => layer_id < self.layers@.len() && l == &self.layers@[layer_id as int],
                None => layer_id >= self.layers@.len(),
            },
    {
        let n = self.layers.len();
        if layer_id >= n as u64 {
            None
        } else {
            let idu = layer_id as usize;
            proof {
                assert(idu as int == layer_id as int);
            }
            Some(&self.layers[idu])
        }
    }

    /// Folds each layer of the stack over `base`, in order; stops at the
    /// first missing layer or failing application.
    pub fn read_stack(&self, stack_path: &Vec<u64>, base: SparseMolecule) -> (r: Result<
        SparseMolecule,
        LayerStorageError,
    >)
        requires
            self.wf(),
            base.wf(),
            stack_runs_within_bounds(self, stack_path@, base),
        ensures
            match r {
                Ok(m) => m.wf() && stack_applied(self, stack_path@, base, m),
                Err(e) => stack_failure(self, stack_path@, base, &e),
            },
            (r is Err) == stack_blocked(self, stack_path@, base),
    {
        let ghost orig = base;
        let mut cur = base;
        let n = stack_path.len();
        let ghost mut mols: Seq<SparseMolecule> = seq![base];
        for j in 0..n
            invariant
                self.wf(),
                stack_runs_within_bounds(self, stack_path@, orig),
                orig == base,
                cur.wf(),
                n == stack_path@.len(),
                mols.len() == j + 1,
                mols[0] == orig,
                mols[j as int] == cur,
                stack_chain(self, stack_path@.subrange(0, j as int), mols),
        {
            let id = stack_path[j];
            let ln = self.layers.len();
            if id >= ln as u64 {
                proof {
                    lemma_failure_witness(self, stack_path@, orig, j as int, mols, &LayerStorageError::NoSuchLayer(id));
                }
                return Err(LayerStorageError::NoSuchLayer(id));
            }
            let idu = id as usize;
            proof {
                assert(idu as int == id as int);
                assert(layer_wf(&self.layers@[idu as int]));
                assert(filter_bounds(&self.layers@[idu as int], &cur)) by {
                    lemma_mol_same_like(&mols[0], &orig);
                    lemma_mol_same_like(&cur, &mols[mols.len() - 1]);
                    assert(stack_chain(self, stack_path@.subrange(0, j as int), mols) && mol_like(
                        &mols[0],
                        &orig,
                    ) && mol_like(&cur, &mols[mols.len() - 1]) && stack_path@[j as int]
                        < self.layers@.len());
                }
            }
            match self.layers[idu].filter(cur) {
                Ok(m2) => {
                    let ghost prev = cur;
                    cur = m2;
                    proof {
                        mols = mols.push(cur);
                        assert(stack_step(self, stack_path@[j as int], prev, cur)) by {
                            lemma_mol_same_like(&prev, &prev);
                            lemma_mol_same_like(&cur, &cur);
                            assert(prev.wf() && cur.wf() && mol_like(&prev, &prev) && mol_like(
                                &cur,
                                &cur,
                            ) && !filter_fails(&self.layers@[stack_path@[j as int] as int], &prev)
                                && filter_ok(
                                &self.layers@[stack_path@[j as int] as int],
                                &prev,
                                &cur,
                            ));
                        }
                        assert(stack_chain(self, stack_path@.subrange(0, j + 1), mols)) by {
                            assert(stack_path@.subrange(0, j + 1) =~= stack_path@.subrange(
                                0,
                                j as int,
                            ).push(stack_path@[j as int]));
                            assert forall|k: int|
                                0 <= k < j + 1 implies stack_step(
                                self,
                                #[trigger] stack_path@.subrange(0, j + 1)[k],
                                mols[k],
                                mols[k + 1],
                            ) by {
                                if k < j {
                                    assert(stack_path@.subrange(0, j + 1)[k]
                                        == stack_path@.subrange(0, j as int)[k]);
                                    assert(stack_step(
                                        self,
                                        stack_path@.subrange(0, j as int)[k],
                                        mols[k],
                                        mols[k + 1],
                                    ));
                                }
                            }
                        }
                    }
                },
                Err(e) => {
                    proof {
                        lemma_mol_same_like(&mols[0], &orig);
                        lemma_mol_same_like(&cur, &mols[mols.len() - 1]);
                        assert(cur.wf() && mol_like(&cur, &mols[mols.len() - 1]) && filter_fails(
                            &self.layers@[stack_path@[j as int] as int],
                            &cur,
                        ) && filter_err(&self.layers@[stack_path@[j as int] as int], &cur, &e));
                        lemma_failure_witness(self, stack_path@, orig, j as int, mols, &e);
                    }
                    return Err(e);
                },
            }
        }
        proof {
            assert(stack_path@.subrange(0, n as int) =~= stack_path@);
            lemma_mol_same_like(&mols[0], &orig);
            lemma_mol_same_like(&mols[mols.len() - 1], &cur);
            assert(stack_applied(self, stack_path@, orig, cur)) by {
                assert(stack_chain(self, stack_path@, mols) && mol_like(&mols[0], &orig)
                    && mol_like(&mols[mols.len() - 1], &cur));
            }
            lemma_no_block(self, stack_path@, orig, mols);
        }
        Ok(cur)
    }
}

/// Packaging the loop facts into the failure and blocked predicates'
/// witnesses.
proof fn lemma_failure_witness(
    store: &LayerStorage,
    path: Seq<u64>,
    base: SparseMolecule,
    j: int,
    mols: Seq<SparseMolecule>,
    e: &LayerStorageError,
)
    requires
        0 <= j < path.len(),
        stack_chain(store, path.subrange(0, j), mols),
        mol_like(&mols[0], &base),
        if path[j] >= store.layers@.len() {
            e matches LayerStorageError::NoSuchLayer(id) && id == path[j]
        } else {
            exists|m2: SparseMolecule|
                m2.wf() && mol_like(&m2, &mols[mols.len() - 1]) && #[trigger] filter_fails(
                    &store.layers@[path[j] as int],
                    &m2,
                ) && filter_err(&store.layers@[path[j] as int], &m2, e)
        },
    ensures
        stack_failure(store, path, base, e),
        stack_blocked(store, path, base),
{
}

/// A prefix of a chain is a chain for the prefix of the path.
proof fn lemma_chain_prefix(
    store: &LayerStorage,
    path: Seq<u64>,
    mols: Seq<SparseMolecule>,
    j: int,
)
    requires
        stack_chain(store, path, mols),
        0 <= j <= path.len(),
    ensures
        stack_chain(store, path.subrange(0, j), mols.subrange(0, j + 1)),
{
    assert forall|k: int|
        0 <= k < j implies stack_step(
        store,
        #[trigger] path.subrange(0, j)[k],
        mols.subrange(0, j + 1)[k],
        mols.subrange(0, j + 1)[k + 1],
    ) by {
        assert(path.subrange(0, j)[k] == path[k]);
        assert(mols.subrange(0, j + 1)[k] == mols[k]);
        assert(mols.subrange(0, j + 1)[k + 1] == mols[k + 1]);
        assert(stack_step(store, path[k], mols[k], mols[k + 1]));
    }
}

/// Two chains for the same path from observably equivalent starts pass
/// through observably equivalent snapshots, step by step: every layer's
/// contract is deterministic up to observation.
proof fn lemma_chain_transfer(
    store: &LayerStorage,
    path: Seq<u64>,
    mols1: Seq<SparseMolecule>,
    mols2: Seq<SparseMolecule>,
    k: int,
)
    requires
        stack_chain(store, path, mols1),
        stack_chain(store, path, mols2),
        mol_like(&mols1[0], &mols2[0]),
        0 <= k <= path.len(),
    ensures
        mol_like(&mols1[k], &mols2[k]),
    decreases k,
{
    if k > 0 {
        lemma_chain_transfer(store, path, mols1, mols2, k - 1);
        assert(stack_step(store, path[k - 1], mols1[k - 1], mols1[k]));
        assert(stack_step(store, path[k - 1], mols2[k - 1], mols2[k]));
        let l = &store.layers@[path[k - 1] as int];
        let (w1b, w1a) = choose|b2: SparseMolecule, a2: SparseMolecule|
            b2.wf() && a2.wf() && mol_like(&b2, &mols1[k - 1]) && mol_like(&a2, &mols1[k])
                && !filter_fails(l, &b2) && #[trigger] filter_ok(l, &b2, &a2);
        let (w2b, w2a) = choose|b2: SparseMolecule, a2: SparseMolecule|
            b2.wf() && a2.wf() && mol_like(&b2, &mols2[k - 1]) && mol_like(&a2, &mols2[k])
                && !filter_fails(l, &b2) && #[trigger] filter_ok(l, &b2, &a2);
        lemma_mol_like_trans(&w1b, &mols1[k - 1], &mols2[k - 1]);
        lemma_mol_like_sym(&w2b, &mols2[k - 1]);
        lemma_mol_like_trans(&w1b, &mols2[k - 1], &w2b);
        lemma_filter_ok_like(l, &w1b, &w1a, &w2b, &w2a);
        lemma_mol_like_sym(&w1a, &mols1[k]);
        lemma_mol_like_trans(&mols1[k], &w1a, &w2a);
        lemma_mol_like_trans(&mols1[k], &w2a, &mols2[k]);
    }
}

/// A completed chain excludes every way the stack could be blocked: the
/// hypothetical failing chain would have to run through observably
/// equivalent snapshots, and each completed step certifies its layer
/// could not fail there.
proof fn lemma_no_block(
    store: &LayerStorage,
    path: Seq<u64>,
    base: SparseMolecule,
    mols: Seq<SparseMolecule>,
)
    requires
        stack_chain(store, path, mols),
        mol_like(&mols[0], &base),
    ensures
        !stack_blocked(store, path, base),
{
    if stack_blocked(store, path, base) {
        let (j, mols2) = choose|j: int, mols2: Seq<SparseMolecule>|
            0 <= j < path.len() && #[trigger] stack_chain(store, path.subrange(0, j), mols2)
                && mol_like(&mols2[0], &base) && (path[j] >= store.layers@.len() || exists|
                m2: SparseMolecule,
            |
                m2.wf() && mol_like(&m2, &mols2[mols2.len() - 1]) && #[trigger] filter_fails(
                    &store.layers@[path[j] as int],
                    &m2,
                ));
        assert(stack_step(store, path[j], mols[j], mols[j + 1]));
        assert(path[j] < store.layers@.len());
        let l = &store.layers@[path[j] as int];
        let m2 = choose|m2: SparseMolecule|
            m2.wf() && mol_like(&m2, &mols2[mols2.len() - 1]) && #[trigger] filter_fails(l, &m2);
        lemma_chain_prefix(store, path, mols, j);
        assert(path.subrange(0, j).len() == j);
        assert(mols.subrange(0, j + 1)[0] == mols[0]);
        lemma_mol_like_sym(&mols[0], &base);
        lemma_mol_like_trans(&mols2[0], &base, &mols[0]);
        lemma_chain_transfer(
            store,
            path.subrange(0, j),
            mols2,
            mols.subrange(0, j + 1),
            j,
        );
        assert(mol_like(&mols2[j], &mols.subrange(0, j + 1)[j]));
        assert(mols.subrange(0, j + 1)[j] == mols[j]);
        assert(mols2[mols2.len() - 1] == mols2[j]);
        let (wb, wa) = choose|b2: SparseMolecule, a2: SparseMolecule|
            b2.wf() && a2.wf() && mol_like(&b2, &mols[j]) && mol_like(&a2, &mols[j + 1])
                && !filter_fails(l, &b2) && #[trigger] filter_ok(l, &b2, &a2);
        lemma_mol_like_trans(&m2, &mols2[j], &mols[j]);
        lemma_mol_like_sym(&wb, &mols[j]);
        lemma_mol_like_trans(&m2, &mols[j], &wb);
        lemma_filter_fails_like(l, &m2, &wb);
        assert(false);
    }
}

/// Resolution is deterministic up to observation: any two resolved
/// results of the same stack over the same store, from observably
/// equivalent bases, are observably equivalent.  In particular the
/// memoized and the plain resolver agree on what every resolved
/// molecule holds.
pub proof fn lemma_resolution_deterministic(
    store: &LayerStorage,
    path: Seq<u64>,
    b1: SparseMolecule,
    m1: SparseMolecule,
    b2: SparseMolecule,
    m2: SparseMolecule,
)
    requires
        stack_applied(store, path, b1, m1),
        stack_applied(store, path, b2, m2),
        mol_like(&b1, &b2),
    ensures
        mol_like(&m1, &m2),
{
    let mols1 = choose|mols: Seq<SparseMolecule>|
        #[trigger] stack_chain(store, path, mols) && mol_like(&mols[0], &b1) && mol_like(
            &mols[mols.len() - 1],
            &m1,
        );
    let mols2 = choose|mols: Seq<SparseMolecule>|
        #[trigger] stack_chain(store, path, mols) && mol_like(&mols[0], &b2) && mol_like(
            &mols[mols.len() - 1],
            &m2,
        );
    lemma_mol_like_trans(&mols1[0], &b1, &b2);
    lemma_mol_like_sym(&mols2[0], &b2);
    lemma_mol_like_trans(&mols1[0], &b2, &mols2[0]);
    lemma_chain_transfer(store, path, mols1, mols2, path.len() as int);
    lemma_mol_like_sym(&mols1[path.len() as int], &m1);
    lemma_mol_like_trans(&m1, &mols1[path.len() as int], &mols2[path.len() as int]);
    lemma_mol_like_trans(&m1, &mols2[path.len() as int], &m2);
}

/// Whether `entry` spells out exactly the first `j` entries of `path`.
pub fn is_prefix_of(entry: &Vec<u64>, path: &Vec<u64>, j: usize) -> (r: bool)
    requires
        j <= path@.len(),
    ensures
        r == (entry@ =~= path@.subrange(0, j as int)),
{
    if entry.len() != j {
        return false;
    }
    for i in 0..j
        invariant
            j <= path@.len(),
            entry@.len() == j,
            forall|k: int| 0 <= k < i ==> entry@[k] == path@.subrange(0, j as int)[k],
    {
        if entry[i] != path[i] {
            return false;
        }
    }
    proof {
        assert(entry@ =~= path@.subrange(0, j as int));
    }
    true
}

/// The memoization cache: resolved molecules keyed by the exact stack
/// path that produced them.
#[derive(Debug)]
pub struct StackCache {
    pub entries: Vec<(Vec<u64>, SparseMolecule)>,
}

impl StackCache {
    /// Every entry records a molecule its path really resolves to from
    /// `base` through `store`; entries never go stale because the store
    /// only ever grows and old IDs keep their layers.
    pub open spec fn valid_for(&self, store: &LayerStorage, base: SparseMolecule) -> bool {
        forall|k: int|
            0 <= k < self.entries@.len() ==> (#[trigger] self.entries@[k]).1.wf()
                && stack_applied(store, self.entries@[k].0@, base, self.entries@[k].1)
    }

    /// Whether some entry holds exactly this path.
    pub open spec fn spec_has_path(&self, path: Seq<u64>) -> bool {
        exists|k: int| 0 <= k < self.entries@.len() && (#[trigger] self.entries@[k]).0@ == path
    }

    /// An empty cache.
    pub fn new() -> (r: Self)
        ensures
            r.entries@.len() == 0,
    {
        StackCache { entries: Vec::new() }
    }

    /// The number of memoized paths.
    pub fn len(&self) -> (r: usize)
        ensures
            r == self.entries@.len(),
    {
        self.entries.len()
    }
}

/// A stack path that continues another resolves whatever the first one
/// reached: chains compose, which is why a memoized prefix can stand in
/// for replaying it.
pub proof fn lemma_stack_applied_compose(
    store: &LayerStorage,
    p1: Seq<u64>,
    p2: Seq<u64>,
    base: SparseMolecule,
    m: SparseMolecule,
    out: SparseMolecule,
)
    requires
        stack_applied(store, p1, base, m),
        stack_applied(store, p2, m, out),
    ensures
        stack_applied(store, p1 + p2, base, out),
{
    let mols1 = choose|mols: Seq<SparseMolecule>|
        #[trigger] stack_chain(store, p1, mols) && mol_like(&mols[0], &base) && mol_like(
            &mols[mols.len() - 1],
            &m,
        );
    let mols2 = choose|mols: Seq<SparseMolecule>|
        #[trigger] stack_chain(store, p2, mols) && mol_like(&mols[0], &m) && mol_like(
            &mols[mols.len() - 1],
            &out,
        );
    let joined = mols1 + mols2.subrange(1, mols2.len() as int);
    assert(joined.len() == (p1 + p2).len() + 1);
    assert forall|j: int|
        0 <= j < (p1 + p2).len() implies stack_step(
        store,
        #[trigger] (p1 + p2)[j],
        joined[j],
        joined[j + 1],
    ) by {
        if j < p1.len() {
            assert((p1 + p2)[j] == p1[j]);
            assert(joined[j] == mols1[j]);
            if j + 1 < mols1.len() {
                assert(joined[j + 1] == mols1[j + 1]);
            }
            assert(stack_step(store, p1[j], mols1[j], mols1[j + 1]));
        } else {
            let t = j - p1.len();
            assert((p1 + p2)[j] == p2[t]);
            assert(stack_step(store, p2[t], mols2[t], mols2[t + 1]));
            assert(joined[j + 1] == mols2[t + 1]);
            if t == 0 {
                assert(joined[j] == mols1[mols1.len() - 1]);
                let l = &store.layers@[p2[0] as int];
                let (b2, a2) = choose|b2: SparseMolecule, a2: SparseMolecule|
                    b2.wf() && a2.wf() && mol_like(&b2, &mols2[0]) && mol_like(&a2, &mols2[1])
                        && !filter_fails(l, &b2) && #[trigger] filter_ok(l, &b2, &a2);
                lemma_mol_like_trans(&b2, &mols2[0], &m);
                lemma_mol_like_sym(&mols1[mols1.len() - 1], &m);
                lemma_mol_like_trans(&b2, &m, &mols1[mols1.len() - 1]);
                assert(mol_like(&b2, &joined[j]));
                assert(stack_step(store, p2[0], joined[j], joined[j + 1]));
            } else {
                assert(joined[j] == mols2[t]);
            }
        }
    }
    assert(stack_chain(store, p1 + p2, joined));
    assert(mol_like(&joined[0], &base));
    if p2.len() == 0 {
        assert(joined[joined.len() - 1] == mols1[mols1.len() - 1]);
        assert(mols2[mols2.len() - 1] == mols2[0]);
        lemma_mol_like_sym(&mols2[0], &m);
        lemma_mol_like_trans(&mols1[mols1.len() - 1], &m, &mols2[0]);
        lemma_mol_like_trans(&mols1[mols1.len() - 1], &mols2[0], &out);
    } else {
        assert(joined[joined.len() - 1] == mols2[mols2.len() - 1]);
    }
    assert(mol_like(&joined[joined.len() - 1], &out));
}

/// An equal copy of a stack path.
pub fn dup_path(v: &Vec<u64>) -> (r: Vec<u64>)
    ensures
        r@ =~= v@,
{
    let mut out: Vec<u64> = Vec::new();
    let n = v.len();
    for i in 0..n
        invariant
            n == v@.len(),
            out@ =~= v@.subrange(0, i as int),
    {
        out.push(v[i]);
        assert(out@ =~= v@.subrange(0, i + 1));
    }
    out
}

/// A workspace: a base molecule, the layer store, the named stacks and
/// the memoization cache, kept mutually consistent.
#[derive(Debug)]
pub struct Workspace {
    pub base: SparseMolecule,
    pub layers: LayerStorage,
    pub stacks: Vec<Vec<u64>>,
    pub cache: StackCache,
}

impl Workspace {
    /// Well-formed: the base and the stored layers are, and every cache
    /// entry really resolves its path.
    pub open spec fn wf(&self) -> bool {
        self.base.wf() && self.layers.wf() && self.cache.valid_for(&self.layers, self.base)
    }

    /// A fresh workspace over the given base molecule.
    pub fn new(base: SparseMolecule) -> (r: Self)
        requires
            base.wf(),
        ensures
            r.wf(),
            r.base == base,
            r.layers.layers@.len() == 0,
            r.stacks@.len() == 0,
            r.cache.entries@.len() == 0,
    {
        Workspace {
            base,
            layers: LayerStorage::new(),
            stacks: Vec::new(),
            cache: StackCache::new(),
        }
    }

    /// Creates the given layers and pushes a new stack that extends
    /// `base_path` with their fresh IDs; returns the number of stacks.
    pub fn add_layers_on_stack(&mut self, base_path: Vec<u64>, new_layers: Vec<Layer>) -> (r:
        usize)
        requires
            old(self).wf(),
            old(self).layers.layers@.len() + new_layers@.len() <= u64::MAX,
            old(self).layers.layers@.len() + new_layers@.len() <= usize::MAX,
            old(self).stacks@.len() < usize::MAX,
            forall|i: int| 0 <= i < new_layers@.len() ==> layer_wf(&new_layers@[i]),
        ensures
            final(self).wf(),
            final(self).base == old(self).base,
            final(self).layers.layers@ == old(self).layers.layers@ + new_layers@,
            final(self).stacks@.len() == old(self).stacks@.len() + 1,
            r == final(self).stacks@.len(),
            final(self).stacks@.last()@ =~= base_path@ + Seq::new(
                new_layers@.len(),
                |i: int| (old(self).layers.layers@.len() + i) as u64,
            ),
    {
        let ghost olayers = self.layers;
        let nl = new_layers.len();
        let (start, end) = self.layers.create_layers(new_layers);
        let mut path = base_path;
        let ghost base_view = path@;
        let mut id = start;
        while id < end
            invariant
                start <= id <= end,
                end <= usize::MAX,
                path@ =~= base_view + Seq::new((id - start) as nat, |i: int| (start + i) as u64),
            decreases end - id,
        {
            path.push(id);
            proof {
                assert(path@ =~= base_view + Seq::new(
                    (id + 1 - start) as nat,
                    |i: int| (start + i) as u64,
                ));
            }
            id = id + 1;
        }
        self.stacks.push(path);
        proof {
            assert(self.cache.valid_for(&self.layers, self.base)) by {
                assert forall|k: int|
                    0 <= k < self.cache.entries@.len() implies (#[trigger] self.cache.entries@[
                k]).1.wf() && stack_applied(
                    &self.layers,
                    self.cache.entries@[k].0@,
                    self.base,
                    self.cache.entries@[k].1,
                ) by {
                    lemma_applied_store_grows(
                        &olayers,
                        &self.layers,
                        self.cache.entries@[k].0@,
                        self.base,
                        self.cache.entries@[k].1,
                    );
                }
            }
        }
        self.stacks.len()
    }
}

/// Growing the store append-only never invalidates a resolution: every
/// ID a chain used still maps to the same layer.
pub proof fn lemma_applied_store_grows(
    old_store: &LayerStorage,
    new_store: &LayerStorage,
    path: Seq<u64>,
    base: SparseMolecule,
    m: SparseMolecule,
)
    requires
        stack_applied(old_store, path, base, m),
        new_store.layers@.len() >= old_store.layers@.len(),
        forall|i: int|
            0 <= i < old_store.layers@.len() ==> new_store.layers@[i] == old_store.layers@[i],
    ensures
        stack_applied(new_store, path, base, m),
{
    let mols = choose|mols: Seq<SparseMolecule>|
        #[trigger] stack_chain(old_store, path, mols) && mol_like(&mols[0], &base) && mol_like(
            &mols[mols.len() - 1],
            &m,
        );
    assert forall|j: int|
        0 <= j < path.len() implies stack_step(new_store, #[trigger] path[j], mols[j], mols[j + 1]) by {
        assert(stack_step(old_store, path[j], mols[j], mols[j + 1]));
        let l = &old_store.layers@[path[j] as int];
        let (b2, a2) = choose|b2: SparseMolecule, a2: SparseMolecule|
            b2.wf() && a2.wf() && mol_like(&b2, &mols[j]) && mol_like(&a2, &mols[j + 1])
                && !filter_fails(l, &b2) && #[trigger] filter_ok(l, &b2, &a2);
        assert(new_store.layers@[path[j] as int] == old_store.layers@[path[j] as int]);
        assert(filter_ok(&new_store.layers@[path[j] as int], &b2, &a2));
    }
    assert(stack_chain(new_store, path, mols));
}

impl Workspace {
    /// Resolves a stack with memoization: reuses the longest cached
    /// prefix, replays only the layers past it, and caches every newly
    /// computed prefix, so stacks sharing a prefix replay it at most
    /// once.  The cache only ever gains entries for prefixes of the
    /// requested path.
    pub fn cached_read_stack(&mut self, stack_path: &Vec<u64>) -> (r: Result<
        SparseMolecule,
        LayerStorageError,
    >)
        requires
            old(self).wf(),
            stack_runs_within_bounds(&old(self).layers, stack_path@, old(self).base),
        ensures
            final(self).wf(),
            final(self).base == old(self).base,
            final(self).layers == old(self).layers,
            final(self).stacks == old(self).stacks,
            forall|k: int|
                0 <= k < final(self).cache.entries@.len() ==> (old(self).cache.entries@.contains(
                    #[trigger] final(self).cache.entries@[k],
                ) || exists|t: int|
                    0 <= t <= stack_path@.len() && (final(self).cache.entries@[k]).0@
                        == stack_path@.subrange(0, t)),
            match r {
                Ok(m) => m.wf() && stack_applied(
                    &final(self).layers,
                    stack_path@,
                    final(self).base,
                    m,
                ) && (stack_path@.len() > 0 ==> final(self).cache.spec_has_path(stack_path@)),
                Err(e) => stack_failure(&final(self).layers, stack_path@, final(self).base, &e),
            },
            (r is Err) == stack_blocked(&final(self).layers, stack_path@, final(self).base),
    {
        let n = stack_path.len();
        let mut best_len: usize = 0;
        let mut best: Option<usize> = None;
        let ce = self.cache.entries.len();
        for k in 0..ce
            invariant
                ce == self.cache.entries@.len(),
                n == stack_path@.len(),
                best_len <= n,
                match best {
                    Some(bk) => bk < ce && 0 < best_len && (self.cache.entries@[bk as int]).0@
                        =~= stack_path@.subrange(0, best_len as int),
                    None => best_len == 0,
                },
        {
            let el = self.cache.entries[k].0.len();
            if el <= n && el > best_len {
                if is_prefix_of(&self.cache.entries[k].0, stack_path, el) {
                    best = Some(k);
                    best_len = el;
                }
            }
        }
        let mut start_j: usize = 0;
        let mut cur = match best {
            Some(bk) => {
                start_j = best_len;
                self.cache.entries[bk].1.duplicated()
            },
            None => self.base.duplicated(),
        };
        proof {
            if best is Some {
                let bk = best->0 as int;
                assert(mol_same(&cur, &(self.cache.entries@[bk]).1));
                lemma_mol_same_like(&cur, &(self.cache.entries@[bk]).1);
                lemma_mol_like_sym(&cur, &(self.cache.entries@[bk]).1);
                let mols = choose|mols: Seq<SparseMolecule>|
                    #[trigger] stack_chain(&self.layers, (self.cache.entries@[bk]).0@, mols)
                        && mol_like(&mols[0], &self.base) && mol_like(
                        &mols[mols.len() - 1],
                        &(self.cache.entries@[bk]).1,
                    );
                assert(stack_chain(&self.layers, stack_path@.subrange(0, start_j as int), mols));
                lemma_mol_like_trans(
                    &mols[mols.len() - 1],
                    &(self.cache.entries@[bk]).1,
                    &cur,
                );
                assert(stack_applied(
                    &self.layers,
                    stack_path@.subrange(0, start_j as int),
                    self.base,
                    cur,
                ));
            } else {
                let ghost mols0 = seq![cur];
                assert(stack_chain(&self.layers, stack_path@.subrange(0, 0), mols0));
                assert(mol_same(&mols0[0], &self.base));
                lemma_mol_same_like(&mols0[0], &self.base);
                assert(stack_applied(&self.layers, stack_path@.subrange(0, 0), self.base, cur));
            }
        }
        let mut pref: Vec<u64> = Vec::new();
        for i in 0..start_j
            invariant
                start_j <= n == stack_path@.len(),
                pref@ =~= stack_path@.subrange(0, i as int),
        {
            pref.push(stack_path[i]);
            assert(pref@ =~= stack_path@.subrange(0, i + 1));
        }
        let ghost base0 = self.base;
        let ghost layers0 = self.layers;
        let ghost stacks0 = self.stacks;
        let ghost cache0 = self.cache;
        let mut j = start_j;
        while j < n
            invariant
                base0 == old(self).base,
                layers0 == old(self).layers,
                stacks0 == old(self).stacks,
                cache0 == old(self).cache,
                start_j <= j <= n,
                n == stack_path@.len(),
                self.base == base0,
                self.layers == layers0,
                self.stacks == stacks0,
                self.wf(),
                stack_runs_within_bounds(&self.layers, stack_path@, self.base),
                cur.wf(),
                pref@ =~= stack_path@.subrange(0, j as int),
                stack_applied(&self.layers, stack_path@.subrange(0, j as int), self.base, cur),
                j > 0 && j >= 1 && start_j < j ==> self.cache.spec_has_path(
                    stack_path@.subrange(0, j as int),
                ),
                start_j == j ==> self.cache == cache0,
                forall|k: int|
                    0 <= k < self.cache.entries@.len() ==> (cache0.entries@.contains(
                        #[trigger] self.cache.entries@[k],
                    ) || exists|t: int|
                        0 <= t <= n && (self.cache.entries@[k]).0@ == stack_path@.subrange(0, t)),
            decreases n - j,
        {
            let id = stack_path[j];
            let ln = self.layers.layers.len();
            let ghost mols = choose|mols: Seq<SparseMolecule>|
                #[trigger] stack_chain(&self.layers, stack_path@.subrange(0, j as int), mols)
                    && mol_like(&mols[0], &self.base) && mol_like(&mols[mols.len() - 1], &cur);
            if id >= ln as u64 {
                proof {
                    lemma_failure_witness(
                        &self.layers,
                        stack_path@,
                        self.base,
                        j as int,
                        mols,
                        &LayerStorageError::NoSuchLayer(id),
                    );
                }
                return Err(LayerStorageError::NoSuchLayer(id));
            }
            let idu = id as usize;
            proof {
                assert(idu as int == id as int);
                assert(layer_wf(&self.layers.layers@[idu as int]));
                assert(filter_bounds(&self.layers.layers@[idu as int], &cur)) by {
                    lemma_mol_like_sym(&mols[mols.len() - 1], &cur);
                    assert(stack_chain(
                        &self.layers,
                        stack_path@.subrange(0, j as int),
                        mols,
                    ) && mol_like(&mols[0], &self.base) && mol_like(&cur, &mols[mols.len() - 1])
                        && stack_path@[j as int] < self.layers.layers@.len());
                }
            }
            match self.layers.layers[idu].filter(cur) {
                Ok(m2) => {
                    let ghost prev = cur;
                    cur = m2;
                    proof {
                        let single = seq![prev, cur];
                        assert(stack_step(&self.layers, id, prev, cur)) by {
                            lemma_mol_same_like(&prev, &prev);
                            lemma_mol_same_like(&cur, &cur);
                            assert(prev.wf() && cur.wf() && mol_like(&prev, &prev) && mol_like(
                                &cur,
                                &cur,
                            ) && !filter_fails(&self.layers.layers@[id as int], &prev)
                                && filter_ok(
                                &self.layers.layers@[id as int],
                                &prev,
                                &cur,
                            ));
                        }
                        assert(stack_chain(&self.layers, seq![id], single));
                        assert(stack_applied(&self.layers, seq![id], prev, cur));
                        lemma_stack_applied_compose(
                            &self.layers,
                            stack_path@.subrange(0, j as int),
                            seq![id],
                            self.base,
                            prev,
                            cur,
                        );
                        assert(stack_path@.subrange(0, j as int) + seq![id]
                            =~= stack_path@.subrange(0, j + 1));
                    }
                    pref.push(id);
                    proof {
                        assert(pref@ =~= stack_path@.subrange(0, j + 1));
                    }
                    let entry_path = dup_path(&pref);
                    let entry_mol = cur.duplicated();
                    proof {
                        assert(mol_same(&entry_mol, &cur));
                        lemma_mol_same_like(&entry_mol, &cur);
                        lemma_mol_like_sym(&entry_mol, &cur);
                        assert(stack_applied(
                            &self.layers,
                            entry_path@,
                            self.base,
                            entry_mol,
                        )) by {
                            let mols2 = choose|mols2: Seq<SparseMolecule>|
                                #[trigger] stack_chain(
                                    &self.layers,
                                    stack_path@.subrange(0, j + 1),
                                    mols2,
                                ) && mol_like(&mols2[0], &self.base) && mol_like(
                                    &mols2[mols2.len() - 1],
                                    &cur,
                                );
                            assert(stack_chain(&self.layers, entry_path@, mols2));
                            lemma_mol_like_trans(&mols2[mols2.len() - 1], &cur, &entry_mol);
                        }
                    }
                    self.cache.entries.push((entry_path, entry_mol));
                    proof {
                        let last = self.cache.entries@.len() - 1;
                        assert((self.cache.entries@[last]).0@ == stack_path@.subrange(0, j + 1));
                        assert(self.cache.spec_has_path(stack_path@.subrange(0, j + 1)));
                        assert forall|k: int|
                            0 <= k < self.cache.entries@.len() implies (cache0.entries@.contains(
                            #[trigger] self.cache.entries@[k],
                        ) || exists|t: int|
                            0 <= t <= n && (self.cache.entries@[k]).0@ == stack_path@.subrange(
                                0,
                                t,
                            )) by {
                            if k < last {
                            } else {
                                assert((self.cache.entries@[k]).0@ == stack_path@.subrange(
                                    0,
                                    j + 1,
                                ));
                            }
                        }
                    }
                    j = j + 1;
                },
                Err(e) => {
                    proof {
                        lemma_mol_like_sym(&mols[mols.len() - 1], &cur);
                        assert(cur.wf() && mol_like(&cur, &mols[mols.len() - 1]) && filter_fails(
                            &self.layers.layers@[stack_path@[j as int] as int],
                            &cur,
                        ) && filter_err(
                            &self.layers.layers@[stack_path@[j as int] as int],
                            &cur,
                            &e,
                        ));
                        lemma_failure_witness(&self.layers, stack_path@, self.base, j as int, mols, &e);
                    }
                    return Err(e);
                },
            }
        }
        proof {
            assert(stack_path@.subrange(0, n as int) =~= stack_path@);
            if n > 0 {
                if start_j == n {
                    let bk = best->0 as int;
                    assert((self.cache.entries@[bk]).0@ =~= stack_path@);
                    assert(self.cache.spec_has_path(stack_path@));
                }
            }
            let mols = choose|mols: Seq<SparseMolecule>|
                #[trigger] stack_chain(&self.layers, stack_path@, mols) && mol_like(
                    &mols[0],
                    &self.base,
                ) && mol_like(&mols[mols.len() - 1], &cur);
            lemma_no_block(&self.layers, stack_path@, self.base, mols);
        }
        Ok(cur)
    }
}

/// The errors the workspace-facing operations report.
#[derive(Debug)]
pub enum WorkspaceError {
    /// The layer is still referenced by some stack and cannot be edited.
    LayerInUse(u64),
    /// The operation only applies to a fill layer.
    NotFillLayer(u64),
    /// No stack sits at this position.
    NoSuchStack(usize),
    /// No layer is stored under this ID.
    NoSuchLayer(u64),
    /// A required one-atom selector did not resolve.
    NoSuchAtom(crate::layer::SelectOne),
}

/// The workspace error a resolution error maps to.
pub fn workspace_error_from(value: LayerStorageError) -> (r: WorkspaceError)
    ensures
        match value {
            LayerStorageError::NoSuchLayer(id) => r matches WorkspaceError::NoSuchLayer(id2)
                && id2 == id,
            LayerStorageError::SelectNotFound(s) => r matches WorkspaceError::NoSuchAtom(s2)
                && crate::layer::sel_view(&s2) == crate::layer::sel_view(&s),
            LayerStorageError::HideOverflow { idx, current_value } => (r matches
                WorkspaceError::NoSuchAtom(s2) && s2 matches crate::layer::SelectOne::Index(i2)
                && i2 == idx),
        },
{
    match value {
        LayerStorageError::NoSuchLayer(id) => WorkspaceError::NoSuchLayer(id),
        LayerStorageError::SelectNotFound(s) => WorkspaceError::NoSuchAtom(s),
        LayerStorageError::HideOverflow { idx, current_value } => WorkspaceError::NoSuchAtom(
            crate::layer::SelectOne::Index(idx),
        ),
    }
}

/// A path parameter naming one layer.
#[derive(Debug, Clone, Copy, PartialEq, Eq, Structural)]
pub struct LayerID {
    pub layer_id: u64,
}

/// A path parameter naming one stack by position.
#[derive(Debug, Clone, Copy, PartialEq, Eq, Structural)]
pub struct StackId {
    pub stack_id: usize,
}

/// A path parameter naming one workspace.
#[derive(Debug)]
pub struct WorkspaceName {
    pub ws_name: String,
}

/// What a server start needs: the address to listen on.
#[derive(Debug)]
pub struct ServerStartParameters {
    pub listen: String,
}

/// Where a persistent layer store keeps its data.
#[derive(Debug)]
pub struct LayerStorageConfig {
    pub db_path: String,
}

impl Workspace {
    /// Whether any stack still references the layer.
    pub open spec fn spec_layer_used(&self, layer_id: u64) -> bool {
        exists|i: int, j: int|
            0 <= i < self.stacks@.len() && 0 <= j < self.stacks@[i]@.len()
                && #[trigger] self.stacks@[i]@[j] == layer_id
    }

    /// Whether any stack still references the layer.
    pub fn layer_in_use(&self, layer_id: u64) -> (r: bool)
        ensures
            r == self.spec_layer_used(layer_id),
    {
        let n = self.stacks.len();
        for i in 0..n
            invariant
                n == self.stacks@.len(),
                forall|a: int, b: int|
                    0 <= a < i && 0 <= b < self.stacks@[a]@.len()
                        ==> #[trigger] self.stacks@[a]@[b] != layer_id,
        {
            let m = self.stacks[i].len();
            for j in 0..m
                invariant
                    i < n == self.stacks@.len(),
                    m == self.stacks@[i as int]@.len(),
                    forall|a: int, b: int|
                        0 <= a < i && 0 <= b < self.stacks@[a]@.len()
                            ==> #[trigger] self.stacks@[a]@[b] != layer_id,
                    forall|b: int| 0 <= b < j ==> self.stacks@[i as int]@[b] != layer_id,
            {
                if self.stacks[i][j] == layer_id {
                    return true;
                }
            }
        }
        false
    }

    /// Duplicates the stack at `stack_id` the given number of times,
    /// appending the copies; returns the range of new positions.
    pub fn clone_stacks(&mut self, stack_id: usize, copies: usize) -> (r: Result<
        (usize, usize),
        WorkspaceError,
    >)
        requires
            old(self).wf(),
            old(self).stacks@.len() + copies <= usize::MAX,
        ensures
            final(self).wf(),
            final(self).base == old(self).base,
            final(self).layers == old(self).layers,
            final(self).cache == old(self).cache,
            match r {
                Ok((start, end)) => stack_id < old(self).stacks@.len() && start == old(
                    self,
                ).stacks@.len() && end == start + copies && final(self).stacks@.len() == end
                    && (forall|i: int|
                    0 <= i < start ==> final(self).stacks@[i] == old(self).stacks@[i]) && (forall|
                    i: int,
                |
                    start <= i < end ==> (#[trigger] final(self).stacks@[i])@ == old(
                        self,
                    ).stacks@[stack_id as int]@),
                Err(e) => stack_id >= old(self).stacks@.len() && (e matches
                    WorkspaceError::NoSuchStack(sid) && sid == stack_id) && final(self).stacks
                    == old(self).stacks,
            },
            (r is Err) == (stack_id >= old(self).stacks@.len()),
    {
        let n = self.stacks.len();
        if stack_id >= n {
            return Err(WorkspaceError::NoSuchStack(stack_id));
        }
        for c in 0..copies
            invariant
                stack_id < n == old(self).stacks@.len(),
                n + copies <= usize::MAX,
                self.base == old(self).base,
                self.layers == old(self).layers,
                self.cache == old(self).cache,
                self.wf(),
                self.stacks@.len() == n + c,
                forall|i: int| 0 <= i < n ==> self.stacks@[i] == old(self).stacks@[i],
                forall|i: int|
                    n <= i < n + c ==> (#[trigger] self.stacks@[i])@ == old(self).stacks@[
                        stack_id as int
                    ]@,
        {
            let copy = dup_path(&self.stacks[stack_id]);
            self.stacks.push(copy);
        }
        Ok((n, n + copies))
    }

    /// Replaces the stack at `stack_id` with its window `[start, end)`;
    /// out-of-range ends are clamped to the stack's length.
    pub fn slice_stack(&mut self, stack_id: usize, start: usize, end: usize) -> (r: Result<
        (),
        WorkspaceError,
    >)
        requires
            old(self).wf(),
        ensures
            final(self).wf(),
            final(self).base == old(self).base,
            final(self).layers == old(self).layers,
            final(self).cache == old(self).cache,
            match r {
                Ok(()) => {
                    let olen = old(self).stacks@[stack_id as int]@.len() as int;
                    let e2 = if end <= olen {
                        end as int
                    } else {
                        olen
                    };
                    let s2 = if start <= e2 {
                        start as int
                    } else {
                        e2
                    };
                    &&& stack_id < old(self).stacks@.len()
                    &&& final(self).stacks@.len() == old(self).stacks@.len()
                    &&& forall|i: int|
                        0 <= i < final(self).stacks@.len() && i != stack_id
                            ==> #[trigger] final(self).stacks@[i] == old(self).stacks@[i]
                    &&& (final(self).stacks@[stack_id as int])@ == old(self).stacks@[
                        stack_id as int
                    ]@.subrange(s2, e2)
                },
                Err(e) => stack_id >= old(self).stacks@.len() && (e matches
                    WorkspaceError::NoSuchStack(sid) && sid == stack_id) && final(self).stacks
                    == old(self).stacks,
            },
            (r is Err) == (stack_id >= old(self).stacks@.len()),
    {
        let n = self.stacks.len();
        if stack_id >= n {
            return Err(WorkspaceError::NoSuchStack(stack_id));
        }
        let olen = self.stacks[stack_id].len();
        let e2 = if end <= olen {
            end
        } else {
            olen
        };
        let s2 = if start <= e2 {
            start
        } else {
            e2
        };
        let mut out: Vec<u64> = Vec::new();
        let ghost opath = self.stacks@[stack_id as int]@;
        for i in s2..e2
            invariant
                stack_id < self.stacks@.len(),
                *self == *old(self),
                opath == self.stacks@[stack_id as int]@,
                s2 <= i <= e2 <= opath.len(),
                out@ =~= opath.subrange(s2 as int, i as int),
        {
            out.push(self.stacks[stack_id][i]);
            assert(out@ =~= opath.subrange(s2 as int, i + 1));
        }
        self.stacks.set(stack_id, out);
        Ok(())
    }

    /// Appends the given layer IDs to the stack at `stack_id`.
    pub fn extend_stack(&mut self, stack_id: usize, more: &Vec<u64>) -> (r: Result<
        (),
        WorkspaceError,
    >)
        requires
            old(self).wf(),
            stack_id < old(self).stacks@.len() ==> old(self).stacks@[stack_id as int]@.len()
                + more@.len() <= usize::MAX,
        ensures
            final(self).wf(),
            final(self).base == old(self).base,
            final(self).layers == old(self).layers,
            final(self).cache == old(self).cache,
            match r {
                Ok(()) => {
                    &&& stack_id < old(self).stacks@.len()
                    &&& final(self).stacks@.len() == old(self).stacks@.len()
                    &&& forall|i: int|
                        0 <= i < final(self).stacks@.len() && i != stack_id
                            ==> #[trigger] final(self).stacks@[i] == old(self).stacks@[i]
                    &&& (final(self).stacks@[stack_id as int])@ == old(self).stacks@[
                        stack_id as int
                    ]@ + more@
                },
                Err(e) => stack_id >= old(self).stacks@.len() && (e matches
                    WorkspaceError::NoSuchStack(sid) && sid == stack_id) && final(self).stacks
                    == old(self).stacks,
            },
            (r is Err) == (stack_id >= old(self).stacks@.len()),
    {
        let n = self.stacks.len();
        if stack_id >= n {
            return Err(WorkspaceError::NoSuchStack(stack_id));
        }
        let mut out = dup_path(&self.stacks[stack_id]);
        let ghost opath = self.stacks@[stack_id as int]@;
        let m = more.len();
        for i in 0..m
            invariant
                stack_id < self.stacks@.len(),
                *self == *old(self),
                opath == self.stacks@[stack_id as int]@,
                m == more@.len(),
                out@ =~= opath + more@.subrange(0, i as int),
        {
            out.push(more[i]);
            assert(out@ =~= opath + more@.subrange(0, i + 1));
        }
        proof {
            assert(more@.subrange(0, m as int) =~= more@);
        }
        self.stacks.set(stack_id, out);
        Ok(())
    }
}

/// The bond recorded between `x` and `y` after writing the raw entries
/// in order over `init`; later entries win, `None` erases.
pub open spec fn raw_bonds_outcome(
    init: &crate::sparse_molecule::SparseBondMatrix,
    list: Seq<(usize, usize, Option<u64>)>,
    x: int,
    y: int,
) -> Option<u64>
    decreases list.len(),
{
    if list.len() == 0 {
        init.spec_bond(x, y)
    } else {
        let rest = raw_bonds_outcome(init, list.drop_last(), x, y);
        let p = list.last();
        if (x == p.0 && y == p.1) || (x == p.1 && y == p.0) {
            p.2
        } else {
            rest
        }
    }
}

/// The matrix size after writing the raw entries in order.
pub open spec fn raw_bonds_len_outcome(
    init: &crate::sparse_molecule::SparseBondMatrix,
    list: Seq<(usize, usize, Option<u64>)>,
) -> int
    decreases list.len(),
{
    if list.len() == 0 {
        init.view_rows().len() as int
    } else {
        let rest = raw_bonds_len_outcome(init, list.drop_last());
        let p = list.last();
        max_usize(rest, max_usize(p.0 as int, p.1 as int) + 1)
    }
}

impl Workspace {
    /// Overwrites atom slots of a fill layer that no stack references:
    /// the guarded in-place edit the workspace service offers.  Fails
    /// with `LayerInUse` while any stack still references the layer,
    /// `NoSuchLayer` for an unknown ID, and `NotFillLayer` for any other
    /// stored operation.  A successful edit drops the memoization cache,
    /// since a stored layer changed.
    pub fn set_fill_layer_atoms(
        &mut self,
        layer_id: u64,
        offset: usize,
        atoms: Vec<Option<Atom3D>>,
    ) -> (r: Result<(), WorkspaceError>)
        requires
            old(self).wf(),
            offset + atoms@.len() <= usize::MAX,
        ensures
            final(self).wf(),
            final(self).base == old(self).base,
            final(self).stacks == old(self).stacks,
            (r is Err) == (old(self).spec_layer_used(layer_id) || layer_id >= old(
                self,
            ).layers.layers@.len() || !(old(self).layers.layers@[layer_id as int] is Fill)),
            match r {
                Ok(()) => {
                    &&& final(self).cache.entries@.len() == 0
                    &&& final(self).layers.layers@.len() == old(self).layers.layers@.len()
                    &&& forall|k: int|
                        0 <= k < old(self).layers.layers@.len() && k != layer_id
                            ==> #[trigger] final(self).layers.layers@[k] == old(
                            self,
                        ).layers.layers@[k]
                    &&& match (
                        old(self).layers.layers@[layer_id as int],
                        final(self).layers.layers@[layer_id as int],
                    ) {
                        (Layer::Fill { data: d0 }, Layer::Fill { data: d2 }) => {
                            &&& d2.title@ == d0.title@
                            &&& d2.bonds.view_rows() == d0.bonds.view_rows()
                            &&& d2.ids.entries() == d0.ids.entries()
                            &&& d2.groups.pairs() == d0.groups.pairs()
                            &&& d2.atoms.data@.len() == max_usize(
                                d0.atoms.data@.len() as int,
                                offset + atoms@.len(),
                            )
                            &&& forall|i: int|
                                offset <= i < offset + atoms@.len() ==> d2.atoms.data@[i]
                                    == atoms@[i - offset]
                            &&& forall|i: int|
                                0 <= i < d2.atoms.data@.len() && !(offset <= i < offset
                                    + atoms@.len()) ==> d2.atoms.data@[i] == atom_at(
                                    d0.atoms.data@,
                                    i,
                                )
                        },
                        _ => false,
                    }
                },
                Err(e) => *final(self) == *old(self) && if old(self).spec_layer_used(layer_id) {
                    e matches WorkspaceError::LayerInUse(id) && id == layer_id
                } else if layer_id >= old(self).layers.layers@.len() {
                    e matches WorkspaceError::NoSuchLayer(id) && id == layer_id
                } else {
                    e matches WorkspaceError::NotFillLayer(id) && id == layer_id
                },
            },
    {
        if self.layer_in_use(layer_id) {
            return Err(WorkspaceError::LayerInUse(layer_id));
        }
        let n = self.layers.layers.len();
        if layer_id >= n as u64 {
            return Err(WorkspaceError::NoSuchLayer(layer_id));
        }
        let idu = layer_id as usize;
        proof {
            assert(idu as int == layer_id as int);
        }
        match &self.layers.layers[idu] {
            Layer::Fill { data } => {
                let mut d2 = data.duplicated();
                proof {
                    assert(d2.title@ == data.title@);
                    assert(d2.atoms.data@ == data.atoms.data@);
                    assert(d2.bonds.view_rows() == data.bonds.view_rows());
                    assert(d2.ids.entries() == data.ids.entries());
                    assert(d2.groups.pairs() == data.groups.pairs());
                    assert(layer_wf(&self.layers.layers@[idu as int]));
                    assert(d2.wf());
                }
                d2.atoms.set_atoms(offset, atoms);
                self.layers.layers.set(idu, Layer::Fill { data: d2 });
                self.cache = StackCache::new();
                proof {
                    assert forall|k: int|
                        0 <= k < self.layers.layers@.len() implies layer_wf(
                        &self.layers.layers@[k],
                    ) by {
                        if k != idu {
                            assert(self.layers.layers@[k] == old(self).layers.layers@[k]);
                        }
                    }
                }
                Ok(())
            },
            _ => Err(WorkspaceError::NotFillLayer(layer_id)),
        }
    }

    /// Records raw bond entries into a fill layer that no stack
    /// references, symmetrically and in order; guarded exactly like the
    /// atom edit, and likewise drops the memoization cache on success.
    pub fn set_fill_layer_bonds(
        &mut self,
        layer_id: u64,
        bonds: Vec<(usize, usize, Option<u64>)>,
    ) -> (r: Result<(), WorkspaceError>)
        requires
            old(self).wf(),
            forall|i: int|
                0 <= i < bonds@.len() ==> (#[trigger] bonds@[i]).0 < usize::MAX && bonds@[i].1
                    < usize::MAX,
        ensures
            final(self).wf(),
            final(self).base == old(self).base,
            final(self).stacks == old(self).stacks,
            (r is Err) == (old(self).spec_layer_used(layer_id) || layer_id >= old(
                self,
            ).layers.layers@.len() || !(old(self).layers.layers@[layer_id as int] is Fill)),
            match r {
                Ok(()) => {
                    &&& final(self).cache.entries@.len() == 0
                    &&& final(self).layers.layers@.len() == old(self).layers.layers@.len()
                    &&& forall|k: int|
                        0 <= k < old(self).layers.layers@.len() && k != layer_id
                            ==> #[trigger] final(self).layers.layers@[k] == old(
                            self,
                        ).layers.layers@[k]
                    &&& match (
                        old(self).layers.layers@[layer_id as int],
                        final(self).layers.layers@[layer_id as int],
                    ) {
                        (Layer::Fill { data: d0 }, Layer::Fill { data: d2 }) => {
                            &&& d2.title@ == d0.title@
                            &&& d2.atoms.data@ == d0.atoms.data@
                            &&& d2.ids.entries() == d0.ids.entries()
                            &&& d2.groups.pairs() == d0.groups.pairs()
                            &&& d2.bonds.view_rows().len() == raw_bonds_len_outcome(
                                &d0.bonds,
                                bonds@,
                            )
                            &&& forall|x: int, y: int| #[trigger]
                                d2.bonds.spec_bond(x, y) == raw_bonds_outcome(
                                    &d0.bonds,
                                    bonds@,
                                    x,
                                    y,
                                )
                        },
                        _ => false,
                    }
                },
                Err(e) => *final(self) == *old(self) && if old(self).spec_layer_used(layer_id) {
                    e matches WorkspaceError::LayerInUse(id) && id == layer_id
                } else if layer_id >= old(self).layers.layers@.len() {
                    e matches WorkspaceError::NoSuchLayer(id) && id == layer_id
                } else {
                    e matches WorkspaceError::NotFillLayer(id) && id == layer_id
                },
            },
    {
        if self.layer_in_use(layer_id) {
            return Err(WorkspaceError::LayerInUse(layer_id));
        }
        let n = self.layers.layers.len();
        if layer_id >= n as u64 {
            return Err(WorkspaceError::NoSuchLayer(layer_id));
        }
        let idu = layer_id as usize;
        proof {
            assert(idu as int == layer_id as int);
        }
        match &self.layers.layers[idu] {
            Layer::Fill { data } => {
                let mut d2 = data.duplicated();
                let ghost d0 = *data;
                proof {
                    assert(d2.title@ == d0.title@);
                    assert(d2.atoms.data@ == d0.atoms.data@);
                    assert(d2.bonds.view_rows() == d0.bonds.view_rows());
                    assert(d2.ids.entries() == d0.ids.entries());
                    assert(d2.groups.pairs() == d0.groups.pairs());
                    assert(layer_wf(&self.layers.layers@[idu as int]));
                    assert(d2.wf());
                }
                let nb = bonds.len();
                for i in 0..nb
                    invariant
                        nb == bonds@.len(),
                        forall|k: int|
                            0 <= k < nb ==> (#[trigger] bonds@[k]).0 < usize::MAX && bonds@[k].1
                                < usize::MAX,
                        d2.title@ == d0.title@,
                        d2.atoms.data@ == d0.atoms.data@,
                        d2.ids.entries() == d0.ids.entries(),
                        d2.groups.pairs() == d0.groups.pairs(),
                        d2.ids.wf(),
                        d2.groups.wf(),
                        d2.bonds.wf(),
                        d2.bonds.view_rows().len() == raw_bonds_len_outcome(
                            &d0.bonds,
                            bonds@.subrange(0, i as int),
                        ),
                        forall|x: int, y: int| #[trigger]
                            d2.bonds.spec_bond(x, y) == raw_bonds_outcome(
                                &d0.bonds,
                                bonds@.subrange(0, i as int),
                                x,
                                y,
                            ),
                {
                    d2.bonds.set_bond(bonds[i].0, bonds[i].1, bonds[i].2);
                    proof {
                        assert(bonds@.subrange(0, i + 1).drop_last() =~= bonds@.subrange(
                            0,
                            i as int,
                        ));
                        assert(bonds@.subrange(0, i + 1).last() == bonds@[i as int]);
                    }
                }
                proof {
                    assert(bonds@.subrange(0, nb as int) =~= bonds@);
                }
                self.layers.layers.set(idu, Layer::Fill { data: d2 });
                self.cache = StackCache::new();
                proof {
                    assert forall|k: int|
                        0 <= k < self.layers.layers@.len() implies layer_wf(
                        &self.layers.layers@[k],
                    ) by {
                        if k != idu {
                            assert(self.layers.layers@[k] == old(self).layers.layers@[k]);
                        }
                    }
                }
                Ok(())
            },
            _ => Err(WorkspaceError::NotFillLayer(layer_id)),
        }
    }
}

} // verus!
