//! A bidirectional many-to-many relation between names and atom indices.
//!
//! The relation is a deduplicated sequence of `(name, index)` pairs; both
//! directions are answered by scanning the one sequence, so the two views
//! can never fall out of sync.  Insertion order is kept, which makes the
//! stored form deterministic.

use vstd::prelude::*;

verus! {

broadcast use vstd::seq_lib::lemma_seq_contains_after_push;

/// The pairwise relation: a set of `(left, right)` pairs held as a
/// duplicate-free vector in insertion order.
#[derive(Debug)]
pub struct NtoN {
    pub data: Vec<(String, usize)>,
}

impl NtoN {
    /// The pairs, with names abstracted to character sequences.
    pub open spec fn pairs(&self) -> Seq<(Seq<char>, usize)> {
        pair_views(self.data@)
    }

    /// Whether the relation holds the pair `(l, r)`.
    pub open spec fn has(&self, l: Seq<char>, r: usize) -> bool {
        self.pairs().contains((l, r))
    }

    /// Well-formed: no pair occurs twice.
    pub open spec fn wf(&self) -> bool {
        self.pairs().no_duplicates()
    }

    /// An empty relation.
    pub fn new() -> (r: Self)
        ensures
            r.pairs() =~= Seq::<(Seq<char>, usize)>::empty(),
            r.wf(),
    {
        NtoN { data: Vec::new() }
    }

    /// The raw pair storage.
    pub fn data(&self) -> (r: &Vec<(String, usize)>)
        ensures
            r == &self.data,
    {
        &self.data
    }

    /// Whether the pair `(left, right)` is present.
    pub fn contains(&self, left: &String, right: usize) -> (r: bool)
        ensures
            r == self.has(left@, right),
    {
        let n = self.data.len();
        for i in 0..n
            invariant
                n == self.data.len(),
                forall|j: int| 0 <= j < i ==> self.pairs()[j] != (left@, right),
        {
            if self.data[i].0 == *left && self.data[i].1 == right {
                assert(self.pairs()[i as int] == (left@, right));
                return true;
            }
        }
        false
    }

    /// An equal copy of the relation.
    pub fn duplicated(&self) -> (r: Self)
        ensures
            r.data@ =~= self.data@,
    {
        let mut out: Vec<(String, usize)> = Vec::new();
        let n = self.data.len();
        for i in 0..n
            invariant
                n == self.data.len(),
                out@ =~= self.data@.subrange(0, i as int),
        {
            out.push((self.data[i].0.clone(), self.data[i].1));
            assert(out@ =~= self.data@.subrange(0, i + 1));
        }
        NtoN { data: out }
    }

    /// Inserts the pair if it is absent; reports whether it was new.
    pub fn insert(&mut self, left: String, right: usize) -> (added: bool)
        requires
            old(self).wf(),
        ensures
            final(self).wf(),
            added == !old(self).has(left@, right),
            added ==> final(self).pairs() =~= old(self).pairs().push((left@, right)),
            !added ==> final(self).data@ == old(self).data@,
            forall|l: Seq<char>, x: usize| #[trigger]
                final(self).has(l, x) <==> (old(self).has(l, x) || (l, x) == (left@, right)),
    {
        let present = self.contains(&left, right);
        if !present {
            self.data.push((left, right));
            assert(self.pairs() =~= old(self).pairs().push((left@, right)));
        }
        proof {
            assert forall|l: Seq<char>, x: usize| #[trigger]
                self.has(l, x) <==> (old(self).has(l, x) || (l, x) == (left@, right)) by {
                if !present {
                    if self.has(l, x) {
                        let k = choose|k: int|
                            0 <= k < self.pairs().len() && self.pairs()[k] == (l, x);
                        if k < old(self).pairs().len() {
                            assert(old(self).pairs()[k] == (l, x));
                        }
                    }
                    if old(self).has(l, x) {
                        let k = choose|k: int|
                            0 <= k < old(self).pairs().len() && old(self).pairs()[k] == (l, x);
                        assert(self.pairs()[k] == (l, x));
                    }
                    if (l, x) == (left@, right) {
                        assert(self.pairs()[self.pairs().len() - 1] == (l, x));
                    }
                }
            }
        }
        !present
    }

    /// All rights associated with `left`, each once, in storage order:
    /// exactly the filtered pair sequence.
    pub fn get_left(&self, left: &String) -> (r: Vec<usize>)
        requires
            self.wf(),
        ensures
            r@ == rights_for(self.pairs(), left@),
            r@.no_duplicates(),
            forall|x: usize| #[trigger] r@.contains(x) <==> self.has(left@, x),
    {
        let mut out: Vec<usize> = Vec::new();
        let n = self.data.len();
        for i in 0..n
            invariant
                n == self.data.len(),
                self.wf(),
                out@.no_duplicates(),
                out@ == rights_for(self.pairs().subrange(0, i as int), left@),
                forall|x: usize| #[trigger] out@.contains(x)
                    <==> self.pairs().subrange(0, i as int).contains((left@, x)),
        {
            let ghost prev = out@;
            if self.data[i].0 == *left {
                assert(self.pairs()[i as int] == (left@, self.data@[i as int].1));
                proof {
                    let xv = self.data@[i as int].1;
                    if prev.contains(xv) {
                        let k = choose|k: int|
                            0 <= k < i && #[trigger] self.pairs().subrange(0, i as int)[k] == (
                            left@,
                            xv,
                        );
                        assert(self.pairs()[k] == (left@, xv));
                        assert(false);
                    }
                }
                out.push(self.data[i].1);
                proof {
                    assert forall|a: int, b: int|
                        0 <= a < b < out@.len() implies out@[a] != out@[b] by {
                        if b == prev.len() {
                            assert(out@[a] == prev[a]);
                            assert(prev.contains(prev[a]));
                        }
                    }
                }
            }
            proof {
                lemma_prefix_left_membership(
                    self.pairs(),
                    prev,
                    out@,
                    left@,
                    i as int,
                    self.data@[i as int].0@,
                    self.data@[i as int].1,
                );
                assert(self.pairs().subrange(0, i + 1).drop_last() =~= self.pairs().subrange(
                    0,
                    i as int,
                ));
                assert(self.pairs().subrange(0, i + 1).last() == self.pairs()[i as int]);
                assert(out@ == rights_for(self.pairs().subrange(0, i + 1), left@));
            }
        }
        proof {
            assert(self.pairs().subrange(0, n as int) =~= self.pairs());
        }
        out
    }

    /// All lefts associated with `right`, each once, in storage order:
    /// exactly the filtered pair sequence.
    pub fn get_right(&self, right: usize) -> (r: Vec<String>)
        requires
            self.wf(),
        ensures
            views_of(r@) == lefts_for(self.pairs(), right),
            views_of(r@).no_duplicates(),
            forall|s: Seq<char>| #[trigger] views_of(r@).contains(s) <==> self.has(s, right),
    {
        let mut out: Vec<String> = Vec::new();
        let n = self.data.len();
        for i in 0..n
            invariant
                n == self.data.len(),
                self.wf(),
                views_of(out@).no_duplicates(),
                views_of(out@) == lefts_for(self.pairs().subrange(0, i as int), right),
                forall|s: Seq<char>| #[trigger]
                    views_of(out@).contains(s) <==> self.pairs().subrange(0, i as int).contains(
                        (s, right),
                    ),
        {
            let ghost prev = out@;
            if self.data[i].1 == right {
                assert(self.pairs()[i as int] == (self.data@[i as int].0@, right));
                proof {
                    let sv = self.data@[i as int].0@;
                    if views_of(prev).contains(sv) {
                        let k = choose|k: int|
                            0 <= k < i && #[trigger] self.pairs().subrange(0, i as int)[k] == (
                            sv,
                            right,
                        );
                        assert(self.pairs()[k] == (sv, right));
                        assert(false);
                    }
                }
                out.push(self.data[i].0.clone());
                assert(views_of(out@) =~= views_of(prev).push(self.data@[i as int].0@));
                proof {
                    assert forall|a: int, b: int|
                        0 <= a < b < views_of(out@).len() implies views_of(out@)[a] != views_of(
                        out@,
                    )[b] by {
                        if b == views_of(prev).len() {
                            assert(views_of(out@)[a] == views_of(prev)[a]);
                            assert(views_of(prev).contains(views_of(prev)[a]));
                        }
                    }
                }
            }
            proof {
                lemma_prefix_pair_membership(
                    self.pairs(),
                    views_of(prev),
                    views_of(out@),
                    right,
                    i as int,
                    self.data@[i as int].0@,
                    self.data@[i as int].1,
                );
                assert(self.pairs().subrange(0, i + 1).drop_last() =~= self.pairs().subrange(
                    0,
                    i as int,
                ));
                assert(self.pairs().subrange(0, i + 1).last() == self.pairs()[i as int]);
                assert(views_of(out@) == lefts_for(self.pairs().subrange(0, i + 1), right));
            }
        }
        proof {
            assert(self.pairs().subrange(0, n as int) =~= self.pairs());
        }
        out
    }

    /// Every left name, once each, at its first occurrence, in storage
    /// order: exactly the deduplicated left sequence.
    pub fn get_lefts(&self) -> (r: Vec<String>)
        ensures
            views_of(r@) == lefts_once(self.pairs()),
            views_of(r@).no_duplicates(),
            forall|s: Seq<char>| #[trigger]
                views_of(r@).contains(s) <==> exists|x: usize| #[trigger] self.has(s, x),
    {
        let mut out: Vec<String> = Vec::new();
        let n = self.data.len();
        for i in 0..n
            invariant
                n == self.data@.len(),
                views_of(out@).no_duplicates(),
                views_of(out@) == lefts_once(self.pairs().subrange(0, i as int)),
                forall|s: Seq<char>| #[trigger]
                    views_of(out@).contains(s) <==> exists|j: int|
                        0 <= j < i && (#[trigger] self.pairs()[j]).0 == s,
        {
            let ghost prev = out@;
            if !vec_contains_string(&out, &self.data[i].0) {
                out.push(self.data[i].0.clone());
                proof {
                    assert(views_of(out@) =~= views_of(prev).push(self.data@[i as int].0@));
                    assert forall|a: int, b: int|
                        0 <= a < b < views_of(out@).len() implies views_of(out@)[a] != views_of(
                        out@,
                    )[b] by {
                        if b == views_of(prev).len() {
                            assert(views_of(out@)[a] == views_of(prev)[a]);
                            assert(views_of(prev).contains(views_of(prev)[a]));
                        }
                    }
                }
            }
            proof {
                assert(self.pairs()[i as int].0 == self.data@[i as int].0@);
                assert(self.pairs().subrange(0, i + 1).drop_last() =~= self.pairs().subrange(
                    0,
                    i as int,
                ));
                assert(self.pairs().subrange(0, i + 1).last() == self.pairs()[i as int]);
                assert(views_of(out@) == lefts_once(self.pairs().subrange(0, i + 1)));
                assert forall|s: Seq<char>| #[trigger]
                    views_of(out@).contains(s) <==> exists|j: int|
                        0 <= j < i + 1 && (#[trigger] self.pairs()[j]).0 == s by {
                    if views_of(out@).contains(s) {
                        if views_of(prev).contains(s) {
                            let j = choose|j: int|
                                0 <= j < i && (#[trigger] self.pairs()[j]).0 == s;
                        } else {
                            assert(s == self.data@[i as int].0@);
                            assert((self.pairs()[i as int]).0 == s);
                        }
                    }
                    if exists|j: int| 0 <= j < i + 1 && (#[trigger] self.pairs()[j]).0 == s {
                        let j = choose|j: int|
                            0 <= j < i + 1 && (#[trigger] self.pairs()[j]).0 == s;
                        if j < i {
                            assert(views_of(prev).contains(s));
                            if !views_of(prev).contains(self.data@[i as int].0@) {
                                let k = choose|k: int|
                                    0 <= k < views_of(prev).len() && views_of(prev)[k] == s;
                                assert(views_of(out@)[k] == s);
                            }
                        } else {
                            assert(s == self.data@[i as int].0@);
                            if views_of(prev).contains(s) {
                            } else {
                                assert(views_of(out@)[views_of(out@).len() - 1] == s);
                            }
                        }
                    }
                }
            }
        }
        proof {
            assert(self.pairs().subrange(0, n as int) =~= self.pairs());
            assert forall|s: Seq<char>| #[trigger]
                views_of(out@).contains(s) <==> exists|x: usize| #[trigger] self.has(s, x) by {
                if views_of(out@).contains(s) {
                    let j = choose|j: int| 0 <= j < n && (#[trigger] self.pairs()[j]).0 == s;
                    assert(self.pairs()[j] == (s, (self.pairs()[j]).1));
                    assert(self.has(s, (self.pairs()[j]).1));
                }
                if exists|x: usize| #[trigger] self.has(s, x) {
                    let x = choose|x: usize| #[trigger] self.has(s, x);
                    let j = choose|j: int|
                        0 <= j < self.pairs().len() && #[trigger] self.pairs()[j] == (s, x);
                    assert((self.pairs()[j]).0 == s);
                }
            }
        }
        out
    }

    /// Every right index, once each, ascending.
    pub fn get_rights(&self) -> (r: Vec<usize>)
        ensures
            crate::layer::sorted_unique(r@),
            forall|x: usize| #[trigger]
                r@.contains(x) <==> exists|s: Seq<char>| #[trigger] self.has(s, x),
    {
        let mut out: Vec<usize> = Vec::new();
        let n = self.data.len();
        for i in 0..n
            invariant
                n == self.data@.len(),
                crate::layer::sorted_unique(out@),
                forall|x: usize| #[trigger]
                    out@.contains(x) <==> exists|j: int|
                        0 <= j < i && (#[trigger] self.pairs()[j]).1 == x,
        {
            let ghost prev = out@;
            crate::layer::sorted_insert(&mut out, self.data[i].1);
            proof {
                assert(self.pairs()[i as int].1 == self.data@[i as int].1);
                assert forall|x: usize| #[trigger]
                    out@.contains(x) <==> exists|j: int|
                        0 <= j < i + 1 && (#[trigger] self.pairs()[j]).1 == x by {
                    if out@.contains(x) {
                        if prev.contains(x) {
                            let j = choose|j: int|
                                0 <= j < i && (#[trigger] self.pairs()[j]).1 == x;
                        } else {
                            assert(x == self.data@[i as int].1);
                            assert((self.pairs()[i as int]).1 == x);
                        }
                    }
                    if exists|j: int| 0 <= j < i + 1 && (#[trigger] self.pairs()[j]).1 == x {
                        let j = choose|j: int|
                            0 <= j < i + 1 && (#[trigger] self.pairs()[j]).1 == x;
                        if j < i {
                            assert(prev.contains(x));
                        } else {
                            assert(x == self.data@[i as int].1);
                        }
                    }
                }
            }
        }
        proof {
            assert forall|x: usize| #[trigger]
                out@.contains(x) <==> exists|s: Seq<char>| #[trigger] self.has(s, x) by {
                if out@.contains(x) {
                    let j = choose|j: int| 0 <= j < n && (#[trigger] self.pairs()[j]).1 == x;
                    assert(self.pairs()[j] == ((self.pairs()[j]).0, x));
                    assert(self.has((self.pairs()[j]).0, x));
                }
                if exists|s: Seq<char>| #[trigger] self.has(s, x) {
                    let s = choose|s: Seq<char>| #[trigger] self.has(s, x);
                    let j = choose|j: int|
                        0 <= j < self.pairs().len() && #[trigger] self.pairs()[j] == (s, x);
                    assert((self.pairs()[j]).1 == x);
                }
            }
        }
        out
    }

    /// Associates `left` with every index in `rights`.
    pub fn insert_left(&mut self, left: String, rights: &Vec<usize>)
        requires
            old(self).wf(),
        ensures
            final(self).wf(),
            forall|l: Seq<char>, x: usize| #[trigger]
                final(self).has(l, x) <==> (old(self).has(l, x) || (l == left@
                    && rights@.contains(x))),
    {
        let n = rights.len();
        for i in 0..n
            invariant
                n == rights.len(),
                self.wf(),
                forall|l: Seq<char>, x: usize| #[trigger]
                    self.has(l, x) <==> (old(self).has(l, x) || (l == left@
                        && rights@.subrange(0, i as int).contains(x))),
        {
            self.insert(left.clone(), rights[i]);
            proof {
                assert(rights@.subrange(0, i + 1) =~= rights@.subrange(0, i as int).push(
                    rights@[i as int],
                ));
            }
        }
        proof {
            assert(rights@.subrange(0, n as int) =~= rights@);
        }
    }

    /// Associates every name in `lefts` with `right`.
    pub fn insert_right(&mut self, right: usize, lefts: &Vec<String>)
        requires
            old(self).wf(),
        ensures
            final(self).wf(),
            forall|l: Seq<char>, x: usize| #[trigger]
                final(self).has(l, x) <==> (old(self).has(l, x) || (views_of(lefts@).contains(l)
                    && x == right)),
    {
        let n = lefts.len();
        for i in 0..n
            invariant
                n == lefts.len(),
                self.wf(),
                forall|l: Seq<char>, x: usize| #[trigger]
                    self.has(l, x) <==> (old(self).has(l, x) || (views_of(lefts@).subrange(
                        0,
                        i as int,
                    ).contains(l) && x == right)),
        {
            self.insert(lefts[i].clone(), right);
            proof {
                assert(views_of(lefts@).subrange(0, i + 1) =~= views_of(lefts@).subrange(
                    0,
                    i as int,
                ).push(lefts@[i as int]@));
            }
        }
        proof {
            assert(views_of(lefts@).subrange(0, n as int) =~= views_of(lefts@));
        }
    }

    /// Inserts every pair of `items`.
    pub fn extend(&mut self, items: &Vec<(String, usize)>)
        requires
            old(self).wf(),
        ensures
            final(self).wf(),
            forall|l: Seq<char>, x: usize| #[trigger]
                final(self).has(l, x) <==> (old(self).has(l, x) || pair_views(items@).contains(
                    (l, x),
                )),
    {
        let n = items.len();
        for i in 0..n
            invariant
                n == items.len(),
                self.wf(),
                forall|l: Seq<char>, x: usize| #[trigger]
                    self.has(l, x) <==> (old(self).has(l, x) || pair_views(items@).subrange(
                        0,
                        i as int,
                    ).contains((l, x))),
        {
            self.insert(items[i].0.clone(), items[i].1);
            proof {
                assert(pair_views(items@).subrange(0, i + 1) =~= pair_views(items@).subrange(
                    0,
                    i as int,
                ).push(pair_views(items@)[i as int]));
            }
        }
        proof {
            assert(pair_views(items@).subrange(0, n as int) =~= pair_views(items@));
        }
    }

    /// This relation laid over `other`: the union of both pair sets.
    pub fn overlay_to(&self, other: &Self) -> (r: Self)
        requires
            self.wf(),
            other.wf(),
        ensures
            r.wf(),
            forall|l: Seq<char>, x: usize| #[trigger]
                r.has(l, x) <==> (other.has(l, x) || self.has(l, x)),
    {
        let mut out = other.duplicated();
        out.extend(&self.data);
        out
    }

    /// Removes every pair whose left is `left`.
    pub fn remove_left(&mut self, left: &String)
        requires
            old(self).wf(),
        ensures
            final(self).wf(),
            forall|l: Seq<char>, x: usize| #[trigger]
                final(self).has(l, x) <==> (old(self).has(l, x) && l != left@),
    {
        let mut out: Vec<(String, usize)> = Vec::new();
        let n = self.data.len();
        for i in 0..n
            invariant
                n == self.data.len(),
                *self == *old(self),
                self.wf(),
                pair_views(out@).no_duplicates(),
                forall|l: Seq<char>, x: usize| #[trigger]
                    pair_views(out@).contains((l, x)) <==> (self.pairs().subrange(
                        0,
                        i as int,
                    ).contains((l, x)) && l != left@),
        {
            let ghost prev = out@;
            if !(self.data[i].0 == *left) {
                out.push((self.data[i].0.clone(), self.data[i].1));
                proof {
                    assert(pair_views(out@) =~= pair_views(prev).push(self.pairs()[i as int]));
                    lemma_push_fresh_keeps_no_duplicates(pair_views(prev), self.pairs()[i as int], self.pairs(), i as int);
                }
            }
            proof {
                lemma_filter_step(pair_views(prev), pair_views(out@), self.pairs(), left@, i as int);
            }
        }
        proof {
            assert(self.pairs().subrange(0, n as int) =~= self.pairs());
        }
        self.data = out;
    }

    /// Removes every pair whose right is `right`.
    pub fn remove_right(&mut self, right: usize)
        requires
            old(self).wf(),
        ensures
            final(self).wf(),
            forall|l: Seq<char>, x: usize| #[trigger]
                final(self).has(l, x) <==> (old(self).has(l, x) && x != right),
    {
        let mut out: Vec<(String, usize)> = Vec::new();
        let n = self.data.len();
        for i in 0..n
            invariant
                n == self.data.len(),
                *self == *old(self),
                self.wf(),
                pair_views(out@).no_duplicates(),
                forall|l: Seq<char>, x: usize| #[trigger]
                    pair_views(out@).contains((l, x)) <==> (self.pairs().subrange(
                        0,
                        i as int,
                    ).contains((l, x)) && x != right),
        {
            let ghost prev = out@;
            if self.data[i].1 != right {
                out.push((self.data[i].0.clone(), self.data[i].1));
                proof {
                    assert(pair_views(out@) =~= pair_views(prev).push(self.pairs()[i as int]));
                    lemma_push_fresh_keeps_no_duplicates(pair_views(prev), self.pairs()[i as int], self.pairs(), i as int);
                }
            }
            proof {
                lemma_filter_step_right(pair_views(prev), pair_views(out@), self.pairs(), right, i as int);
            }
        }
        proof {
            assert(self.pairs().subrange(0, n as int) =~= self.pairs());
        }
        self.data = out;
    }

    /// The relation with every index shifted up by `off`.
    pub fn offset_indices(&self, off: usize) -> (r: Self)
        requires
            forall|i: int|
                0 <= i < self.pairs().len() ==> (#[trigger] self.pairs()[i]).1 + off
                    <= usize::MAX,
        ensures
            r.pairs() =~~= shift_pairs(self.pairs(), off as int),
            self.wf() ==> r.wf(),
    {
        let mut out: Vec<(String, usize)> = Vec::new();
        let n = self.data.len();
        for i in 0..n
            invariant
                n == self.data@.len(),
                forall|j: int|
                    0 <= j < n ==> (#[trigger] self.pairs()[j]).1 + off <= usize::MAX,
                out@.len() == i,
                pair_views(out@) =~~= shift_pairs(self.pairs().subrange(0, i as int), off as int),
        {
            assert((self.pairs()[i as int]).1 + off <= usize::MAX);
            let ghost prev = out@;
            let nm = self.data[i].0.clone();
            assert(nm@ == self.data@[i as int].0@);
            out.push((nm, self.data[i].1 + off));
            proof {
                let lhs = pair_views(out@);
                let rhs = shift_pairs(self.pairs().subrange(0, i + 1), off as int);
                assert(lhs.len() == rhs.len());
                assert forall|j: int| 0 <= j < lhs.len() implies lhs[j] == rhs[j] by {
                    if j < i {
                        assert(lhs[j] == pair_views(prev)[j]);
                        assert(pair_views(prev)[j] == shift_pairs(
                            self.pairs().subrange(0, i as int),
                            off as int,
                        )[j]);
                        assert(self.pairs().subrange(0, i + 1)[j] == self.pairs().subrange(
                            0,
                            i as int,
                        )[j]);
                    } else {
                        assert(self.pairs().subrange(0, i + 1)[i as int] == self.pairs()[i as int]);
                    }
                }
                assert(lhs =~~= rhs);
            }
        }
        proof {
            assert(self.pairs().subrange(0, n as int) =~= self.pairs());
            let r = shift_pairs(self.pairs(), off as int);
            if self.wf() {
                assert forall|a: int, b: int| 0 <= a < b < r.len() implies r[a] != r[b] by {
                    assert(self.pairs()[a] != self.pairs()[b]);
                    assert((self.pairs()[a]).1 + off <= usize::MAX);
                    assert((self.pairs()[b]).1 + off <= usize::MAX);
                }
            }
        }
        NtoN { data: out }
    }

    /// The relation with every name prefixed by `prefix`.
    pub fn prefixed(&self, prefix: &String) -> (r: Self)
        ensures
            r.pairs() =~~= prefix_pairs(self.pairs(), prefix@),
            self.wf() ==> r.wf(),
    {
        let mut out: Vec<(String, usize)> = Vec::new();
        let n = self.data.len();
        for i in 0..n
            invariant
                n == self.data@.len(),
                out@.len() == i,
                pair_views(out@) =~~= prefix_pairs(self.pairs().subrange(0, i as int), prefix@),
        {
            let ghost prev = out@;
            let name = prefix.clone().concat(self.data[i].0.as_str());
            assert(name@ == prefix@ + self.data@[i as int].0@);
            out.push((name, self.data[i].1));
            proof {
                let lhs = pair_views(out@);
                let rhs = prefix_pairs(self.pairs().subrange(0, i + 1), prefix@);
                assert(lhs.len() == rhs.len());
                assert forall|j: int| 0 <= j < lhs.len() implies lhs[j] == rhs[j] by {
                    if j < i {
                        assert(lhs[j] == pair_views(prev)[j]);
                        assert(pair_views(prev)[j] == prefix_pairs(
                            self.pairs().subrange(0, i as int),
                            prefix@,
                        )[j]);
                        assert(self.pairs().subrange(0, i + 1)[j] == self.pairs().subrange(
                            0,
                            i as int,
                        )[j]);
                    } else {
                        assert(self.pairs().subrange(0, i + 1)[i as int] == self.pairs()[i as int]);
                    }
                }
                assert(lhs =~~= rhs);
            }
        }
        proof {
            assert(self.pairs().subrange(0, n as int) =~= self.pairs());
            let r = prefix_pairs(self.pairs(), prefix@);
            if self.wf() {
                assert forall|a: int, b: int| 0 <= a < b < r.len() implies r[a] != r[b] by {
                    assert(self.pairs()[a] != self.pairs()[b]);
                    if (self.pairs()[a]).0 != (self.pairs()[b]).0 {
                        lemma_prefix_injective(prefix@, (self.pairs()[a]).0, (self.pairs()[b]).0);
                    }
                }
            }
        }
        NtoN { data: out }
    }

    /// Removes the pair if present; reports whether it was there.
    pub fn remove(&mut self, left: &String, right: usize) -> (removed: bool)
        requires
            old(self).wf(),
        ensures
            final(self).wf(),
            removed == old(self).has(left@, right),
            forall|l: Seq<char>, r: usize| #[trigger]
                final(self).has(l, r) <==> (old(self).has(l, r) && (l, r) != (left@, right)),
    {
        let n = self.data.len();
        for i in 0..n
            invariant
                n == self.data.len(),
                old(self).wf(),
                *self == *old(self),
                forall|j: int| 0 <= j < i ==> self.pairs()[j] != (left@, right),
        {
            if self.data[i].0 == *left && self.data[i].1 == right {
                assert(self.pairs()[i as int] == (left@, right));
                self.data.remove(i);
                proof {
                    assert(self.pairs() =~= old(self).pairs().subrange(0, i as int) + old(
                        self,
                    ).pairs().subrange(i + 1, n as int));
                    lemma_remove_keeps_rest(old(self).pairs(), i as int);
                }
                return true;
            }
        }
        false
    }
}

/// The character-sequence views of a sequence of strings.
pub open spec fn views_of(s: Seq<String>) -> Seq<Seq<char>> {
    s.map_values(|t: String| t@)
}

/// The abstract views of a sequence of stored pairs.
pub open spec fn pair_views(s: Seq<(String, usize)>) -> Seq<(Seq<char>, usize)> {
    s.map_values(|p: (String, usize)| (p.0@, p.1))
}

/// The pairs with every index shifted up by `off`.
pub open spec fn shift_pairs(s: Seq<(Seq<char>, usize)>, off: int) -> Seq<(Seq<char>, usize)> {
    s.map_values(|p: (Seq<char>, usize)| (p.0, (p.1 + off) as usize))
}

/// The pairs with every name prefixed by `prefix`.
pub open spec fn prefix_pairs(s: Seq<(Seq<char>, usize)>, prefix: Seq<char>) -> Seq<
    (Seq<char>, usize),
> {
    s.map_values(|p: (Seq<char>, usize)| (prefix + p.0, p.1))
}

/// What the shifted pair sequence contains: exactly the old pairs with
/// their indices moved up.
pub proof fn lemma_shift_contains(s: Seq<(Seq<char>, usize)>, off: usize)
    requires
        forall|i: int| 0 <= i < s.len() ==> (#[trigger] s[i]).1 + off <= usize::MAX,
    ensures
        forall|l: Seq<char>, x: usize| #[trigger]
            shift_pairs(s, off as int).contains((l, x)) <==> (x >= off && s.contains(
                (l, (x - off) as usize),
            )),
{
    assert forall|l: Seq<char>, x: usize| #[trigger]
        shift_pairs(s, off as int).contains((l, x)) implies (x >= off && s.contains(
        (l, (x - off) as usize),
    )) by {
        let k = choose|k: int|
            0 <= k < shift_pairs(s, off as int).len() && shift_pairs(s, off as int)[k] == (l, x);
        assert(s[k].1 + off <= usize::MAX);
        assert(s[k] == (l, (x - off) as usize));
    }
    assert forall|l: Seq<char>, x: usize|
        x >= off && s.contains((l, (x - off) as usize)) implies #[trigger] shift_pairs(
        s,
        off as int,
    ).contains((l, x)) by {
        let k = choose|k: int| 0 <= k < s.len() && #[trigger] s[k] == (l, (x - off) as usize);
        assert(s[k].1 + off <= usize::MAX);
        assert(shift_pairs(s, off as int)[k] == (l, x));
    }
}

/// Prefixing with the same sequence keeps distinct sequences distinct.
pub proof fn lemma_prefix_injective(prefix: Seq<char>, a: Seq<char>, b: Seq<char>)
    requires
        a != b,
    ensures
        prefix + a != prefix + b,
{
    if prefix + a == prefix + b {
        assert(a =~= b) by {
            assert((prefix + a).len() == (prefix + b).len());
            assert(a.len() == b.len());
            assert forall|i: int| 0 <= i < a.len() implies a[i] == b[i] by {
                assert((prefix + a)[prefix.len() + i] == a[i]);
                assert((prefix + b)[prefix.len() + i] == b[i]);
            }
        }
    }
}

/// The rights paired with `left`, in storage order.
pub open spec fn rights_for(pairs: Seq<(Seq<char>, usize)>, left: Seq<char>) -> Seq<usize>
    decreases pairs.len(),
{
    if pairs.len() == 0 {
        Seq::empty()
    } else {
        let rest = rights_for(pairs.drop_last(), left);
        if pairs.last().0 == left {
            rest.push(pairs.last().1)
        } else {
            rest
        }
    }
}

/// The lefts paired with `right`, in storage order.
pub open spec fn lefts_for(pairs: Seq<(Seq<char>, usize)>, right: usize) -> Seq<Seq<char>>
    decreases pairs.len(),
{
    if pairs.len() == 0 {
        Seq::empty()
    } else {
        let rest = lefts_for(pairs.drop_last(), right);
        if pairs.last().1 == right {
            rest.push(pairs.last().0)
        } else {
            rest
        }
    }
}

/// Every left, kept at its first occurrence, in storage order.
pub open spec fn lefts_once(pairs: Seq<(Seq<char>, usize)>) -> Seq<Seq<char>>
    decreases pairs.len(),
{
    if pairs.len() == 0 {
        Seq::empty()
    } else {
        let rest = lefts_once(pairs.drop_last());
        if rest.contains(pairs.last().0) {
            rest
        } else {
            rest.push(pairs.last().0)
        }
    }
}

/// The left components of a sequence of abstract pairs.
pub open spec fn lefts_of(s: Seq<(Seq<char>, usize)>) -> Seq<Seq<char>> {
    s.map_values(|p: (Seq<char>, usize)| p.0)
}

/// The right components of a sequence of abstract pairs.
pub open spec fn rights_of(s: Seq<(Seq<char>, usize)>) -> Seq<usize> {
    s.map_values(|p: (Seq<char>, usize)| p.1)
}

proof fn lemma_push_fresh_keeps_no_duplicates(
    prev: Seq<(Seq<char>, usize)>,
    p: (Seq<char>, usize),
    pairs: Seq<(Seq<char>, usize)>,
    i: int,
)
    requires
        prev.no_duplicates(),
        pairs.no_duplicates(),
        0 <= i < pairs.len(),
        pairs[i] == p,
        forall|l: Seq<char>, x: usize| #[trigger]
            prev.contains((l, x)) ==> pairs.subrange(0, i).contains((l, x)),
    ensures
        prev.push(p).no_duplicates(),
{
    if prev.contains(p) {
        assert(prev.contains((p.0, p.1)));
        assert(pairs.subrange(0, i).contains((p.0, p.1)));
        let k = choose|k: int| 0 <= k < i && #[trigger] pairs.subrange(0, i)[k] == (p.0, p.1);
        assert(pairs[k] == p);
        assert(false);
    }
    assert forall|a: int, b: int| 0 <= a < b < prev.push(p).len() implies prev.push(p)[a]
        != prev.push(p)[b] by {
        if b < prev.len() {
            assert(prev[a] != prev[b]);
        } else {
            assert(prev.push(p)[a] == prev[a]);
            assert(prev.contains(prev[a]));
        }
    }
}

proof fn lemma_filter_step(
    prev: Seq<(Seq<char>, usize)>,
    cur: Seq<(Seq<char>, usize)>,
    pairs: Seq<(Seq<char>, usize)>,
    left: Seq<char>,
    i: int,
)
    requires
        0 <= i < pairs.len(),
        forall|l: Seq<char>, x: usize| #[trigger]
            prev.contains((l, x)) <==> (pairs.subrange(0, i).contains((l, x)) && l != left),
        pairs[i].0 != left ==> cur =~= prev.push(pairs[i]),
        pairs[i].0 == left ==> cur == prev,
    ensures
        forall|l: Seq<char>, x: usize| #[trigger]
            cur.contains((l, x)) <==> (pairs.subrange(0, i + 1).contains((l, x)) && l != left),
{
    assert forall|l: Seq<char>, x: usize| #[trigger] cur.contains((l, x)) implies (pairs.subrange(
        0,
        i + 1,
    ).contains((l, x)) && l != left) by {
        let k = choose|k: int| 0 <= k < cur.len() && cur[k] == (l, x);
        if k < prev.len() {
            assert(prev.contains((l, x)));
            let m = choose|m: int| 0 <= m < i && pairs.subrange(0, i)[m] == (l, x);
            assert(pairs.subrange(0, i + 1)[m] == (l, x));
        } else {
            assert(cur[k] == pairs[i]);
            assert(pairs.subrange(0, i + 1)[i] == (l, x));
        }
    }
    assert forall|l: Seq<char>, x: usize|
        pairs.subrange(0, i + 1).contains((l, x)) && l != left implies #[trigger] cur.contains(
        (l, x),
    ) by {
        let k = choose|k: int| 0 <= k <= i && #[trigger] pairs.subrange(0, i + 1)[k] == (l, x);
        if k < i {
            assert(pairs.subrange(0, i)[k] == (l, x));
            assert(prev.contains((l, x)));
            let m = choose|m: int| 0 <= m < prev.len() && prev[m] == (l, x);
            if pairs[i].0 != left {
                assert(cur[m] == (l, x));
            }
        } else {
            assert(pairs[i] == (l, x));
            assert(cur[cur.len() - 1] == (l, x));
        }
    }
}

proof fn lemma_filter_step_right(
    prev: Seq<(Seq<char>, usize)>,
    cur: Seq<(Seq<char>, usize)>,
    pairs: Seq<(Seq<char>, usize)>,
    right: usize,
    i: int,
)
    requires
        0 <= i < pairs.len(),
        forall|l: Seq<char>, x: usize| #[trigger]
            prev.contains((l, x)) <==> (pairs.subrange(0, i).contains((l, x)) && x != right),
        pairs[i].1 != right ==> cur =~= prev.push(pairs[i]),
        pairs[i].1 == right ==> cur == prev,
    ensures
        forall|l: Seq<char>, x: usize| #[trigger]
            cur.contains((l, x)) <==> (pairs.subrange(0, i + 1).contains((l, x)) && x != right),
{
    assert forall|l: Seq<char>, x: usize| #[trigger] cur.contains((l, x)) implies (pairs.subrange(
        0,
        i + 1,
    ).contains((l, x)) && x != right) by {
        let k = choose|k: int| 0 <= k < cur.len() && cur[k] == (l, x);
        if k < prev.len() {
            assert(prev.contains((l, x)));
            let m = choose|m: int| 0 <= m < i && pairs.subrange(0, i)[m] == (l, x);
            assert(pairs.subrange(0, i + 1)[m] == (l, x));
        } else {
            assert(cur[k] == pairs[i]);
            assert(pairs.subrange(0, i + 1)[i] == (l, x));
        }
    }
    assert forall|l: Seq<char>, x: usize|
        pairs.subrange(0, i + 1).contains((l, x)) && x != right implies #[trigger] cur.contains(
        (l, x),
    ) by {
        let k = choose|k: int| 0 <= k <= i && #[trigger] pairs.subrange(0, i + 1)[k] == (l, x);
        if k < i {
            assert(pairs.subrange(0, i)[k] == (l, x));
            assert(prev.contains((l, x)));
            let m = choose|m: int| 0 <= m < prev.len() && prev[m] == (l, x);
            if pairs[i].1 != right {
                assert(cur[m] == (l, x));
            }
        } else {
            assert(pairs[i] == (l, x));
            assert(cur[cur.len() - 1] == (l, x));
        }
    }
}

/// Whether a vector of strings contains one reading `x`.
pub fn vec_contains_string(v: &Vec<String>, x: &String) -> (r: bool)
    ensures
        r == views_of(v@).contains(x@),
{
    let n = v.len();
    for i in 0..n
        invariant
            n == v@.len(),
            forall|j: int| 0 <= j < i ==> views_of(v@)[j] != x@,
    {
        if v[i] == *x {
            assert(views_of(v@)[i as int] == x@);
            return true;
        }
        assert(views_of(v@)[i as int] == v@[i as int]@);
    }
    false
}

/// Whether a vector of indices contains `x`.
pub fn vec_contains_usize(v: &Vec<usize>, x: usize) -> (r: bool)
    ensures
        r == v@.contains(x),
{
    let n = v.len();
    for i in 0..n
        invariant
            n == v.len(),
            forall|j: int| 0 <= j < i ==> v@[j] != x,
    {
        if v[i] == x {
            return true;
        }
    }
    false
}

proof fn lemma_prefix_left_membership(
    pairs: Seq<(Seq<char>, usize)>,
    prev: Seq<usize>,
    cur: Seq<usize>,
    left: Seq<char>,
    i: int,
    li: Seq<char>,
    ri: usize,
)
    requires
        0 <= i < pairs.len(),
        pairs[i] == (li, ri),
        forall|x: usize| #[trigger] prev.contains(x) <==> pairs.subrange(0, i).contains((left, x)),
        li == left ==> cur =~= prev.push(ri),
        li != left ==> cur == prev,
    ensures
        forall|x: usize| #[trigger]
            cur.contains(x) <==> pairs.subrange(0, i + 1).contains((left, x)),
{
    assert forall|x: usize| #[trigger] cur.contains(x) implies pairs.subrange(0, i + 1).contains(
        (left, x),
    ) by {
        if prev.contains(x) {
            let k = choose|k: int| 0 <= k < i && pairs.subrange(0, i)[k] == (left, x);
            assert(pairs.subrange(0, i + 1)[k] == (left, x));
        } else {
            assert(li == left && x == ri);
            assert(pairs.subrange(0, i + 1)[i] == (left, x));
        }
    }
    assert forall|x: usize| pairs.subrange(0, i + 1).contains((left, x)) implies #[trigger]
        cur.contains(x) by {
        let k = choose|k: int| 0 <= k <= i && #[trigger] pairs.subrange(0, i + 1)[k] == (left, x);
        if k < i {
            assert(pairs.subrange(0, i)[k] == (left, x));
            assert(prev.contains(x));
            if li == left {
                let j = choose|j: int| 0 <= j < prev.len() && prev[j] == x;
                assert(cur[j] == x);
            }
        } else {
            assert((li, ri) == (left, x));
            assert(cur[cur.len() - 1] == x);
        }
    }
}

proof fn lemma_remove_keeps_rest(s: Seq<(Seq<char>, usize)>, i: int)
    requires
        0 <= i < s.len(),
        s.no_duplicates(),
    ensures
        (s.subrange(0, i) + s.subrange(i + 1, s.len() as int)).no_duplicates(),
        forall|p: (Seq<char>, usize)| #[trigger]
            (s.subrange(0, i) + s.subrange(i + 1, s.len() as int)).contains(p)
                <==> (s.contains(p) && p != s[i]),
{
    let t = s.subrange(0, i) + s.subrange(i + 1, s.len() as int);
    assert forall|p: (Seq<char>, usize)| #[trigger] t.contains(p) implies (s.contains(p) && p
        != s[i]) by {
        let k = choose|k: int| 0 <= k < t.len() && t[k] == p;
        if k < i {
            assert(s[k] == p);
        } else {
            assert(s[k + 1] == p);
        }
    }
    assert forall|p: (Seq<char>, usize)| s.contains(p) && p != s[i] implies #[trigger] t.contains(
        p,
    ) by {
        let k = choose|k: int| 0 <= k < s.len() && s[k] == p;
        if k < i {
            assert(t[k] == p);
        } else {
            assert(t[k - 1] == p);
        }
    }
    assert forall|a: int, b: int| 0 <= a < b < t.len() implies t[a] != t[b] by {
        let ia = if a < i { a } else { a + 1 };
        let ib = if b < i { b } else { b + 1 };
        assert(t[a] == s[ia]);
        assert(t[b] == s[ib]);
    }
}

proof fn lemma_prefix_pair_membership(
    pairs: Seq<(Seq<char>, usize)>,
    prev: Seq<Seq<char>>,
    cur: Seq<Seq<char>>,
    right: usize,
    i: int,
    li: Seq<char>,
    ri: usize,
)
    requires
        0 <= i < pairs.len(),
        pairs[i] == (li, ri),
        forall|s: Seq<char>| prev.contains(s) <==> pairs.subrange(0, i).contains((s, right)),
        ri == right ==> cur =~= prev.push(li),
        ri != right ==> cur == prev,
    ensures
        forall|s: Seq<char>| cur.contains(s) <==> pairs.subrange(0, i + 1).contains((s, right)),
{
    assert forall|s: Seq<char>| cur.contains(s) implies pairs.subrange(0, i + 1).contains(
        (s, right),
    ) by {
        if prev.contains(s) {
            let k = choose|k: int| 0 <= k < i && pairs.subrange(0, i)[k] == (s, right);
            assert(pairs.subrange(0, i + 1)[k] == (s, right));
        } else {
            assert(ri == right && s == li);
            assert(pairs.subrange(0, i + 1)[i] == (s, right));
        }
    }
    assert forall|s: Seq<char>| pairs.subrange(0, i + 1).contains((s, right)) implies cur.contains(
        s,
    ) by {
        let k = choose|k: int| 0 <= k <= i && #[trigger] pairs.subrange(0, i + 1)[k] == (s, right);
        if k < i {
            assert(pairs.subrange(0, i)[k] == (s, right));
            assert(prev.contains(s));
            if ri == right {
                let j = choose|j: int| 0 <= j < prev.len() && prev[j] == s;
                assert(cur[j] == s);
            }
        } else {
            assert((li, ri) == (s, right));
            assert(cur[cur.len() - 1] == s);
        }
    }
}

/// A plain description of a set of indices, used by the friendly input
/// forms: explicit members, an inclusive range, or an include/exclude
/// composition.
#[derive(Debug)]
pub enum IndexCollect {
    Collect(Vec<usize>),
    Range { start: usize, end: usize },
    Complex { includes: Vec<IndexCollect>, excludes: Vec<IndexCollect> },
}

impl IndexCollect {
    /// Whether the description covers index `i`.
    pub open spec fn covers(&self, i: usize) -> bool
        decreases self,
    {
        match self {
            IndexCollect::Collect(v) => v@.contains(i),
            IndexCollect::Range { start, end } => *start <= i <= *end,
            IndexCollect::Complex { includes, excludes } => (exists|j: int|
                0 <= j < includes@.len() && (#[trigger] includes@[j]).covers(i)) && (forall|
                j: int,
            |
                0 <= j < excludes@.len() ==> !(#[trigger] excludes@[j]).covers(i)),
        }
    }

    /// The covered indices, as a strictly sorted vector.
    pub fn collect(&self) -> (r: Vec<usize>)
        ensures
            crate::layer::sorted_unique(r@),
            forall|i: usize| #[trigger] r@.contains(i) <==> self.covers(i),
        decreases self,
    {
        match self {
            IndexCollect::Collect(v) => {
                let mut out: Vec<usize> = Vec::new();
                let n = v.len();
                for i in 0..n
                    invariant
                        n == v@.len(),
                        crate::layer::sorted_unique(out@),
                        forall|y: usize| #[trigger]
                            out@.contains(y) <==> v@.subrange(0, i as int).contains(y),
                {
                    let ghost prev = out@;
                    crate::layer::sorted_insert(&mut out, v[i]);
                    proof {
                        assert forall|y: usize| #[trigger]
                            out@.contains(y) <==> v@.subrange(0, i + 1).contains(y) by {
                            if out@.contains(y) {
                                if prev.contains(y) {
                                    let t = choose|t: int|
                                        0 <= t < i && v@.subrange(0, i as int)[t] == y;
                                    assert(v@.subrange(0, i + 1)[t] == y);
                                } else {
                                    assert(y == v@[i as int]);
                                    assert(v@.subrange(0, i + 1)[i as int] == y);
                                }
                            }
                            if v@.subrange(0, i + 1).contains(y) {
                                let t = choose|t: int|
                                    0 <= t <= i && #[trigger] v@.subrange(0, i + 1)[t] == y;
                                if t < i {
                                    assert(v@.subrange(0, i as int)[t] == y);
                                }
                            }
                        }
                    }
                }
                proof {
                    assert(v@.subrange(0, n as int) =~= v@);
                }
                out
            },
            IndexCollect::Range { start, end } => {
                let mut out: Vec<usize> = Vec::new();
                let st = *start;
                let en = *end;
                if st > en {
                    proof {
                        assert forall|y: usize| !(#[trigger] out@.contains(y)) by {}
                    }
                    return out;
                }
                let count = en - st;
                for k in 0..count
                    invariant
                        count == en - st,
                        out@.len() == k,
                        forall|j: int| 0 <= j < k ==> out@[j] == st + j,
                {
                    out.push(st + k);
                }
                out.push(en);
                proof {
                    assert forall|y: usize| #[trigger] out@.contains(y) <==> (st <= y <= en) by {
                        if st <= y <= en {
                            assert(out@[y - st] == y);
                        }
                    }
                }
                out
            },
            IndexCollect::Complex { includes, excludes } => {
                let mut out: Vec<usize> = Vec::new();
                let ni = includes.len();
                for i in 0..ni
                    invariant
                        self is Complex,
                        self->Complex_includes == *includes,
                        ni == includes@.len(),
                        crate::layer::sorted_unique(out@),
                        forall|y: usize| #[trigger] out@.contains(y) <==> exists|j: int|
                            0 <= j < i && (#[trigger] includes@[j]).covers(y),
                {
                    let sub = includes[i].collect();
                    let ns = sub.len();
                    for t in 0..ns
                        invariant
                            i < ni == includes@.len(),
                            ns == sub@.len(),
                            crate::layer::sorted_unique(sub@),
                            forall|y: usize| #[trigger]
                                sub@.contains(y) <==> (includes@[i as int]).covers(y),
                            crate::layer::sorted_unique(out@),
                            forall|y: usize| #[trigger] out@.contains(y) <==> ((exists|j: int|
                                0 <= j < i && (#[trigger] includes@[j]).covers(y))
                                || sub@.subrange(0, t as int).contains(y)),
                    {
                        let ghost prev = out@;
                        crate::layer::sorted_insert(&mut out, sub[t]);
                        proof {
                            assert(sub@.contains(sub@[t as int]));
                            assert forall|y: usize| #[trigger]
                                out@.contains(y) <==> ((exists|j: int|
                                    0 <= j < i && (#[trigger] includes@[j]).covers(y))
                                    || sub@.subrange(0, t + 1).contains(y)) by {
                                if out@.contains(y) {
                                    if !prev.contains(y) {
                                        assert(y == sub@[t as int]);
                                        assert(sub@.subrange(0, t + 1)[t as int] == y);
                                    } else {
                                        if sub@.subrange(0, t as int).contains(y) {
                                            let u = choose|u: int|
                                                0 <= u < t && sub@.subrange(0, t as int)[u] == y;
                                            assert(sub@.subrange(0, t + 1)[u] == y);
                                        }
                                    }
                                }
                                if sub@.subrange(0, t + 1).contains(y) {
                                    let u = choose|u: int|
                                        0 <= u <= t && #[trigger] sub@.subrange(0, t + 1)[u] == y;
                                    if u < t {
                                        assert(sub@.subrange(0, t as int)[u] == y);
                                    } else {
                                        assert(y == sub@[t as int]);
                                    }
                                }
                            }
                        }
                    }
                    proof {
                        assert(sub@.subrange(0, ns as int) =~= sub@);
                        assert forall|y: usize| #[trigger] out@.contains(y) <==> exists|j: int|
                            0 <= j < i + 1 && (#[trigger] includes@[j]).covers(y) by {
                            if out@.contains(y) {
                                if sub@.contains(y) {
                                    assert((includes@[i as int]).covers(y));
                                } else {
                                    let j = choose|j: int|
                                        0 <= j < i && (#[trigger] includes@[j]).covers(y);
                                }
                            }
                            if exists|j: int| 0 <= j < i + 1 && (#[trigger] includes@[j]).covers(
                                y,
                            ) {
                                let j = choose|j: int|
                                    0 <= j < i + 1 && (#[trigger] includes@[j]).covers(y);
                                if j == i {
                                    assert(sub@.contains(y));
                                }
                            }
                        }
                    }
                }
                let ne = excludes.len();
                let mut idx: usize = 0;
                while idx < ne
                    invariant
                        self is Complex,
                        self->Complex_excludes == *excludes,
                        ne == excludes@.len(),
                        idx <= ne,
                        crate::layer::sorted_unique(out@),
                        forall|y: usize| #[trigger] out@.contains(y) <==> ((exists|j: int|
                            0 <= j < includes@.len() && (#[trigger] includes@[j]).covers(y)) && (
                        forall|j: int|
                            0 <= j < idx ==> !(#[trigger] excludes@[j]).covers(y))),
                    decreases ne - idx,
                {
                    let sub = excludes[idx].collect();
                    let filtered = crate::layer::remove_members(&out, &sub);
                    out = filtered;
                    idx = idx + 1;
                }
                out
            },
        }
    }
}

/// The friendly input form of the relation: names each mapped to an
/// index description.
#[derive(Debug)]
pub struct FriendlyNtoN {
    pub entries: Vec<(String, IndexCollect)>,
}

impl FriendlyNtoN {
    /// The relation the friendly form spells out: each name paired with
    /// every index its description covers.
    pub fn into_relation(&self) -> (r: NtoN)
        ensures
            r.wf(),
            forall|l: Seq<char>, x: usize| #[trigger]
                r.has(l, x) <==> exists|j: int|
                    0 <= j < self.entries@.len() && (#[trigger] self.entries@[j]).0@ == l && (
                    self.entries@[j]).1.covers(x),
    {
        let mut out = NtoN::new();
        let n = self.entries.len();
        for j in 0..n
            invariant
                n == self.entries@.len(),
                out.wf(),
                forall|l: Seq<char>, x: usize| #[trigger]
                    out.has(l, x) <==> exists|k: int|
                        0 <= k < j && (#[trigger] self.entries@[k]).0@ == l && (
                        self.entries@[k]).1.covers(x),
        {
            let members = self.entries[j].1.collect();
            let nm = self.entries[j].0.clone();
            out.insert_left(nm, &members);
            proof {
                assert forall|l: Seq<char>, x: usize| #[trigger]
                    out.has(l, x) <==> exists|k: int|
                        0 <= k < j + 1 && (#[trigger] self.entries@[k]).0@ == l && (
                        self.entries@[k]).1.covers(x) by {
                    if out.has(l, x) {
                        if l == self.entries@[j as int].0@ && members@.contains(x) {
                            assert((self.entries@[j as int]).0@ == l && (
                            self.entries@[j as int]).1.covers(x));
                        } else {
                            if exists|k: int|
                                0 <= k < j && (#[trigger] self.entries@[k]).0@ == l && (
                                self.entries@[k]).1.covers(x) {
                                let k = choose|k: int|
                                    0 <= k < j && (#[trigger] self.entries@[k]).0@ == l && (
                                    self.entries@[k]).1.covers(x);
                            }
                        }
                    }
                    if exists|k: int|
                        0 <= k < j + 1 && (#[trigger] self.entries@[k]).0@ == l && (
                        self.entries@[k]).1.covers(x) {
                        let k = choose|k: int|
                            0 <= k < j + 1 && (#[trigger] self.entries@[k]).0@ == l && (
                            self.entries@[k]).1.covers(x);
                        if k == j {
                            assert(members@.contains(x));
                        }
                    }
                }
            }
        }
        out
    }
}

} // verus!
