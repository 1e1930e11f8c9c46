//! The name index: unique symbolic names for atom indices.
//!
//! A map from name strings to atom indices, held as a vector of pairs with
//! pairwise-distinct keys, in insertion order.

use vstd::prelude::*;
use crate::n_to_n::pair_views;

verus! {

broadcast use vstd::seq_lib::lemma_seq_contains_after_push;

/// The key sequences of a pair sequence.
pub open spec fn keys_of(s: Seq<(Seq<char>, usize)>) -> Seq<Seq<char>> {
    s.map_values(|p: (Seq<char>, usize)| p.0)
}

/// A map from unique names to atom indices.
#[derive(Debug)]
pub struct NameIndex {
    pub data: Vec<(String, usize)>,
}

impl NameIndex {
    /// The entries, with names abstracted to character sequences.
    pub open spec fn entries(&self) -> Seq<(Seq<char>, usize)> {
        pair_views(self.data@)
    }

    /// Whether name `k` is bound to index `v`.
    pub open spec fn has(&self, k: Seq<char>, v: usize) -> bool {
        self.entries().contains((k, v))
    }

    /// Whether name `k` is bound at all.
    pub open spec fn has_key(&self, k: Seq<char>) -> bool {
        keys_of(self.entries()).contains(k)
    }

    /// Well-formed: no name is bound twice.
    pub open spec fn wf(&self) -> bool {
        keys_of(self.entries()).no_duplicates()
    }

    /// An empty name index.
    pub fn new() -> (r: Self)
        ensures
            r.entries() =~= Seq::<(Seq<char>, usize)>::empty(),
            r.wf(),
    {
        NameIndex { data: Vec::new() }
    }

    /// The number of bound names.
    pub fn len(&self) -> (r: usize)
        ensures
            r == self.entries().len(),
    {
        self.data.len()
    }

    /// An equal copy of the index.
    pub fn duplicated(&self) -> (r: Self)
        ensures
            r.data@ =~= self.data@,
    {
        let mut out: Vec<(String, usize)> = Vec::new();
        let n = self.data.len();
        for i in 0..n
            invariant
                n == self.data.len(),
                out@ =~= self.data@.subrange(0, i as int),
        {
            out.push((self.data[i].0.clone(), self.data[i].1));
            assert(out@ =~= self.data@.subrange(0, i + 1));
        }
        NameIndex { data: out }
    }

    /// The value bound to `k`, as a function: the bound index where the
    /// key is bound, `None` otherwise.
    pub open spec fn spec_get(&self, k: Seq<char>) -> Option<usize> {
        if exists|v: usize| self.has(k, v) {
            Some(choose|v: usize| self.has(k, v))
        } else {
            None
        }
    }

    /// In a well-formed index a key is bound to at most one value, so a
    /// witnessed binding pins `spec_get` down.
    pub proof fn lemma_get_unique(&self, k: Seq<char>, v: usize)
        requires
            self.wf(),
            self.has(k, v),
        ensures
            self.spec_get(k) == Some(v),
    {
        let v2 = choose|v2: usize| self.has(k, v2);
        if v2 != v {
            let i = choose|i: int| 0 <= i < self.entries().len() && self.entries()[i] == (k, v);
            let j = choose|j: int| 0 <= j < self.entries().len() && self.entries()[j] == (k, v2);
            assert(keys_of(self.entries())[i] == k);
            assert(keys_of(self.entries())[j] == k);
        }
    }

    /// A key is bound exactly when `spec_get` answers.
    pub proof fn lemma_get_key(&self, k: Seq<char>)
        ensures
            self.has_key(k) <==> self.spec_get(k) is Some,
    {
        if self.has_key(k) {
            let i = choose|i: int|
                0 <= i < keys_of(self.entries()).len() && keys_of(self.entries())[i] == k;
            assert(self.entries()[i] == (k, (self.entries()[i]).1));
            assert(self.has(k, (self.entries()[i]).1));
        }
        if self.spec_get(k) is Some {
            let v = choose|v: usize| self.has(k, v);
            let i = choose|i: int| 0 <= i < self.entries().len() && self.entries()[i] == (k, v);
            assert(keys_of(self.entries())[i] == k);
        }
    }

    /// The index bound to `name`, if any.
    pub fn get(&self, name: &String) -> (r: Option<usize>)
        requires
            self.wf(),
        ensures
            r == self.spec_get(name@),
            match r {
                Some(v) => self.has(name@, v),
                None => !self.has_key(name@),
            },
    {
        proof {
            self.lemma_get_key(name@);
            if self.has_key(name@) {
                let v = choose|v: usize| self.has(name@, v);
                self.lemma_get_unique(name@, v);
            }
        }
        let n = self.data.len();
        for i in 0..n
            invariant
                self.wf(),
                n == self.data.len(),
                forall|j: int| 0 <= j < i ==> keys_of(self.entries())[j] != name@,
        {
            if self.data[i].0 == *name {
                assert(self.entries()[i as int] == (name@, self.data@[i as int].1));
                proof {
                    self.lemma_get_unique(name@, self.data@[i as int].1);
                }
                return Some(self.data[i].1);
            }
            assert(keys_of(self.entries())[i as int] == self.data@[i as int].0@);
        }
        proof {
            if self.has_key(name@) {
                let k = choose|k: int|
                    0 <= k < keys_of(self.entries()).len() && keys_of(self.entries())[k] == name@;
            }
        }
        None
    }

    /// Binds `name` to `index`, replacing any previous binding.
    pub fn insert(&mut self, name: String, index: usize)
        requires
            old(self).wf(),
        ensures
            final(self).wf(),
            forall|k: Seq<char>, v: usize| #[trigger]
                final(self).has(k, v) <==> ((k, v) == (name@, index) || (old(self).has(k, v) && k
                    != name@)),
            forall|k: Seq<char>| #[trigger]
                final(self).has_key(k) <==> (k == name@ || old(self).has_key(k)),
    {
        let n = self.data.len();
        let mut found: Option<usize> = None;
        for i in 0..n
            invariant
                n == self.data.len(),
                *self == *old(self),
                match found {
                    Some(fi) => fi < n && self.entries()[fi as int].0 == name@,
                    None => forall|j: int| 0 <= j < i ==> self.entries()[j].0 != name@,
                },
        {
            if found.is_none() && self.data[i].0 == name {
                assert(self.entries()[i as int].0 == name@);
                found = Some(i);
            }
        }
        match found {
            Some(fi) => {
                let nm = self.data[fi].0.clone();
                self.data.set(fi, (nm, index));
                proof {
                    lemma_replace_entry(old(self).entries(), self.entries(), fi as int, name@, index);
                }
            },
            None => {
                self.data.push((name, index));
                proof {
                    lemma_append_entry(old(self).entries(), self.entries(), name@, index);
                }
            },
        }
    }

    /// The index with every bound value shifted up by `off`.
    pub fn offset_indices(&self, off: usize) -> (r: Self)
        requires
            forall|i: int|
                0 <= i < self.entries().len() ==> (#[trigger] self.entries()[i]).1 + off
                    <= usize::MAX,
        ensures
            r.entries() =~~= crate::n_to_n::shift_pairs(self.entries(), off as int),
            self.wf() ==> r.wf(),
    {
        let mut out: Vec<(String, usize)> = Vec::new();
        let n = self.data.len();
        for i in 0..n
            invariant
                n == self.data@.len(),
                forall|j: int|
                    0 <= j < n ==> (#[trigger] self.entries()[j]).1 + off <= usize::MAX,
                out@.len() == i,
                pair_views(out@) =~~= crate::n_to_n::shift_pairs(
                    self.entries().subrange(0, i as int),
                    off as int,
                ),
        {
            assert((self.entries()[i as int]).1 + off <= usize::MAX);
            let ghost prev = out@;
            let nm = self.data[i].0.clone();
            assert(nm@ == self.data@[i as int].0@);
            out.push((nm, self.data[i].1 + off));
            proof {
                let lhs = pair_views(out@);
                let rhs = crate::n_to_n::shift_pairs(
                    self.entries().subrange(0, i + 1),
                    off as int,
                );
                assert(lhs.len() == rhs.len());
                assert forall|j: int| 0 <= j < lhs.len() implies lhs[j] == rhs[j] by {
                    if j < i {
                        assert(lhs[j] == pair_views(prev)[j]);
                        assert(pair_views(prev)[j] == crate::n_to_n::shift_pairs(
                            self.entries().subrange(0, i as int),
                            off as int,
                        )[j]);
                        assert(self.entries().subrange(0, i + 1)[j] == self.entries().subrange(
                            0,
                            i as int,
                        )[j]);
                    } else {
                        assert(self.entries().subrange(0, i + 1)[i as int] == self.entries()[
                            i as int
                        ]);
                    }
                }
                assert(lhs =~~= rhs);
            }
        }
        proof {
            assert(self.entries().subrange(0, n as int) =~= self.entries());
            let rp = crate::n_to_n::shift_pairs(self.entries(), off as int);
            assert(keys_of(rp) =~= keys_of(self.entries()));
        }
        NameIndex { data: out }
    }

    /// The index with every name prefixed by `prefix`.
    pub fn prefixed(&self, prefix: &String) -> (r: Self)
        ensures
            r.entries() =~~= crate::n_to_n::prefix_pairs(self.entries(), prefix@),
            self.wf() ==> r.wf(),
    {
        let mut out: Vec<(String, usize)> = Vec::new();
        let n = self.data.len();
        for i in 0..n
            invariant
                n == self.data@.len(),
                out@.len() == i,
                pair_views(out@) =~~= crate::n_to_n::prefix_pairs(
                    self.entries().subrange(0, i as int),
                    prefix@,
                ),
        {
            let ghost prev = out@;
            let name = prefix.clone().concat(self.data[i].0.as_str());
            assert(name@ == prefix@ + self.data@[i as int].0@);
            out.push((name, self.data[i].1));
            proof {
                let lhs = pair_views(out@);
                let rhs = crate::n_to_n::prefix_pairs(
                    self.entries().subrange(0, i + 1),
                    prefix@,
                );
                assert(lhs.len() == rhs.len());
                assert forall|j: int| 0 <= j < lhs.len() implies lhs[j] == rhs[j] by {
                    if j < i {
                        assert(lhs[j] == pair_views(prev)[j]);
                        assert(pair_views(prev)[j] == crate::n_to_n::prefix_pairs(
                            self.entries().subrange(0, i as int),
                            prefix@,
                        )[j]);
                        assert(self.entries().subrange(0, i + 1)[j] == self.entries().subrange(
                            0,
                            i as int,
                        )[j]);
                    } else {
                        assert(self.entries().subrange(0, i + 1)[i as int] == self.entries()[
                            i as int
                        ]);
                    }
                }
                assert(lhs =~~= rhs);
            }
        }
        proof {
            assert(self.entries().subrange(0, n as int) =~= self.entries());
            let rp = crate::n_to_n::prefix_pairs(self.entries(), prefix@);
            if self.wf() {
                assert forall|a: int, b: int| 0 <= a < b < keys_of(rp).len() implies keys_of(
                    rp,
                )[a] != keys_of(rp)[b] by {
                    assert(keys_of(self.entries())[a] != keys_of(self.entries())[b]);
                    crate::n_to_n::lemma_prefix_injective(
                        prefix@,
                        (self.entries()[a]).0,
                        (self.entries()[b]).0,
                    );
                }
            }
        }
        NameIndex { data: out }
    }

    /// Copies every binding of `other` into this index; `other` wins on
    /// names bound in both.
    pub fn extend(&mut self, other: &NameIndex)
        requires
            old(self).wf(),
            other.wf(),
        ensures
            final(self).wf(),
            forall|k: Seq<char>, v: usize| #[trigger]
                final(self).has(k, v) <==> (other.has(k, v) || (old(self).has(k, v)
                    && !other.has_key(k))),
            forall|k: Seq<char>| #[trigger]
                final(self).has_key(k) <==> (other.has_key(k) || old(self).has_key(k)),
    {
        let n = other.data.len();
        for i in 0..n
            invariant
                n == other.data.len(),
                other.wf(),
                self.wf(),
                forall|k: Seq<char>, v: usize| #[trigger]
                    self.has(k, v) <==> (other.entries().subrange(0, i as int).contains((k, v))
                        || (old(self).has(k, v) && !keys_of(
                        other.entries().subrange(0, i as int),
                    ).contains(k))),
                forall|k: Seq<char>| #[trigger]
                    self.has_key(k) <==> (keys_of(other.entries().subrange(0, i as int)).contains(k)
                        || old(self).has_key(k)),
        {
            self.insert(other.data[i].0.clone(), other.data[i].1);
            proof {
                lemma_extend_step(other.entries(), i as int);
                let nm = other.entries()[i as int].0;
                assert(other.entries()[i as int] == (other.data@[i as int].0@, other.data@[i as int].1));
                assert(!keys_of(other.entries().subrange(0, i as int)).contains(nm)) by {
                    if keys_of(other.entries().subrange(0, i as int)).contains(nm) {
                        let m = choose|m: int|
                            0 <= m < i && #[trigger] keys_of(
                                other.entries().subrange(0, i as int),
                            )[m] == nm;
                        assert(keys_of(other.entries())[m] == nm);
                        assert(keys_of(other.entries())[i as int] == nm);
                        assert(false);
                    }
                }
                assert forall|k: Seq<char>, v: usize| other.entries().subrange(0, i + 1).contains(
                    (k, v),
                ) && k != nm implies other.entries().subrange(0, i as int).contains((k, v)) by {
                    let m = choose|m: int|
                        0 <= m <= i && #[trigger] other.entries().subrange(0, i + 1)[m] == (k, v);
                    assert(other.entries().subrange(0, i as int)[m] == (k, v));
                }
                assert forall|k: Seq<char>, v: usize|
                    other.entries().subrange(0, i as int).contains((k, v)) implies #[trigger]
                    other.entries().subrange(0, i + 1).contains((k, v)) by {
                    let m = choose|m: int|
                        0 <= m < i && #[trigger] other.entries().subrange(0, i as int)[m] == (k, v);
                    assert(other.entries().subrange(0, i + 1)[m] == (k, v));
                }
                assert(other.entries().subrange(0, i + 1)[i as int] == other.entries()[i as int]);
                assert forall|k: Seq<char>|
                    keys_of(other.entries().subrange(0, i as int)).contains(k) implies #[trigger]
                    keys_of(other.entries().subrange(0, i + 1)).contains(k) by {
                    let m = choose|m: int|
                        0 <= m < i && #[trigger] keys_of(
                            other.entries().subrange(0, i as int),
                        )[m] == k;
                    assert(keys_of(other.entries().subrange(0, i + 1))[m] == k);
                }
                assert forall|k: Seq<char>|
                    keys_of(other.entries().subrange(0, i + 1)).contains(k) && k != nm implies
                    #[trigger] keys_of(other.entries().subrange(0, i as int)).contains(k) by {
                    let m = choose|m: int|
                        0 <= m <= i && #[trigger] keys_of(
                            other.entries().subrange(0, i + 1),
                        )[m] == k;
                    assert(keys_of(other.entries().subrange(0, i as int))[m] == k);
                }
                assert(keys_of(other.entries().subrange(0, i + 1))[i as int] == nm);
                assert(keys_of(other.entries().subrange(0, i + 1)).contains(nm));
                assert(other.entries().subrange(0, i + 1).contains(other.entries()[i as int]));
                assert forall|v: usize| #[trigger]
                    other.entries().subrange(0, i + 1).contains((nm, v)) implies v == other.data@[
                        i as int
                    ].1 by {
                    let m = choose|m: int|
                        0 <= m <= i && #[trigger] other.entries().subrange(0, i + 1)[m] == (nm, v);
                    if m < i {
                        assert(other.entries().subrange(0, i as int)[m] == (nm, v));
                        assert(keys_of(other.entries().subrange(0, i as int))[m] == nm);
                        assert(false);
                    }
                }
            }
        }
        proof {
            assert(other.entries().subrange(0, n as int) =~= other.entries());
        }
    }
}

proof fn lemma_extend_step(s: Seq<(Seq<char>, usize)>, i: int)
    requires
        0 <= i < s.len(),
    ensures
        s.subrange(0, i + 1) =~= s.subrange(0, i).push(s[i]),
        keys_of(s.subrange(0, i + 1)) =~= keys_of(s.subrange(0, i)).push(s[i].0),
{
}

proof fn lemma_replace_entry(
    prev: Seq<(Seq<char>, usize)>,
    cur: Seq<(Seq<char>, usize)>,
    i: int,
    name: Seq<char>,
    index: usize,
)
    requires
        keys_of(prev).no_duplicates(),
        0 <= i < prev.len(),
        prev[i].0 == name,
        cur =~= prev.update(i, (name, index)),
    ensures
        keys_of(cur).no_duplicates(),
        forall|k: Seq<char>, v: usize| #[trigger]
            cur.contains((k, v)) <==> ((k, v) == (name, index) || (prev.contains((k, v)) && k
                != name)),
        forall|k: Seq<char>| #[trigger]
            keys_of(cur).contains(k) <==> (k == name || keys_of(prev).contains(k)),
    {
    assert(keys_of(cur) =~= keys_of(prev).update(i, name));
    assert(keys_of(cur) =~= keys_of(prev));
    assert forall|k: Seq<char>, v: usize| #[trigger] cur.contains((k, v)) implies ((k, v) == (
        name,
        index,
    ) || (prev.contains((k, v)) && k != name)) by {
        let m = choose|m: int| 0 <= m < cur.len() && cur[m] == (k, v);
        if m != i {
            assert(prev[m] == (k, v));
            assert(keys_of(prev)[m] == k);
            assert(keys_of(prev)[i] == name);
        }
    }
    assert forall|k: Seq<char>, v: usize|
        ((k, v) == (name, index) || (prev.contains((k, v)) && k != name)) implies #[trigger]
        cur.contains((k, v)) by {
        if (k, v) == (name, index) {
            assert(cur[i] == (k, v));
        } else {
            let m = choose|m: int| 0 <= m < prev.len() && prev[m] == (k, v);
            assert(keys_of(prev)[m] == k);
            assert(keys_of(prev)[i] == name);
            assert(cur[m] == (k, v));
        }
    }
    assert forall|k: Seq<char>| #[trigger] keys_of(cur).contains(k) implies (k == name || keys_of(
        prev,
    ).contains(k)) by {
        let m = choose|m: int| 0 <= m < keys_of(cur).len() && keys_of(cur)[m] == k;
        if m != i {
            assert(keys_of(prev)[m] == k);
        }
    }
    assert forall|k: Seq<char>| (k == name || keys_of(prev).contains(k)) implies #[trigger] keys_of(
        cur,
    ).contains(k) by {
        if k == name {
            assert(keys_of(cur)[i] == name);
        } else {
            let m = choose|m: int| 0 <= m < keys_of(prev).len() && keys_of(prev)[m] == k;
            assert(keys_of(cur)[m] == k);
        }
    }
}

proof fn lemma_append_entry(
    prev: Seq<(Seq<char>, usize)>,
    cur: Seq<(Seq<char>, usize)>,
    name: Seq<char>,
    index: usize,
)
    requires
        keys_of(prev).no_duplicates(),
        !keys_of(prev).contains(name),
        cur =~= prev.push((name, index)),
    ensures
        keys_of(cur).no_duplicates(),
        forall|k: Seq<char>, v: usize| #[trigger]
            cur.contains((k, v)) <==> ((k, v) == (name, index) || (prev.contains((k, v)) && k
                != name)),
        forall|k: Seq<char>| #[trigger]
            keys_of(cur).contains(k) <==> (k == name || keys_of(prev).contains(k)),
{
    assert(keys_of(cur) =~= keys_of(prev).push(name));
    assert forall|k: Seq<char>, v: usize| #[trigger] cur.contains((k, v)) implies ((k, v) == (
        name,
        index,
    ) || (prev.contains((k, v)) && k != name)) by {
        let m = choose|m: int| 0 <= m < cur.len() && cur[m] == (k, v);
        if m < prev.len() {
            assert(prev[m] == (k, v));
            assert(keys_of(prev)[m] == k);
        }
    }
    assert forall|k: Seq<char>, v: usize|
        ((k, v) == (name, index) || (prev.contains((k, v)) && k != name)) implies #[trigger]
        cur.contains((k, v)) by {
        if (k, v) == (name, index) {
            assert(cur[cur.len() - 1] == (k, v));
        } else {
            let m = choose|m: int| 0 <= m < prev.len() && prev[m] == (k, v);
            assert(cur[m] == (k, v));
        }
    }
    assert forall|a: int, b: int| 0 <= a < b < keys_of(cur).len() implies keys_of(cur)[a]
        != keys_of(cur)[b] by {
        if b < prev.len() {
            assert(keys_of(prev)[a] != keys_of(prev)[b]);
        } else {
            assert(keys_of(cur)[a] == keys_of(prev)[a]);
            assert(keys_of(prev).contains(keys_of(prev)[a]));
        }
    }
}

} // verus!
