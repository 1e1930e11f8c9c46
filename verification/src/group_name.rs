//! The group relation: named groups of atom indices.
//!
//! A thin facade over the pairwise relation, fixing the left side to group
//! names and the right side to atom indices.

use vstd::prelude::*;
use crate::n_to_n::{
    lefts_for, lefts_once, pair_views, rights_for, views_of, FriendlyNtoN, IndexCollect, NtoN,
};

verus! {

/// A many-to-many relation between group names and atom indices.
#[derive(Debug)]
pub struct GroupName {
    pub rel: NtoN,
}

impl GroupName {
    /// The abstract pairs of the relation.
    pub open spec fn pairs(&self) -> Seq<(Seq<char>, usize)> {
        self.rel.pairs()
    }

    /// Whether group `l` holds index `r`.
    pub open spec fn has(&self, l: Seq<char>, r: usize) -> bool {
        self.rel.has(l, r)
    }

    /// Well-formed: no pair occurs twice.
    pub open spec fn wf(&self) -> bool {
        self.rel.wf()
    }

    /// An empty group relation.
    pub fn new() -> (r: Self)
        ensures
            r.pairs() =~= Seq::<(Seq<char>, usize)>::empty(),
            r.wf(),
    {
        GroupName { rel: NtoN::new() }
    }

    /// The raw pair storage.
    pub fn data(&self) -> (r: &Vec<(String, usize)>)
        ensures
            r == &self.rel.data,
    {
        self.rel.data()
    }

    /// Whether the pair `(left, right)` is present.
    pub fn contains(&self, left: &String, right: usize) -> (r: bool)
        ensures
            r == self.has(left@, right),
    {
        self.rel.contains(left, right)
    }

    /// An equal copy of the relation.
    pub fn duplicated(&self) -> (r: Self)
        ensures
            r.rel.data@ =~= self.rel.data@,
    {
        GroupName { rel: self.rel.duplicated() }
    }

    /// Inserts the pair if absent; reports whether it was new.
    pub fn insert(&mut self, left: String, right: usize) -> (added: bool)
        requires
            old(self).wf(),
        ensures
            final(self).wf(),
            added == !old(self).has(left@, right),
            forall|l: Seq<char>, x: usize| #[trigger]
                final(self).has(l, x) <==> (old(self).has(l, x) || (l, x) == (left@, right)),
    {
        self.rel.insert(left, right)
    }

    /// All indices in group `left`, each once, in storage order:
    /// exactly the filtered pair sequence.
    pub fn get_left(&self, left: &String) -> (r: Vec<usize>)
        requires
            self.wf(),
        ensures
            r@ == rights_for(self.pairs(), left@),
            r@.no_duplicates(),
            forall|x: usize| #[trigger] r@.contains(x) <==> self.has(left@, x),
    {
        self.rel.get_left(left)
    }

    /// All group names that hold index `right`, each once, in storage
    /// order: exactly the filtered pair sequence.
    pub fn get_right(&self, right: usize) -> (r: Vec<String>)
        requires
            self.wf(),
        ensures
            views_of(r@) == lefts_for(self.pairs(), right),
            views_of(r@).no_duplicates(),
            forall|s: Seq<char>| #[trigger] views_of(r@).contains(s) <==> self.has(s, right),
    {
        self.rel.get_right(right)
    }

    /// Every group name, once each, at its first occurrence, in storage
    /// order: exactly the deduplicated name sequence.
    pub fn get_lefts(&self) -> (r: Vec<String>)
        ensures
            views_of(r@) == lefts_once(self.pairs()),
            views_of(r@).no_duplicates(),
            forall|s: Seq<char>| #[trigger]
                views_of(r@).contains(s) <==> exists|x: usize| #[trigger] self.has(s, x),
    {
        let r = self.rel.get_lefts();
        proof {
            assert forall|s: Seq<char>| #[trigger] views_of(r@).contains(s) implies exists|
                x: usize,
            | #[trigger] self.has(s, x) by {
                let x = choose|x: usize| #[trigger] self.rel.has(s, x);
                assert(self.has(s, x));
            }
            assert forall|s: Seq<char>, x: usize| #[trigger] self.has(s, x) implies views_of(
                r@,
            ).contains(s) by {
                assert(self.rel.has(s, x));
            }
        }
        r
    }

    /// Every grouped index, once each, ascending.
    pub fn get_rights(&self) -> (r: Vec<usize>)
        ensures
            crate::layer::sorted_unique(r@),
            forall|x: usize| #[trigger]
                r@.contains(x) <==> exists|s: Seq<char>| #[trigger] self.has(s, x),
    {
        let r = self.rel.get_rights();
        proof {
            assert forall|x: usize| #[trigger] r@.contains(x) implies exists|s: Seq<char>|
                #[trigger] self.has(s, x) by {
                let s = choose|s: Seq<char>| #[trigger] self.rel.has(s, x);
                assert(self.has(s, x));
            }
            assert forall|s: Seq<char>, x: usize| #[trigger] self.has(s, x) implies r@.contains(
                x,
            ) by {
                assert(self.rel.has(s, x));
            }
        }
        r
    }

    /// Puts `left` over every index in `rights`.
    pub fn insert_left(&mut self, left: String, rights: &Vec<usize>)
        requires
            old(self).wf(),
        ensures
            final(self).wf(),
            forall|l: Seq<char>, x: usize| #[trigger]
                final(self).has(l, x) <==> (old(self).has(l, x) || (l == left@
                    && rights@.contains(x))),
    {
        self.rel.insert_left(left, rights)
    }

    /// Puts every name in `lefts` over index `right`.
    pub fn insert_right(&mut self, right: usize, lefts: &Vec<String>)
        requires
            old(self).wf(),
        ensures
            final(self).wf(),
            forall|l: Seq<char>, x: usize| #[trigger]
                final(self).has(l, x) <==> (old(self).has(l, x) || (views_of(lefts@).contains(l)
                    && x == right)),
    {
        self.rel.insert_right(right, lefts)
    }

    /// Removes the pair if present; reports whether it was there.
    pub fn remove(&mut self, left: &String, right: usize) -> (removed: bool)
        requires
            old(self).wf(),
        ensures
            final(self).wf(),
            removed == old(self).has(left@, right),
            forall|l: Seq<char>, r: usize| #[trigger]
                final(self).has(l, r) <==> (old(self).has(l, r) && (l, r) != (left@, right)),
    {
        self.rel.remove(left, right)
    }

    /// Removes every pair of group `left`.
    pub fn remove_left(&mut self, left: &String)
        requires
            old(self).wf(),
        ensures
            final(self).wf(),
            forall|l: Seq<char>, x: usize| #[trigger]
                final(self).has(l, x) <==> (old(self).has(l, x) && l != left@),
    {
        self.rel.remove_left(left)
    }

    /// Removes every pair holding index `right`.
    pub fn remove_right(&mut self, right: usize)
        requires
            old(self).wf(),
        ensures
            final(self).wf(),
            forall|l: Seq<char>, x: usize| #[trigger]
                final(self).has(l, x) <==> (old(self).has(l, x) && x != right),
    {
        self.rel.remove_right(right)
    }

    /// Inserts every pair of `items`.
    pub fn extend(&mut self, items: &Vec<(String, usize)>)
        requires
            old(self).wf(),
        ensures
            final(self).wf(),
            forall|l: Seq<char>, x: usize| #[trigger]
                final(self).has(l, x) <==> (old(self).has(l, x) || pair_views(items@).contains(
                    (l, x),
                )),
    {
        self.rel.extend(items)
    }

    /// The relation with every index shifted up by `off`.
    pub fn offset_indices(&self, off: usize) -> (r: Self)
        requires
            forall|i: int|
                0 <= i < self.pairs().len() ==> (#[trigger] self.pairs()[i]).1 + off
                    <= usize::MAX,
        ensures
            r.pairs() =~~= crate::n_to_n::shift_pairs(self.pairs(), off as int),
            self.wf() ==> r.wf(),
    {
        proof {
            assert forall|i: int| 0 <= i < self.rel.pairs().len() implies (#[trigger] self.rel.pairs()[i]).1 + off <= usize::MAX by {
                assert((self.pairs()[i]).1 + off <= usize::MAX);
            }
        }
        GroupName { rel: self.rel.offset_indices(off) }
    }

    /// The relation with every name prefixed by `prefix`.
    pub fn prefixed(&self, prefix: &String) -> (r: Self)
        ensures
            r.pairs() =~~= crate::n_to_n::prefix_pairs(self.pairs(), prefix@),
            self.wf() ==> r.wf(),
    {
        GroupName { rel: self.rel.prefixed(prefix) }
    }

    /// This relation laid over `other`: the union of both pair sets.
    pub fn overlay_to(&self, other: &Self) -> (r: Self)
        requires
            self.wf(),
            other.wf(),
        ensures
            r.wf(),
            forall|l: Seq<char>, x: usize| #[trigger]
                r.has(l, x) <==> (other.has(l, x) || self.has(l, x)),
    {
        GroupName { rel: self.rel.overlay_to(&other.rel) }
    }
}

/// The friendly input form of the group relation: either raw pairs, or
/// group names each mapped to an index description.
#[derive(Debug)]
pub enum FriendlyGroupName {
    UnFriendly(Vec<(String, usize)>),
    Friendly(Vec<(String, IndexCollect)>),
}

impl FriendlyGroupName {
    /// The group relation the friendly form spells out.
    pub fn into_groups(self) -> (r: GroupName)
        ensures
            r.wf(),
            match self {
                FriendlyGroupName::UnFriendly(pairs) => forall|l: Seq<char>, x: usize| #[trigger]
                    r.has(l, x) <==> pair_views(pairs@).contains((l, x)),
                FriendlyGroupName::Friendly(entries) => forall|l: Seq<char>, x: usize| #[trigger]
                    r.has(l, x) <==> exists|j: int|
                        0 <= j < entries@.len() && (#[trigger] entries@[j]).0@ == l && (
                        entries@[j]).1.covers(x),
            },
    {
        match self {
            FriendlyGroupName::UnFriendly(pairs) => {
                let mut rel = NtoN::new();
                rel.extend(&pairs);
                GroupName { rel }
            },
            FriendlyGroupName::Friendly(entries) => {
                let ghost ent = entries@;
                let friendly = FriendlyNtoN { entries };
                proof {
                    assert(friendly.entries@ == ent);
                    assert(self->Friendly_0@ == ent);
                }
                let rel = friendly.into_relation();
                GroupName { rel }
            },
        }
    }
}

} // verus!
