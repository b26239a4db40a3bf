//! A set of strings, kept as a strictly sorted list. Its view is the `Set`
//! of the members' characters.
use crate::text::{insert_sorted_unique, lemma_strictly_sorted_no_duplicates, str_eq, strictly_sorted};
use vstd::prelude::*;

verus! {

pub struct StrSet {
    items: Vec<String>,
}

impl View for StrSet {
    type V = Set<Seq<char>>;

    closed spec fn view(&self) -> Set<Seq<char>> {
        self.items.deep_view().to_set()
    }
}

impl StrSet {
    #[verifier::type_invariant]
    spec fn wf(self) -> bool {
        strictly_sorted(self.items.deep_view())
    }

    /// The members in increasing order.
    pub closed spec fn sorted_seq(self) -> Seq<Seq<char>> {
        self.items.deep_view()
    }

    /// Hands the set's invariant to the caller's proof; runs nothing.
    pub fn order_facts(&self)
        ensures
            strictly_sorted(self.sorted_seq()),
            self.sorted_seq().to_set() == self@,
            self.sorted_seq().no_duplicates(),
            self@.finite(),
            self@.len() == self.sorted_seq().len(),
    {
        proof {
            use_type_invariant(self);
            lemma_strictly_sorted_no_duplicates(self.items.deep_view());
            self.items.deep_view().unique_seq_to_set();
        }
    }

    pub fn new() -> (s: Self)
        ensures
            s@ == Set::<Seq<char>>::empty(),
    {
        let s = StrSet { items: Vec::new() };
        assert(s.items.deep_view() =~= Seq::<Seq<char>>::empty());
        assert(s@ =~= Set::<Seq<char>>::empty());
        s
    }

    pub fn len(&self) -> (n: usize)
        ensures
            n == self@.len(),
    {
        self.order_facts();
        self.items.len()
    }

    pub fn is_empty(&self) -> (r: bool)
        ensures
            r == (self@ == Set::<Seq<char>>::empty()),
    {
        self.order_facts();
        proof {
            if self@.len() == 0 {
                assert(self@ =~= Set::<Seq<char>>::empty());
            }
        }
        self.items.len() == 0
    }

    pub fn contains(&self, x: &str) -> (r: bool)
        ensures
            r == self@.contains(x@),
    {
        let mut i: usize = 0;
        while i < self.items.len()
            invariant
                i <= self.items@.len(),
                forall|j: int| 0 <= j < i ==> self.items@[j]@ != x@,
            decreases self.items@.len() - i,
        {
            if str_eq(self.items[i].as_str(), x) {
                proof {
                    assert(self.items.deep_view()[i as int] == x@);
                }
                return true;
            }
            i = i + 1;
        }
        proof {
            if self@.contains(x@) {
                let j = choose|j: int| 0 <= j < self.items.deep_view().len() && self.items.deep_view()[j] == x@;
                assert(self.items@[j]@ == x@);
            }
        }
        false
    }

    /// Adds `x`; returns whether it was new.
    pub fn insert(&mut self, x: String) -> (added: bool)
        ensures
            final(self)@ == old(self)@.insert(x@),
            added == !old(self)@.contains(x@),
    {
        proof {
            use_type_invariant(&*self);
        }
        let mut items: Vec<String> = Vec::new();
        std::mem::swap(&mut items, &mut self.items);
        let added = insert_sorted_unique(&mut items, x);
        self.items = items;
        added
    }

    /// Removes `x`; returns whether it was present.
    pub fn remove(&mut self, x: &str) -> (removed: bool)
        ensures
            final(self)@ == old(self)@.remove(x@),
            removed == old(self)@.contains(x@),
    {
        proof {
            use_type_invariant(&*self);
        }
        let ghost old_items = self.items.deep_view();
        let mut i: usize = 0;
        while i < self.items.len()
            invariant
                old_items == self.items.deep_view(),
                old_items == old(self).items.deep_view(),
                strictly_sorted(old_items),
                i <= self.items@.len(),
                forall|j: int| 0 <= j < i ==> self.items@[j]@ != x@,
            decreases self.items@.len() - i,
        {
            if str_eq(self.items[i].as_str(), x) {
                let mut items: Vec<String> = Vec::new();
                std::mem::swap(&mut items, &mut self.items);
                items.remove(i);
                proof {
                    let nv = items.deep_view();
                    assert(nv =~= old_items.remove(i as int));
                    lemma_strictly_sorted_no_duplicates(old_items);
                    assert(strictly_sorted(nv)) by {
                        assert forall|a: int, b: int| 0 <= a < b < nv.len() implies crate::text::seq_lt(
                            #[trigger] nv[a],
                            #[trigger] nv[b],
                        ) by {
                            let a2 = if a < i { a } else { a + 1 };
                            let b2 = if b < i { b } else { b + 1 };
                            assert(nv[a] == old_items[a2]);
                            assert(nv[b] == old_items[b2]);
                        }
                    }
                    assert forall|y: Seq<char>| nv.to_set().contains(y) <==> old_items.to_set().remove(
                        x@,
                    ).contains(y) by {
                        if nv.to_set().contains(y) {
                            let k = choose|k: int| 0 <= k < nv.len() && nv[k] == y;
                            let k2 = if k < i { k } else { k + 1 };
                            assert(old_items[k2] == y);
                            assert(old_items[k2] != old_items[i as int]);
                        }
                        if old_items.to_set().remove(x@).contains(y) {
                            let k = choose|k: int| 0 <= k < old_items.len() && old_items[k] == y;
                            assert(k != i);
                            let k2 = if k < i { k } else { k - 1 };
                            assert(nv[k2] == y);
                        }
                    }
                    assert(nv.to_set() =~= old_items.to_set().remove(x@));
                    assert(old_items[i as int] == x@);
                    assert(old_items.to_set().contains(x@));
                }
                self.items = items;
                return true;
            }
            i = i + 1;
        }
        proof {
            if old_items.to_set().contains(x@) {
                let j = choose|j: int| 0 <= j < old_items.len() && old_items[j] == x@;
                assert(self.items@[j]@ == x@);
            }
            assert(old_items.to_set().remove(x@) =~= old_items.to_set());
        }
        false
    }

    /// The members in increasing order.
    pub fn to_sorted_vec(&self) -> (r: Vec<String>)
        ensures
            r.deep_view() == self.sorted_seq(),
            strictly_sorted(r.deep_view()),
            r.deep_view().to_set() == self@,
    {
        proof {
            use_type_invariant(self);
        }
        let mut out: Vec<String> = Vec::new();
        let mut i: usize = 0;
        while i < self.items.len()
            invariant
                i <= self.items@.len(),
                out.deep_view() == self.items.deep_view().take(i as int),
            decreases self.items@.len() - i,
        {
            let c = self.items[i].clone();
            let ghost before = out.deep_view();
            out.push(c);
            proof {
                assert(out.deep_view() =~= before.push(c@));
                assert(self.items.deep_view()[i as int] == c@);
                assert(self.items.deep_view().take(i + 1) =~= self.items.deep_view().take(i as int).push(c@));
            }
            i = i + 1;
        }
        proof {
            assert(self.items.deep_view().take(self.items@.len() as int) == self.items.deep_view());
        }
        out
    }

    /// A copy of the set.
    pub fn duplicate(&self) -> (r: StrSet)
        ensures
            r@ == self@,
            r.sorted_seq() == self.sorted_seq(),
    {
        proof {
            use_type_invariant(self);
        }
        let items = self.to_sorted_vec();
        StrSet { items }
    }

    /// The set of the given strings.
    pub fn from_vec(v: &Vec<String>) -> (r: StrSet)
        ensures
            r@ == v.deep_view().to_set(),
    {
        let mut s = StrSet::new();
        let mut i: usize = 0;
        while i < v.len()
            invariant
                i <= v@.len(),
                s@ == v.deep_view().take(i as int).to_set(),
            decreases v@.len() - i,
        {
            s.insert(v[i].clone());
            proof {
                let d = v.deep_view();
                assert(d.take(i + 1).to_set() =~= d.take(i as int).to_set().insert(d[i as int])) by {
                    assert forall|y: Seq<char>| d.take(i + 1).to_set().contains(y) <==> d.take(
                        i as int,
                    ).to_set().insert(d[i as int]).contains(y) by {
                        if d.take(i + 1).to_set().contains(y) {
                            let k = choose|k: int| 0 <= k < i + 1 && #[trigger] d.take(i + 1)[k] == y;
                            if k < i {
                                assert(d.take(i as int)[k] == y);
                            }
                        }
                        if d.take(i as int).to_set().contains(y) {
                            let k = choose|k: int| 0 <= k < i && #[trigger] d.take(i as int)[k] == y;
                            assert(d.take(i + 1)[k] == y);
                        }
                        if y == d[i as int] {
                            assert(d.take(i + 1)[i as int] == y);
                        }
                    }
                }
            }
            i = i + 1;
        }
        proof {
            assert(v.deep_view().take(v@.len() as int) == v.deep_view());
        }
        s
    }
}

} // verus!
