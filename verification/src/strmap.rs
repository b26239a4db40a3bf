//! A small map keyed by strings, kept as a list of entries with distinct
//! keys. Its view is a `Map` from the keys' characters to the values' views.
use crate::text::{insert_sorted_unique, str_eq, strictly_sorted};
use vstd::prelude::*;

verus! {

pub struct StrEntry<V> {
    pub key: String,
    pub value: V,
}

pub struct StrMap<V> {
    entries: Vec<StrEntry<V>>,
}

pub open spec fn entry_keys<V>(es: Seq<StrEntry<V>>) -> Seq<Seq<char>> {
    es.map_values(|e: StrEntry<V>| e.key@)
}

pub open spec fn entries_map<V: View>(es: Seq<StrEntry<V>>) -> Map<Seq<char>, V::V>
    decreases es.len(),
{
    if es.len() == 0 {
        Map::empty()
    } else {
        entries_map(es.drop_last()).insert(es.last().key@, es.last().value@)
    }
}

pub proof fn lemma_entries_map_dom<V: View>(es: Seq<StrEntry<V>>)
    ensures
        entries_map(es).dom() == entry_keys(es).to_set(),
    decreases es.len(),
{
    if es.len() > 0 {
        lemma_entries_map_dom(es.drop_last());
        assert(entry_keys(es.drop_last()) == entry_keys(es).drop_last());
        assert forall|k: Seq<char>| entry_keys(es).to_set().contains(k) <==> entry_keys(
            es.drop_last(),
        ).to_set().insert(es.last().key@).contains(k) by {
            if entry_keys(es).to_set().contains(k) {
                let i = choose|i: int| 0 <= i < entry_keys(es).len() && entry_keys(es)[i] == k;
                if i < es.len() - 1 {
                    assert(entry_keys(es.drop_last())[i] == k);
                }
            }
            if entry_keys(es.drop_last()).to_set().contains(k) {
                let i = choose|i: int|
                    0 <= i < entry_keys(es.drop_last()).len() && entry_keys(es.drop_last())[i] == k;
                assert(entry_keys(es)[i] == k);
            }
            if k == es.last().key@ {
                assert(entry_keys(es)[es.len() - 1] == k);
            }
        }
        assert(entry_keys(es).to_set() =~= entry_keys(es.drop_last()).to_set().insert(
            es.last().key@,
        ));
    } else {
        assert(entry_keys(es).to_set() =~= Set::empty());
    }
}

pub proof fn lemma_entries_map_get<V: View>(es: Seq<StrEntry<V>>, i: int)
    requires
        entry_keys(es).no_duplicates(),
        0 <= i < es.len(),
    ensures
        entries_map(es).contains_key(es[i].key@),
        entries_map(es)[es[i].key@] == es[i].value@,
    decreases es.len(),
{
    if i < es.len() - 1 {
        let d = es.drop_last();
        assert(entry_keys(d) == entry_keys(es).drop_last());
        assert(entry_keys(es)[i] != entry_keys(es)[es.len() - 1]);
        lemma_entries_map_get(d, i);
    }
}

/// Lookup and domain facts for a well-formed entry list.
pub proof fn lemma_entries_map_facts<V: View>(es: Seq<StrEntry<V>>)
    requires
        entry_keys(es).no_duplicates(),
    ensures
        forall|i: int|
            0 <= i < es.len() ==> #[trigger] entries_map(es).contains_key(es[i].key@)
                && entries_map(es)[es[i].key@] == es[i].value@,
        forall|k: Seq<char>|
            #[trigger] entries_map(es).contains_key(k) ==> exists|i: int|
                0 <= i < es.len() && #[trigger] es[i].key@ == k,
{
    assert forall|i: int| 0 <= i < es.len() implies #[trigger] entries_map(es).contains_key(
        es[i].key@,
    ) && entries_map(es)[es[i].key@] == es[i].value@ by {
        lemma_entries_map_get(es, i);
    }
    assert forall|k: Seq<char>| #[trigger] entries_map(es).contains_key(k) implies exists|i: int|
        0 <= i < es.len() && #[trigger] es[i].key@ == k by {
        lemma_entries_map_dom(es);
        assert(entry_keys(es).to_set().contains(k));
        let i = choose|i: int| 0 <= i < entry_keys(es).len() && entry_keys(es)[i] == k;
        assert(es[i].key@ == k);
    }
}

impl<V: View> View for StrMap<V> {
    type V = Map<Seq<char>, V::V>;

    closed spec fn view(&self) -> Map<Seq<char>, V::V> {
        entries_map(self.entries@)
    }
}

impl<V> StrMap<V> {
    #[verifier::type_invariant]
    spec fn wf(self) -> bool {
        entry_keys(self.entries@).no_duplicates()
    }
}

impl<V: View> StrMap<V> {

    /// The entries in the order the map keeps them.
    pub closed spec fn entry_seq(self) -> Seq<StrEntry<V>> {
        self.entries@
    }

    /// The keys in the order the map keeps them.
    pub closed spec fn key_seq(self) -> Seq<Seq<char>> {
        entry_keys(self.entries@)
    }

    /// The keys, in order, hold each key of the map once. (Runs nothing; it
    /// hands the map's invariant to the caller's proof.)
    pub fn key_facts(&self)
        ensures
            self.key_seq().no_duplicates(),
            self.key_seq().len() == self.entry_seq().len(),
            self.key_seq().to_set() == self@.dom(),
            self.key_seq().len() == self@.dom().len(),
            self@.dom().finite(),
            forall|i: int|
                0 <= i < self.key_seq().len() ==> self@[#[trigger] self.key_seq()[i]]
                    == self.entry_seq()[i].value@,
    {
        proof {
        use_type_invariant(self);
        lemma_entries_map_dom(self.entries@);
        lemma_entries_map_facts(self.entries@);
        self.key_seq().unique_seq_to_set();
        assert forall|i: int| 0 <= i < self.key_seq().len() implies self@[#[trigger] self.key_seq()[i]]
            == self.entry_seq()[i].value@ by {
            assert(self.key_seq()[i] == self.entries@[i].key@);
            assert(entries_map(self.entries@).contains_key(self.entries@[i].key@));
        }
        }
    }

    pub fn new() -> (m: Self)
        ensures
            m@ == Map::<Seq<char>, V::V>::empty(),
            m.key_seq().len() == 0,
    {
        let m = StrMap { entries: Vec::new() };
        assert(entry_keys(m.entries@) =~= Seq::<Seq<char>>::empty());
        m
    }

    /// Number of entries.
    pub fn len(&self) -> (n: usize)
        ensures
            n == self@.dom().len(),
            n == self.key_seq().len(),
    {
        self.key_facts();
        self.entries.len()
    }

    pub fn is_empty(&self) -> (r: bool)
        ensures
            r == (self@.dom().len() == 0),
            r == (self@ == Map::<Seq<char>, V::V>::empty()),
    {
        self.key_facts();
        proof {
            if self@.dom().len() == 0 {
                assert(self@.dom() =~= Set::empty());
                assert(self@ =~= Map::<Seq<char>, V::V>::empty());
            }
        }
        self.entries.len() == 0
    }

    /// The key of the entry at position `i`.
    pub fn key_at(&self, i: usize) -> (k: &String)
        requires
            i < self.key_seq().len(),
        ensures
            k@ == self.key_seq()[i as int],
            self@.contains_key(k@),
    {
        proof {
            use_type_invariant(self);
            lemma_entries_map_facts(self.entries@);
        }
        &self.entries[i].key
    }

    /// The value of the entry at position `i`.
    pub fn value_at(&self, i: usize) -> (v: &V)
        requires
            i < self.key_seq().len(),
        ensures
            v@ == self@[self.key_seq()[i as int]],
            v == self.entry_seq()[i as int].value,
    {
        proof {
            use_type_invariant(self);
            lemma_entries_map_facts(self.entries@);
            assert(entries_map(self.entries@).contains_key(self.entries@[i as int].key@));
        }
        &self.entries[i].value
    }

    fn find(&self, key: &str) -> (r: Option<usize>)
        ensures
            match r {
                Some(i) => i < self.entries@.len() && self.entries@[i as int].key@ == key@,
                None => !self@.contains_key(key@),
            },
    {
        proof {
            use_type_invariant(self);
            lemma_entries_map_facts(self.entries@);
        }
        let mut i: usize = 0;
        while i < self.entries.len()
            invariant
                i <= self.entries@.len(),
                forall|j: int| 0 <= j < i ==> self.entries@[j].key@ != key@,
            decreases self.entries@.len() - i,
        {
            if str_eq(self.entries[i].key.as_str(), key) {
                return Some(i);
            }
            i = i + 1;
        }
        None
    }

    pub fn contains_key(&self, key: &str) -> (r: bool)
        ensures
            r == self@.contains_key(key@),
    {
        proof {
            use_type_invariant(self);
            lemma_entries_map_facts(self.entries@);
        }
        self.find(key).is_some()
    }

    pub fn get(&self, key: &str) -> (r: Option<&V>)
        ensures
            r is Some == self@.contains_key(key@),
            r matches Some(v) ==> v@ == self@[key@],
    {
        proof {
            use_type_invariant(self);
            lemma_entries_map_facts(self.entries@);
        }
        match self.find(key) {
            Some(i) => {
                proof {
                    assert(entries_map(self.entries@).contains_key(self.entries@[i as int].key@));
                }
                Some(&self.entries[i].value)
            },
            None => None,
        }
    }

    /// Sets the value of `key`. An existing entry keeps its position; a new
    /// one goes last.
    pub fn insert(&mut self, key: String, value: V)
        ensures
            final(self)@ == old(self)@.insert(key@, value@),
            old(self)@.contains_key(key@) ==> final(self).key_seq() == old(self).key_seq(),
            !old(self)@.contains_key(key@) ==> final(self).key_seq() == old(self).key_seq().push(
                key@,
            ),
    {
        proof {
            use_type_invariant(&*self);
            lemma_entries_map_facts(self.entries@);
        }
        let ghost kv = key@;
        let ghost vv = value@;
        let ghost old_es = self.entries@;
        match self.find(key.as_str()) {
            Some(i) => {
                let mut es: Vec<StrEntry<V>> = Vec::new();
                std::mem::swap(&mut es, &mut self.entries);
                es.set(i, StrEntry { key, value });
                proof {
                    assert(entry_keys(es@) =~= entry_keys(old_es));
                }
                self.entries = es;
                proof {
                    let es = self.entries@;
                    assert(entry_keys(es) =~= entry_keys(old_es));
                    lemma_entries_map_facts(es);
                    assert forall|k: Seq<char>| #[trigger] entries_map(es).contains_key(k)
                        <==> entries_map(old_es).insert(kv, vv).contains_key(k) by {
                        if entries_map(old_es).contains_key(k) {
                            let j = choose|j: int| 0 <= j < old_es.len() && #[trigger] old_es[j].key@ == k;
                            assert(entry_keys(es)[j] == k);
                            assert(es[j].key@ == k);
                        }
                        if k == kv {
                            assert(es[i as int].key@ == k);
                        }
                        if entries_map(es).contains_key(k) {
                            let j = choose|j: int| 0 <= j < es.len() && #[trigger] es[j].key@ == k;
                            if j != i {
                                assert(old_es[j].key@ == k);
                            }
                        }
                    }
                    assert forall|k: Seq<char>| #[trigger] entries_map(es).contains_key(k) implies entries_map(es)[k]
                        == entries_map(old_es).insert(kv, vv)[k] by {
                        let j = choose|j: int| 0 <= j < es.len() && #[trigger] es[j].key@ == k;
                        assert(entries_map(es).contains_key(es[j].key@));
                        if j != i {
                            assert(old_es[j].key@ == k);
                            assert(entry_keys(old_es)[j] != entry_keys(old_es)[i as int]);
                            assert(entries_map(old_es).contains_key(old_es[j].key@));
                        }
                    }
                    assert(entries_map(es) =~= entries_map(old_es).insert(kv, vv));
                }
            },
            None => {
                let mut es: Vec<StrEntry<V>> = Vec::new();
                std::mem::swap(&mut es, &mut self.entries);
                es.push(StrEntry { key, value });
                proof {
                    assert(entry_keys(es@) =~= entry_keys(old_es).push(kv));
                    lemma_entries_map_dom(old_es);
                    assert(!entry_keys(old_es).contains(kv)) by {
                        if entry_keys(old_es).contains(kv) {
                            assert(entry_keys(old_es).to_set().contains(kv));
                        }
                    }
                }
                self.entries = es;
                proof {
                    let es = self.entries@;
                    assert(es.drop_last() == old_es);
                    assert(entry_keys(es) =~= entry_keys(old_es).push(kv));
                    lemma_entries_map_dom(old_es);
                    assert(!entry_keys(old_es).contains(kv)) by {
                        if entry_keys(old_es).contains(kv) {
                            let j = choose|j: int|
                                0 <= j < entry_keys(old_es).len() && entry_keys(old_es)[j] == kv;
                            assert(entry_keys(old_es).to_set().contains(kv));
                        }
                    }
                }
            },
        }
    }

    /// Removes `key`; the other entries keep their order.
    pub fn remove(&mut self, key: &str) -> (r: Option<V>)
        ensures
            final(self)@ == old(self)@.remove(key@),
            r is Some == old(self)@.contains_key(key@),
            r matches Some(v) ==> v@ == old(self)@[key@],
    {
        proof {
            use_type_invariant(&*self);
            lemma_entries_map_facts(self.entries@);
        }
        let ghost old_es = self.entries@;
        let ghost kv = key@;
        match self.find(key) {
            Some(i) => {
                let mut ev: Vec<StrEntry<V>> = Vec::new();
                std::mem::swap(&mut ev, &mut self.entries);
                let e = ev.remove(i);
                proof {
                    let es = ev@;
                    let ok = entry_keys(old_es);
                    let nk = entry_keys(es);
                    assert(nk =~= ok.remove(i as int));
                    assert(nk.no_duplicates()) by {
                        assert forall|a: int, b: int| 0 <= a < nk.len() && 0 <= b < nk.len() && a != b
                            implies nk[a] != nk[b] by {
                            let a2 = if a < i { a } else { a + 1 };
                            let b2 = if b < i { b } else { b + 1 };
                            assert(nk[a] == ok[a2]);
                            assert(nk[b] == ok[b2]);
                        }
                    }
                }
                self.entries = ev;
                proof {
                    let es = self.entries@;
                    assert(es == old_es.remove(i as int));
                    let ok = entry_keys(old_es);
                    let nk = entry_keys(es);
                    assert(nk =~= ok.remove(i as int));
                    assert(nk.no_duplicates()) by {
                        assert forall|a: int, b: int| 0 <= a < nk.len() && 0 <= b < nk.len() && a != b
                            implies nk[a] != nk[b] by {
                            let a2 = if a < i { a } else { a + 1 };
                            let b2 = if b < i { b } else { b + 1 };
                            assert(nk[a] == ok[a2]);
                            assert(nk[b] == ok[b2]);
                        }
                    }
                    lemma_entries_map_facts(es);
                    assert forall|k: Seq<char>| #[trigger] entries_map(es).contains_key(k)
                        <==> entries_map(old_es).remove(kv).contains_key(k) by {
                        if entries_map(es).contains_key(k) {
                            let j = choose|j: int| 0 <= j < es.len() && #[trigger] es[j].key@ == k;
                            let j2 = if j < i { j } else { j + 1 };
                            assert(old_es[j2].key@ == k);
                            assert(ok[j2] != ok[i as int]);
                        }
                        if entries_map(old_es).remove(kv).contains_key(k) {
                            let j = choose|j: int| 0 <= j < old_es.len() && #[trigger] old_es[j].key@ == k;
                            assert(j != i);
                            let j2 = if j < i { j } else { j - 1 };
                            assert(es[j2].key@ == k);
                        }
                    }
                    assert forall|k: Seq<char>| #[trigger] entries_map(es).contains_key(k) implies entries_map(es)[k]
                        == entries_map(old_es).remove(kv)[k] by {
                        let j = choose|j: int| 0 <= j < es.len() && #[trigger] es[j].key@ == k;
                        let j2 = if j < i { j } else { j + 1 };
                        assert(old_es[j2].key@ == k);
                        assert(ok[j2] != ok[i as int]);
                        assert(entries_map(es).contains_key(es[j].key@));
                        assert(entries_map(old_es).contains_key(old_es[j2].key@));
                    }
                    assert(entries_map(es) =~= entries_map(old_es).remove(kv));
                    assert(entries_map(old_es).contains_key(old_es[i as int].key@));
                }
                Some(e.value)
            },
            None => {
                proof {
                    assert(entries_map(old_es).remove(kv) =~= entries_map(old_es));
                }
                None
            },
        }
    }

    /// Removes every entry.
    pub fn clear(&mut self)
        ensures
            final(self)@ == Map::<Seq<char>, V::V>::empty(),
            final(self).key_seq().len() == 0,
    {
        self.entries = Vec::new();
        assert(entry_keys(self.entries@) =~= Seq::<Seq<char>>::empty());
    }

    /// The keys in strictly increasing order.
    pub fn sorted_keys(&self) -> (r: Vec<String>)
        ensures
            strictly_sorted(r.deep_view()),
            r.deep_view().to_set() == self@.dom(),
    {
        proof {
            use_type_invariant(self);
            lemma_entries_map_dom(self.entries@);
        }
        let mut out: Vec<String> = Vec::new();
        let mut i: usize = 0;
        assert(out.deep_view().to_set() =~= entry_keys(self.entries@).take(0).to_set());
        while i < self.entries.len()
            invariant
                i <= self.entries@.len(),
                strictly_sorted(out.deep_view()),
                out.deep_view().to_set() == entry_keys(self.entries@).take(i as int).to_set(),
            decreases self.entries@.len() - i,
        {
            let k = self.entries[i].key.clone();
            let ghost before = out.deep_view().to_set();
            insert_sorted_unique(&mut out, k);
            proof {
                let ks = entry_keys(self.entries@);
                assert(ks.take(i + 1) == ks.take(i as int).push(ks[i as int]));
                assert(ks.take(i + 1).to_set() =~= ks.take(i as int).to_set().insert(ks[i as int])) by {
                    assert forall|x: Seq<char>| ks.take(i + 1).to_set().contains(x) <==> ks.take(
                        i as int,
                    ).to_set().insert(ks[i as int]).contains(x) by {
                        if ks.take(i + 1).to_set().contains(x) {
                            let j = choose|j: int| 0 <= j < i + 1 && #[trigger] ks.take(i + 1)[j] == x;
                            if j < i {
                                assert(ks.take(i as int)[j] == x);
                            }
                        }
                        if ks.take(i as int).to_set().contains(x) {
                            let j = choose|j: int| 0 <= j < i && #[trigger] ks.take(i as int)[j] == x;
                            assert(ks.take(i + 1)[j] == x);
                        }
                        if x == ks[i as int] {
                            assert(ks.take(i + 1)[i as int] == x);
                        }
                    }
                }
            }
            i = i + 1;
        }
        assert(entry_keys(self.entries@).take(self.entries@.len() as int) == entry_keys(
            self.entries@,
        ));
        out
    }
}

impl<V: Copy + View> StrMap<V> {
    /// A copy of the map with the same entries in the same order.
    pub fn duplicate(&self) -> (r: Self)
        ensures
            r@ == self@,
            r.key_seq() == self.key_seq(),
            r.entry_seq().len() == self.entry_seq().len(),
            forall|i: int| 0 <= i < self.entry_seq().len() ==> #[trigger] r.entry_seq()[i].value == self.entry_seq()[i].value,
    {
        proof {
            use_type_invariant(self);
        }
        let mut es: Vec<StrEntry<V>> = Vec::new();
        let mut i: usize = 0;
        while i < self.entries.len()
            invariant
                i <= self.entries@.len(),
                es@.len() == i,
                forall|j: int| 0 <= j < i ==> (#[trigger] es@[j]).key@ == self.entries@[j].key@ && es@[j].value == self.entries@[j].value,
            decreases self.entries@.len() - i,
        {
            let k = self.entries[i].key.clone();
            let v = self.entries[i].value;
            es.push(StrEntry { key: k, value: v });
            i = i + 1;
        }
        proof {
            assert(entry_keys(es@) =~= entry_keys(self.entries@));
            lemma_entries_map_facts(self.entries@);
            lemma_entries_map_facts(es@);
            assert forall|k: Seq<char>| #[trigger] entries_map(es@).contains_key(k) <==> entries_map(self.entries@).contains_key(k) by {
                if entries_map(es@).contains_key(k) {
                    let j = choose|j: int| 0 <= j < es@.len() && #[trigger] es@[j].key@ == k;
                    assert(self.entries@[j].key@ == k);
                }
                if entries_map(self.entries@).contains_key(k) {
                    let j = choose|j: int| 0 <= j < self.entries@.len() && #[trigger] self.entries@[j].key@ == k;
                    assert(es@[j].key@ == k);
                }
            }
            assert forall|k: Seq<char>| #[trigger] entries_map(es@).contains_key(k) implies entries_map(es@)[k] == entries_map(self.entries@)[k] by {
                let j = choose|j: int| 0 <= j < es@.len() && #[trigger] es@[j].key@ == k;
                assert(self.entries@[j].key@ == k);
                assert(entries_map(es@).contains_key(es@[j].key@));
                assert(entries_map(self.entries@).contains_key(self.entries@[j].key@));
            }
            assert(entries_map(es@) =~= entries_map(self.entries@));
        }
        StrMap { entries: es }
    }
}

} // verus!
