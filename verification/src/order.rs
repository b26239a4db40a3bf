//! Ordering records by a key made of several strings, compared one after
//! the other, and the stable sort by such a key.
use crate::text::{lemma_seq_lt_irreflexive, lemma_seq_lt_total, lemma_seq_lt_transitive, seq_lt};
use vstd::prelude::*;

verus! {

/// Lexicographic order on lists of strings: the first string that differs
/// decides, and a proper prefix comes first.
pub open spec fn keys_lt(a: Seq<Seq<char>>, b: Seq<Seq<char>>) -> bool
    decreases a.len(),
{
    if a.len() == 0 {
        b.len() > 0
    } else if b.len() == 0 {
        false
    } else if a[0] == b[0] {
        keys_lt(a.drop_first(), b.drop_first())
    } else {
        seq_lt(a[0], b[0])
    }
}

pub proof fn lemma_keys_lt_irreflexive(a: Seq<Seq<char>>)
    ensures
        !keys_lt(a, a),
    decreases a.len(),
{
    if a.len() > 0 {
        lemma_keys_lt_irreflexive(a.drop_first());
    }
}

pub proof fn lemma_keys_lt_transitive(a: Seq<Seq<char>>, b: Seq<Seq<char>>, c: Seq<Seq<char>>)
    requires
        keys_lt(a, b),
        keys_lt(b, c),
    ensures
        keys_lt(a, c),
    decreases a.len(),
{
    if a.len() > 0 && b.len() > 0 && c.len() > 0 {
        if a[0] == b[0] && b[0] == c[0] {
            lemma_keys_lt_transitive(a.drop_first(), b.drop_first(), c.drop_first());
        } else if a[0] == b[0] {
        } else if b[0] == c[0] {
        } else {
            lemma_seq_lt_transitive(a[0], b[0], c[0]);
            if a[0] == c[0] {
                lemma_seq_lt_irreflexive(a[0]);
            }
        }
    }
}

pub proof fn lemma_keys_lt_total(a: Seq<Seq<char>>, b: Seq<Seq<char>>)
    ensures
        keys_lt(a, b) || keys_lt(b, a) || a == b,
    decreases a.len(),
{
    if a.len() > 0 && b.len() > 0 {
        if a[0] == b[0] {
            lemma_keys_lt_total(a.drop_first(), b.drop_first());
            if a.drop_first() == b.drop_first() {
                assert(a =~= seq![a[0]] + a.drop_first());
                assert(b =~= seq![b[0]] + b.drop_first());
            }
        } else {
            lemma_seq_lt_total(a[0], b[0]);
        }
    } else if a.len() == 0 && b.len() == 0 {
        assert(a =~= b);
    }
}

/// On one-string keys the order is that of the strings.
pub proof fn lemma_keys_lt_single(a: Seq<char>, b: Seq<char>)
    ensures
        keys_lt(seq![a], seq![b]) == seq_lt(a, b),
{
    assert(seq![a].drop_first() =~= Seq::<Seq<char>>::empty());
    assert(seq![b].drop_first() =~= Seq::<Seq<char>>::empty());
    assert(keys_lt(Seq::<Seq<char>>::empty(), Seq::<Seq<char>>::empty()) == false);
    if a == b {
        lemma_seq_lt_irreflexive(a);
    }
}

/// On two-string keys the first strings decide unless they are equal.
pub proof fn lemma_keys_lt_pair(a1: Seq<char>, a2: Seq<char>, b1: Seq<char>, b2: Seq<char>)
    ensures
        keys_lt(seq![a1, a2], seq![b1, b2]) == if a1 == b1 {
            seq_lt(a2, b2)
        } else {
            seq_lt(a1, b1)
        },
{
    assert(seq![a1, a2].drop_first() =~= seq![a2]);
    assert(seq![b1, b2].drop_first() =~= seq![b2]);
    lemma_keys_lt_single(a2, b2);
}

/// On three-string keys the first strings that differ decide.
pub proof fn lemma_keys_lt_triple(a1: Seq<char>, a2: Seq<char>, a3: Seq<char>, b1: Seq<char>, b2: Seq<char>, b3: Seq<char>)
    ensures
        keys_lt(seq![a1, a2, a3], seq![b1, b2, b3]) == if a1 != b1 {
            seq_lt(a1, b1)
        } else if a2 != b2 {
            seq_lt(a2, b2)
        } else {
            seq_lt(a3, b3)
        },
{
    assert(seq![a1, a2, a3].drop_first() =~= seq![a2, a3]);
    assert(seq![b1, b2, b3].drop_first() =~= seq![b2, b3]);
    lemma_keys_lt_pair(a2, a3, b2, b3);
}

/// `s` with `x` put after every element whose key is not above `x`'s.
pub open spec fn insert_by_key<T>(s: Seq<T>, x: T, key: spec_fn(T) -> Seq<Seq<char>>) -> Seq<T>
    decreases s.len(),
{
    if s.len() == 0 {
        seq![x]
    } else if keys_lt(key(x), key(s.last())) {
        insert_by_key(s.drop_last(), x, key).push(s.last())
    } else {
        s.push(x)
    }
}

/// The stable sort of `s` by `key`: ordered by key, and elements with equal
/// keys in the order they had in `s`.
pub open spec fn sort_by_key<T>(s: Seq<T>, key: spec_fn(T) -> Seq<Seq<char>>) -> Seq<T>
    decreases s.len(),
{
    if s.len() == 0 {
        s
    } else {
        insert_by_key(sort_by_key(s.drop_last(), key), s.last(), key)
    }
}

/// Inserting at the first position after which every key is above `x`'s.
pub proof fn lemma_insert_by_key_at<T>(s: Seq<T>, x: T, key: spec_fn(T) -> Seq<Seq<char>>, p: int)
    requires
        0 <= p <= s.len(),
        forall|j: int| p <= j < s.len() ==> keys_lt(key(x), #[trigger] key(s[j])),
        p > 0 ==> !keys_lt(key(x), key(s[p - 1])),
    ensures
        insert_by_key(s, x, key) == s.insert(p, x),
    decreases s.len(),
{
    if s.len() == 0 {
        assert(s.insert(p, x) =~= seq![x]);
    } else if p == s.len() {
        assert(s.insert(p, x) =~= s.push(x));
    } else {
        let d = s.drop_last();
        assert(keys_lt(key(x), key(s[s.len() - 1])));
        assert forall|j: int| p <= j < d.len() implies keys_lt(key(x), #[trigger] key(d[j])) by {
            assert(d[j] == s[j]);
        }
        if p > 0 {
            assert(d[p - 1] == s[p - 1]);
        }
        lemma_insert_by_key_at(d, x, key, p);
        assert(d.insert(p, x).push(s.last()) =~= s.insert(p, x));
    }
}

/// Every element's key is at most every later element's key.
pub open spec fn sorted_by_key<T>(s: Seq<T>, key: spec_fn(T) -> Seq<Seq<char>>) -> bool {
    forall|i: int, j: int| 0 <= i < j < s.len() ==> !keys_lt(#[trigger] key(s[j]), #[trigger] key(s[i]))
}

/// Inserting by key keeps a sorted sequence sorted, and adds exactly `x`.
pub proof fn lemma_insert_by_key_sorted<T>(s: Seq<T>, x: T, key: spec_fn(T) -> Seq<Seq<char>>)
    requires
        sorted_by_key(s, key),
    ensures
        sorted_by_key(insert_by_key(s, x, key), key),
        insert_by_key(s, x, key).to_multiset() == s.to_multiset().insert(x),
    decreases s.len(),
{
    broadcast use vstd::seq_lib::group_to_multiset_ensures;

    if s.len() == 0 {
        assert(seq![x] =~= Seq::<T>::empty().push(x));
    } else if keys_lt(key(x), key(s.last())) {
        let d = s.drop_last();
        assert forall|i: int, j: int| 0 <= i < j < d.len() implies !keys_lt(#[trigger] key(d[j]), #[trigger] key(d[i])) by {
            assert(d[i] == s[i] && d[j] == s[j]);
        }
        lemma_insert_by_key_sorted(d, x, key);
        let r = insert_by_key(d, x, key);
        let t = r.push(s.last());
        assert forall|i: int, j: int| 0 <= i < j < t.len() implies !keys_lt(#[trigger] key(t[j]), #[trigger] key(t[i])) by {
            if j == t.len() - 1 {
                // t[i] is x or an element of d; both are not above s.last()
                let ti = t[i];
                assert(r.to_multiset().count(ti) > 0) by {
                    assert(r.contains(ti)) by {
                        assert(r[i] == ti);
                    }
                }
                assert(d.to_multiset().insert(x).count(ti) > 0);
                if ti == x {
                    if keys_lt(key(s.last()), key(x)) {
                        lemma_keys_lt_transitive(key(x), key(s.last()), key(x));
                        lemma_keys_lt_irreflexive(key(x));
                    }
                } else {
                    assert(d.to_multiset().count(ti) > 0);
                    assert(d.contains(ti));
                    let k = choose|k: int| 0 <= k < d.len() && d[k] == ti;
                    assert(s[k] == ti);
                    assert(!keys_lt(key(s[s.len() - 1]), key(s[k])));
                }
            } else {
                assert(t[i] == r[i] && t[j] == r[j]);
            }
        }
        assert(s =~= d.push(s.last()));
        assert(s.to_multiset() == d.to_multiset().insert(s.last()));
        assert(t.to_multiset() == r.to_multiset().insert(s.last()));
        assert(t.to_multiset() =~= s.to_multiset().insert(x));
    } else {
        let t = s.push(x);
        assert forall|i: int, j: int| 0 <= i < j < t.len() implies !keys_lt(#[trigger] key(t[j]), #[trigger] key(t[i])) by {
            if j == t.len() - 1 {
                assert(t[j] == x);
                if i < s.len() - 1 {
                    assert(t[i] == s[i]);
                    assert(!keys_lt(key(s[s.len() - 1]), key(s[i])));
                    if keys_lt(key(x), key(s[i])) {
                        lemma_keys_lt_total(key(s[i]), key(s[s.len() - 1]));
                        if keys_lt(key(s[i]), key(s[s.len() - 1])) {
                            lemma_keys_lt_transitive(key(x), key(s[i]), key(s[s.len() - 1]));
                        }
                    }
                }
            } else {
                assert(t[i] == s[i] && t[j] == s[j]);
            }
        }
    }
}

/// The stable sort is sorted and holds the same elements.
pub proof fn lemma_sort_by_key_sorted<T>(s: Seq<T>, key: spec_fn(T) -> Seq<Seq<char>>)
    ensures
        sorted_by_key(sort_by_key(s, key), key),
        sort_by_key(s, key).to_multiset() == s.to_multiset(),
        sort_by_key(s, key).len() == s.len(),
    decreases s.len(),
{
    broadcast use vstd::seq_lib::group_to_multiset_ensures;

    if s.len() > 0 {
        lemma_sort_by_key_sorted(s.drop_last(), key);
        lemma_insert_by_key_sorted(sort_by_key(s.drop_last(), key), s.last(), key);
        assert(s =~= s.drop_last().push(s.last()));
        assert(s.to_multiset() == s.drop_last().to_multiset().insert(s.last()));
        let r = sort_by_key(s, key);
        assert(r.to_multiset().len() == r.len());
        assert(s.to_multiset().len() == s.len());
    }
}

/// Sorting a sequence that is already sorted leaves it as it is.
pub proof fn lemma_sort_by_key_of_sorted<T>(s: Seq<T>, key: spec_fn(T) -> Seq<Seq<char>>)
    requires
        sorted_by_key(s, key),
    ensures
        sort_by_key(s, key) == s,
    decreases s.len(),
{
    if s.len() > 0 {
        let d = s.drop_last();
        assert forall|i: int, j: int| 0 <= i < j < d.len() implies !keys_lt(#[trigger] key(d[j]), #[trigger] key(d[i])) by {
            assert(d[i] == s[i] && d[j] == s[j]);
        }
        lemma_sort_by_key_of_sorted(d, key);
        if d.len() == 0 {
            assert(seq![s.last()] =~= s);
        } else {
            assert(d.last() == s[s.len() - 2]);
            assert(!keys_lt(key(s[s.len() - 1]), key(s[s.len() - 2])));
            assert(d.push(s.last()) =~= s);
        }
    }
}

/// Keeping the elements that pass a test keeps a sorted sequence sorted.
pub proof fn lemma_filter_sorted<T>(s: Seq<T>, p: spec_fn(T) -> bool, key: spec_fn(T) -> Seq<Seq<char>>)
    requires
        sorted_by_key(s, key),
    ensures
        sorted_by_key(s.filter(p), key),
    decreases s.len(),
{
    reveal(Seq::filter);
    if s.len() > 0 {
        let d = s.drop_last();
        assert forall|i: int, j: int| 0 <= i < j < d.len() implies !keys_lt(#[trigger] key(d[j]), #[trigger] key(d[i])) by {
            assert(d[i] == s[i] && d[j] == s[j]);
        }
        lemma_filter_sorted(d, p, key);
        let f = d.filter(p);
        assert(s.filter(p) == if p(s.last()) { f.push(s.last()) } else { f });
        if p(s.last()) {
            let t = f.push(s.last());
            assert forall|i: int, j: int| 0 <= i < j < t.len() implies !keys_lt(#[trigger] key(t[j]), #[trigger] key(t[i])) by {
                if j == t.len() - 1 {
                    assert(t[i] == f[i]);
                    assert(f.contains(f[i]));
                    d.lemma_filter_contains_rev(p, f[i]);
                    let k = choose|k: int| 0 <= k < d.len() && d[k] == f[i];
                    assert(s[k] == f[i]);
                    assert(!keys_lt(key(s[s.len() - 1]), key(s[k])));
                } else {
                    assert(t[i] == f[i] && t[j] == f[j]);
                }
            }
        }
    }
}

/// Keeping the elements that pass a test, when all of them pass, keeps all.
pub proof fn lemma_filter_all<T>(s: Seq<T>, p: spec_fn(T) -> bool)
    requires
        forall|i: int| 0 <= i < s.len() ==> p(#[trigger] s[i]),
    ensures
        s.filter(p) == s,
    decreases s.len(),
{
    reveal(Seq::filter);
    if s.len() > 0 {
        let d = s.drop_last();
        assert forall|i: int| 0 <= i < d.len() implies p(#[trigger] d[i]) by {
            assert(d[i] == s[i]);
        }
        lemma_filter_all(d, p);
        assert(p(s[s.len() - 1]));
        assert(d.push(s.last()) =~= s);
    }
}

} // verus!
