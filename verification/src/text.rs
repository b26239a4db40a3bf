//! Character and string primitives shared by the whole library: Unicode
//! whitespace, trimming, lexicographic order, sorted identifier lists.
use vstd::prelude::*;
use vstd::string::StringExecFns;
use vstd::string::StringSliceAdditionalSpecFns;

verus! {

/// The Unicode `White_Space` property, which is what `char::is_whitespace`
/// and `str::trim` use.
pub open spec fn is_ws(c: char) -> bool {
    let u = c as u32;
    ||| (9 <= u && u <= 13)
    ||| u == 32
    ||| u == 0x85
    ||| u == 0xa0
    ||| u == 0x1680
    ||| (0x2000 <= u && u <= 0x200a)
    ||| u == 0x2028
    ||| u == 0x2029
    ||| u == 0x202f
    ||| u == 0x205f
    ||| u == 0x3000
}

pub fn char_is_ws(c: char) -> (r: bool)
    ensures
        r == is_ws(c),
{
    let u = c as u32;
    (9 <= u && u <= 13) || u == 32 || u == 0x85 || u == 0xa0 || u == 0x1680 || (0x2000 <= u
        && u <= 0x200a) || u == 0x2028 || u == 0x2029 || u == 0x202f || u == 0x205f || u == 0x3000
}

/// `s` with its leading whitespace removed.
pub open spec fn trim_start(s: Seq<char>) -> Seq<char>
    decreases s.len(),
{
    if s.len() > 0 && is_ws(s[0]) {
        trim_start(s.drop_first())
    } else {
        s
    }
}

/// `s` with its trailing whitespace removed.
pub open spec fn trim_end(s: Seq<char>) -> Seq<char>
    decreases s.len(),
{
    if s.len() > 0 && is_ws(s.last()) {
        trim_end(s.drop_last())
    } else {
        s
    }
}

/// `s` with leading and trailing whitespace removed, as `str::trim` does.
pub open spec fn trim(s: Seq<char>) -> Seq<char> {
    trim_end(trim_start(s))
}

proof fn lemma_trim_start_skip(s: Seq<char>, i: int)
    requires
        0 <= i <= s.len(),
        forall|k: int| 0 <= k < i ==> is_ws(#[trigger] s[k]),
    ensures
        trim_start(s) == trim_start(s.subrange(i, s.len() as int)),
    decreases i,
{
    if i > 0 {
        assert(s.drop_first() == s.subrange(1, s.len() as int));
        let t = s.drop_first();
        assert forall|k: int| 0 <= k < i - 1 implies is_ws(#[trigger] t[k]) by {
            assert(t[k] == s[k + 1]);
        }
        lemma_trim_start_skip(t, i - 1);
        assert(t.subrange(i - 1, t.len() as int) == s.subrange(i, s.len() as int));
    } else {
        assert(s.subrange(0, s.len() as int) == s);
    }
}

proof fn lemma_trim_end_cut(s: Seq<char>, j: int)
    requires
        0 <= j <= s.len(),
        forall|k: int| j <= k < s.len() ==> is_ws(#[trigger] s[k]),
    ensures
        trim_end(s) == trim_end(s.subrange(0, j)),
    decreases s.len() - j,
{
    if j < s.len() {
        let t = s.drop_last();
        assert(t == s.subrange(0, s.len() - 1));
        assert(is_ws(s[s.len() - 1]));
        assert forall|k: int| j <= k < t.len() implies is_ws(#[trigger] t[k]) by {
            assert(t[k] == s[k]);
        }
        lemma_trim_end_cut(t, j);
        assert(t.subrange(0, j) == s.subrange(0, j));
    } else {
        assert(s.subrange(0, j) == s);
    }
}

/// Removes leading and trailing whitespace.
pub fn trim_str(s: &str) -> (r: String)
    ensures
        r@ == trim(s@),
{
    let n = s.unicode_len();
    let mut i: usize = 0;
    while i < n && char_is_ws(s.get_char(i))
        invariant
            n == s@.len(),
            i <= n,
            forall|k: int| 0 <= k < i ==> is_ws(#[trigger] s@[k]),
        decreases n - i,
    {
        i = i + 1;
    }
    let mut j: usize = n;
    while j > i && char_is_ws(s.get_char(j - 1))
        invariant
            n == s@.len(),
            i <= j <= n,
            forall|k: int| j <= k < n ==> is_ws(#[trigger] s@[k]),
        decreases j,
    {
        j = j - 1;
    }
    proof {
        lemma_trim_start_skip(s@, i as int);
        let t = s@.subrange(i as int, n as int);
        assert(i == n || !is_ws(s@[i as int]));
        assert(trim_start(t) == t) by {
            if t.len() > 0 {
                assert(t[0] == s@[i as int]);
            }
        }
        assert forall|k: int| j - i <= k < t.len() implies is_ws(#[trigger] t[k]) by {
            assert(t[k] == s@[k + i]);
        }
        lemma_trim_end_cut(t, j - i);
        let u = t.subrange(0, j - i);
        assert(u == s@.subrange(i as int, j as int));
        assert(trim_end(u) == u) by {
            if u.len() > 0 {
                assert(u.last() == s@[j - 1]);
            }
        }
    }
    s.substring_char(i, j).to_owned()
}

/// Removes leading and trailing whitespace from an owned string.
pub fn trim_string(s: &String) -> (r: String)
    ensures
        r@ == trim(s@),
{
    trim_str(s.as_str())
}

/// `b` is what `as_bytes` gives for a string slice with the characters `t`.
pub open spec fn is_utf8_of(b: Seq<u8>, t: Seq<char>) -> bool {
    exists|s: &str| #![trigger s.spec_bytes()] s@ == t && b == s.spec_bytes()
}

/// The UTF-8 bytes of a text: what `as_bytes` gives for a string slice
/// with these characters.
pub open spec fn utf8_bytes(t: Seq<char>) -> Seq<u8> {
    choose|b: Seq<u8>| #[trigger] is_utf8_of(b, t)
}

pub proof fn lemma_utf8_bytes(s: &str)
    ensures
        utf8_bytes(s@) == s.spec_bytes(),
{
    assert(is_utf8_of(s.spec_bytes(), s@));
    let b = utf8_bytes(s@);
    assert(is_utf8_of(b, s@));
    let x = choose|x: &str| #![trigger x.spec_bytes()] x@ == s@ && b == x.spec_bytes();
    assert(x.spec_bytes() == s.spec_bytes());
}

/// Equality of two string slices by their characters.
pub fn str_eq(a: &str, b: &str) -> (r: bool)
    ensures
        r == (a@ == b@),
{
    let x = a.to_owned();
    let y = b.to_owned();
    x == y
}

/// Strict lexicographic order on character sequences, comparing code
/// points. This is the order `Ord` gives `String`: UTF-8 byte order and
/// code-point order agree.
pub open spec fn seq_lt(a: Seq<char>, b: Seq<char>) -> bool
    decreases a.len(),
{
    if a.len() == 0 {
        b.len() > 0
    } else if b.len() == 0 {
        false
    } else if (a[0] as int) < (b[0] as int) {
        true
    } else if a[0] == b[0] {
        seq_lt(a.drop_first(), b.drop_first())
    } else {
        false
    }
}

pub proof fn lemma_seq_lt_irreflexive(a: Seq<char>)
    ensures
        !seq_lt(a, a),
    decreases a.len(),
{
    if a.len() > 0 {
        lemma_seq_lt_irreflexive(a.drop_first());
    }
}

pub proof fn lemma_seq_lt_transitive(a: Seq<char>, b: Seq<char>, c: Seq<char>)
    requires
        seq_lt(a, b),
        seq_lt(b, c),
    ensures
        seq_lt(a, c),
    decreases a.len(),
{
    if a.len() > 0 && b.len() > 0 && c.len() > 0 {
        if a[0] == b[0] && b[0] == c[0] {
            lemma_seq_lt_transitive(a.drop_first(), b.drop_first(), c.drop_first());
        }
    }
}

pub proof fn lemma_seq_lt_total(a: Seq<char>, b: Seq<char>)
    ensures
        seq_lt(a, b) || seq_lt(b, a) || a == b,
    decreases a.len(),
{
    if a.len() > 0 && b.len() > 0 {
        if a[0] == b[0] {
            lemma_seq_lt_total(a.drop_first(), b.drop_first());
            if a.drop_first() == b.drop_first() {
                assert(a =~= seq![a[0]] + a.drop_first());
                assert(b =~= seq![b[0]] + b.drop_first());
            }
        } else {
            assert((a[0] as int) != (b[0] as int));
        }
    } else if a.len() == 0 && b.len() == 0 {
        assert(a =~= b);
    }
}

pub proof fn lemma_seq_lt_asymmetric(a: Seq<char>, b: Seq<char>)
    requires
        seq_lt(a, b),
    ensures
        !seq_lt(b, a),
{
    if seq_lt(b, a) {
        lemma_seq_lt_transitive(a, b, a);
        lemma_seq_lt_irreflexive(a);
    }
}

/// Strict lexicographic comparison of two strings.
pub fn string_lt(a: &String, b: &String) -> (r: bool)
    ensures
        r == seq_lt(a@, b@),
{
    let x = a.as_str();
    let y = b.as_str();
    let n = x.unicode_len();
    let m = y.unicode_len();
    let mut i: usize = 0;
    proof {
        assert(x@.subrange(0, n as int) == x@);
        assert(y@.subrange(0, m as int) == y@);
    }
    while i < n && i < m
        invariant
            n == x@.len(),
            m == y@.len(),
            x@ == a@,
            y@ == b@,
            i <= n,
            i <= m,
            x@.subrange(0, i as int) == y@.subrange(0, i as int),
            seq_lt(a@, b@) == seq_lt(x@.subrange(i as int, n as int), y@.subrange(i as int, m as int)),
        decreases n - i,
    {
        let c = x.get_char(i);
        let d = y.get_char(i);
        let ghost xs = x@.subrange(i as int, n as int);
        let ghost ys = y@.subrange(i as int, m as int);
        assert(xs[0] == c && ys[0] == d);
        if (c as u32) < (d as u32) {
            return true;
        }
        if c != d {
            return false;
        }
        assert(xs.drop_first() == x@.subrange(i + 1, n as int));
        assert(ys.drop_first() == y@.subrange(i + 1, m as int));
        assert(x@.subrange(0, i + 1) == x@.subrange(0, i as int).push(c));
        assert(y@.subrange(0, i + 1) == y@.subrange(0, i as int).push(d));
        i = i + 1;
    }
    i == n && i < m
}

/// Taking one more element of a sequence adds that element to its set.
pub proof fn lemma_take_to_set_step<A>(d: Seq<A>, i: int)
    requires
        0 <= i < d.len(),
    ensures
        d.take(i + 1).to_set() == d.take(i).to_set().insert(d[i]),
{
    assert forall|y: A| d.take(i + 1).to_set().contains(y) <==> d.take(i).to_set().insert(d[i]).contains(
        y,
    ) by {
        if d.take(i + 1).to_set().contains(y) {
            let k = choose|k: int| 0 <= k < i + 1 && #[trigger] d.take(i + 1)[k] == y;
            if k < i {
                assert(d.take(i)[k] == y);
            }
        }
        if d.take(i).to_set().contains(y) {
            let k = choose|k: int| 0 <= k < i && #[trigger] d.take(i)[k] == y;
            assert(d.take(i + 1)[k] == y);
        }
        if y == d[i] {
            assert(d.take(i + 1)[i] == y);
        }
    }
    assert(d.take(i + 1).to_set() =~= d.take(i).to_set().insert(d[i]));
}


proof fn lemma_to_seq_no_duplicates<A>(s: Set<A>)
    requires
        s.finite(),
    ensures
        s.to_seq().no_duplicates(),
        s.to_seq().to_set() == s,
    decreases s.len(),
{
    s.lemma_to_seq_to_set_id();
    if s.len() > 0 {
        let x = s.choose();
        let rest = s.remove(x);
        lemma_to_seq_no_duplicates(rest);
        let r = rest.to_seq();
        let q = s.to_seq();
        assert(q == Seq::<A>::empty().push(x) + r);
        assert(!r.contains(x)) by {
            if r.contains(x) {
                assert(r.to_set().contains(x));
            }
        }
        assert forall|i: int, j: int| 0 <= i < q.len() && 0 <= j < q.len() && i != j implies q[i] != q[j] by {
            if i == 0 {
                assert(q[j] == r[j - 1]);
            } else if j == 0 {
                assert(q[i] == r[i - 1]);
            } else {
                assert(q[i] == r[i - 1] && q[j] == r[j - 1]);
            }
        }
    }
}

/// Every finite set of strings has a strictly increasing enumeration.
pub proof fn lemma_sorted_enumeration_exists(s: Set<Seq<char>>)
    requires
        s.finite(),
    ensures
        exists|q: Seq<Seq<char>>| strictly_sorted(q) && q.to_set() == s,
{
    let leq = |a: Seq<char>, b: Seq<char>| a == b || seq_lt(a, b);
    assert(vstd::relations::total_ordering(leq)) by {
        assert forall|a: Seq<char>, b: Seq<char>| #[trigger] leq(a, b) && #[trigger] leq(b, a) implies a == b by {
            if a != b {
                lemma_seq_lt_asymmetric(a, b);
            }
        }
        assert forall|a: Seq<char>, b: Seq<char>, c: Seq<char>| #[trigger] leq(a, b) && #[trigger] leq(b, c) implies leq(
            a,
            c,
        ) by {
            if a != b && b != c {
                lemma_seq_lt_transitive(a, b, c);
            }
        }
        assert forall|a: Seq<char>, b: Seq<char>| #[trigger] leq(a, b) || #[trigger] leq(b, a) by {
            lemma_seq_lt_total(a, b);
        }
    }
    lemma_to_seq_no_duplicates(s);
    let q0 = s.to_seq();
    q0.lemma_sort_by_ensures(leq);
    let q = q0.sort_by(leq);
    q0.to_multiset_ensures();
    q.to_multiset_ensures();
    assert forall|x: Seq<char>| q.to_set().contains(x) <==> s.contains(x) by {
        assert(q.contains(x) <==> q.to_multiset().count(x) > 0);
        assert(q0.contains(x) <==> q0.to_multiset().count(x) > 0);
        assert(q0.to_set().contains(x) <==> q0.contains(x));
    }
    assert(q.to_set() =~= s);
    q0.lemma_multiset_has_no_duplicates();
    q.lemma_multiset_has_no_duplicates_conv();
    assert forall|i: int, j: int| 0 <= i < j < q.len() implies seq_lt(#[trigger] q[i], #[trigger] q[j]) by {
        assert(leq(q[i], q[j]));
        assert(q[i] != q[j]);
    }
    assert(strictly_sorted(q));
}

/// The set of trimmed, non-blank strings of a sequence is finite.
pub proof fn lemma_trimmed_nonempty_finite(m: Seq<Seq<char>>)
    ensures
        trimmed_nonempty_set(m).finite(),
{
    let img = m.map_values(|x: Seq<char>| trim(x)).to_set();
    assert(trimmed_nonempty_set(m).subset_of(img)) by {
        assert forall|x: Seq<char>| trimmed_nonempty_set(m).contains(x) implies img.contains(x) by {
            let i = choose|i: int| 0 <= i < m.len() && trim(#[trigger] m[i]) == x;
            assert(m.map_values(|x: Seq<char>| trim(x))[i] == x);
        }
    }
    vstd::seq_lib::seq_to_set_is_finite(m.map_values(|x: Seq<char>| trim(x)));
    vstd::set_lib::lemma_set_subset_finite(img, trimmed_nonempty_set(m));
}

/// A trimmed string that is not blank begins and ends with non-whitespace.
proof fn lemma_trim_start_shape(s: Seq<char>)
    ensures
        trim_start(s).len() == 0 || !is_ws(trim_start(s)[0]),
    decreases s.len(),
{
    if s.len() > 0 && is_ws(s[0]) {
        lemma_trim_start_shape(s.drop_first());
    }
}

proof fn lemma_trim_end_shape(s: Seq<char>)
    ensures
        trim_end(s).len() <= s.len(),
        trim_end(s) == s.subrange(0, trim_end(s).len() as int),
        trim_end(s).len() == 0 || !is_ws(trim_end(s).last()),
    decreases s.len(),
{
    if s.len() > 0 && is_ws(s.last()) {
        lemma_trim_end_shape(s.drop_last());
        assert(s.drop_last().subrange(0, trim_end(s).len() as int) =~= s.subrange(0, trim_end(s).len() as int));
    } else {
        assert(s.subrange(0, s.len() as int) =~= s);
    }
}

/// Trimming twice is trimming once; a non-blank trimmed string starts and
/// ends with non-whitespace.
pub proof fn lemma_trim_idempotent(s: Seq<char>)
    ensures
        trim(trim(s)) == trim(s),
        trim(s).len() > 0 ==> !is_ws(trim(s)[0]) && !is_ws(trim(s).last()),
{
    let a = trim_start(s);
    lemma_trim_start_shape(s);
    lemma_trim_end_shape(a);
    let t = trim(s);
    if t.len() > 0 {
        assert(t[0] == a[0]);
        assert(trim_start(t) == t);
        assert(trim_end(t) == t);
    } else {
        assert(trim_start(t) == t);
        assert(trim_end(t) == t);
    }
}

/// The text cut at each `sep`, as `str::split` cuts it.
pub open spec fn split_by(t: Seq<char>, sep: char) -> Seq<Seq<char>>
    decreases t.len(),
{
    if t.len() == 0 {
        seq![Seq::<char>::empty()]
    } else {
        let before = split_by(t.drop_last(), sep);
        if t.last() == sep {
            before.push(Seq::empty())
        } else {
            before.update(before.len() - 1, before.last().push(t.last()))
        }
    }
}

/// Every element is strictly below every later element.
pub open spec fn strictly_sorted(s: Seq<Seq<char>>) -> bool {
    forall|i: int, j: int| 0 <= i < j < s.len() ==> seq_lt(#[trigger] s[i], #[trigger] s[j])
}

pub proof fn lemma_strictly_sorted_no_duplicates(s: Seq<Seq<char>>)
    requires
        strictly_sorted(s),
    ensures
        s.no_duplicates(),
{
    assert forall|i: int, j: int| 0 <= i < s.len() && 0 <= j < s.len() && i != j implies s[i]
        != s[j] by {
        if i < j {
            lemma_seq_lt_irreflexive(s[i]);
        } else {
            lemma_seq_lt_irreflexive(s[j]);
        }
    }
}

/// Two strictly sorted sequences with the same elements are equal.
pub proof fn lemma_strictly_sorted_unique(a: Seq<Seq<char>>, b: Seq<Seq<char>>)
    requires
        strictly_sorted(a),
        strictly_sorted(b),
        a.to_set() == b.to_set(),
    ensures
        a == b,
    decreases a.len(),
{
    if a.len() == 0 {
        if b.len() > 0 {
            assert(b.to_set().contains(b[0]));
        }
        assert(a =~= b);
    } else if b.len() == 0 {
        assert(a.to_set().contains(a[0]));
    } else {
        // The least elements agree.
        assert(b.to_set().contains(a[0]));
        assert(a.to_set().contains(b[0]));
        let i = choose|i: int| 0 <= i < b.len() && b[i] == a[0];
        let j = choose|j: int| 0 <= j < a.len() && a[j] == b[0];
        if a[0] != b[0] {
            assert(i > 0 && j > 0);
            assert(seq_lt(b[0], b[i]));
            assert(seq_lt(a[0], a[j]));
            lemma_seq_lt_asymmetric(b[0], a[0]);
        }
        let a2 = a.drop_first();
        let b2 = b.drop_first();
        assert forall|x: Seq<char>| a2.to_set().contains(x) implies b2.to_set().contains(x) by {
            let k = choose|k: int| 0 <= k < a2.len() && a2[k] == x;
            assert(a[k + 1] == x);
            assert(seq_lt(a[0], x));
            assert(b.to_set().contains(x));
            let l = choose|l: int| 0 <= l < b.len() && b[l] == x;
            if l == 0 {
                lemma_seq_lt_irreflexive(x);
            }
            assert(b2[l - 1] == x);
        }
        assert forall|x: Seq<char>| b2.to_set().contains(x) implies a2.to_set().contains(x) by {
            let k = choose|k: int| 0 <= k < b2.len() && b2[k] == x;
            assert(b[k + 1] == x);
            assert(seq_lt(b[0], x));
            assert(a.to_set().contains(x));
            let l = choose|l: int| 0 <= l < a.len() && a[l] == x;
            if l == 0 {
                lemma_seq_lt_irreflexive(x);
            }
            assert(a2[l - 1] == x);
        }
        assert(a2.to_set() =~= b2.to_set());
        lemma_strictly_sorted_unique(a2, b2);
        assert(a =~= seq![a[0]] + a2);
        assert(b =~= seq![b[0]] + b2);
    }
}

/// Inserts `x` into a strictly sorted list of strings, keeping it strictly
/// sorted; returns whether `x` was new.
pub fn insert_sorted_unique(v: &mut Vec<String>, x: String) -> (added: bool)
    requires
        strictly_sorted(old(v).deep_view()),
    ensures
        strictly_sorted(final(v).deep_view()),
        final(v).deep_view().to_set() == old(v).deep_view().to_set().insert(x@),
        added == !old(v).deep_view().contains(x@),
{
    let ghost old_dv = v.deep_view();
    let n = v.len();
    let mut p: usize = 0;
    while p < n && string_lt(&v[p], &x)
        invariant
            n == v.len(),
            v.deep_view() == old_dv,
            p <= n,
            forall|k: int| 0 <= k < p ==> seq_lt(#[trigger] old_dv[k], x@),
        decreases n - p,
    {
        p = p + 1;
    }
    if p < n && v[p] == x {
        proof {
            assert(old_dv[p as int] == x@);
            assert(old_dv.to_set().insert(x@) =~= old_dv.to_set());
        }
        return false;
    }
    proof {
        if p < n {
            lemma_seq_lt_total(old_dv[p as int], x@);
        }
        assert forall|k: int| p <= k < n implies seq_lt(x@, #[trigger] old_dv[k]) by {
            if k > p {
                lemma_seq_lt_transitive(x@, old_dv[p as int], old_dv[k]);
            }
        }
        assert(!old_dv.contains(x@)) by {
            if old_dv.contains(x@) {
                let k = choose|k: int| 0 <= k < old_dv.len() && old_dv[k] == x@;
                lemma_seq_lt_irreflexive(x@);
            }
        }
    }
    let ghost xv = x@;
    v.insert(p, x);
    proof {
        let nv = v.deep_view();
        assert(nv =~= old_dv.insert(p as int, xv));
        assert forall|i: int, j: int| 0 <= i < j < nv.len() implies seq_lt(
            #[trigger] nv[i],
            #[trigger] nv[j],
        ) by {
            if j < p {
            } else if j == p {
            } else if i < p {
                assert(nv[j] == old_dv[j - 1]);
                lemma_seq_lt_transitive(nv[i], xv, nv[j]);
            } else if i == p {
                assert(nv[j] == old_dv[j - 1]);
            } else {
                assert(nv[i] == old_dv[i - 1]);
                assert(nv[j] == old_dv[j - 1]);
            }
        }
        assert forall|y: Seq<char>| nv.to_set().contains(y) <==> old_dv.to_set().insert(
            xv,
        ).contains(y) by {
            if nv.to_set().contains(y) {
                let k = choose|k: int| 0 <= k < nv.len() && nv[k] == y;
                if k < p {
                    assert(old_dv[k] == y);
                } else if k > p {
                    assert(old_dv[k - 1] == y);
                }
            }
            if old_dv.to_set().contains(y) {
                let k = choose|k: int| 0 <= k < old_dv.len() && old_dv[k] == y;
                if k < p {
                    assert(nv[k] == y);
                } else {
                    assert(nv[k + 1] == y);
                }
            }
            if y == xv {
                assert(nv[p as int] == y);
            }
        }
        assert(nv.to_set() =~= old_dv.to_set().insert(xv));
    }
    true
}

/// The trimmed, non-empty elements of `s`.
pub open spec fn trimmed_nonempty_set(s: Seq<Seq<char>>) -> Set<Seq<char>> {
    Set::new(|x: Seq<char>| x.len() > 0 && exists|i: int| 0 <= i < s.len() && trim(#[trigger] s[i]) == x)
}

/// One more string adds its trimmed form, unless that is empty.
pub proof fn lemma_trimmed_nonempty_push(s: Seq<Seq<char>>, x: Seq<char>)
    ensures
        trimmed_nonempty_set(s.push(x)) == (if trim(x).len() > 0 {
            trimmed_nonempty_set(s).insert(trim(x))
        } else {
            trimmed_nonempty_set(s)
        }),
{
    let t = s.push(x);
    let rhs = if trim(x).len() > 0 {
        trimmed_nonempty_set(s).insert(trim(x))
    } else {
        trimmed_nonempty_set(s)
    };
    assert forall|y: Seq<char>| #[trigger] trimmed_nonempty_set(t).contains(y) <==> rhs.contains(y) by {
        if trimmed_nonempty_set(t).contains(y) {
            let k = choose|k: int| 0 <= k < t.len() && trim(#[trigger] t[k]) == y;
            if k < s.len() {
                assert(s[k] == t[k]);
            }
        }
        if trimmed_nonempty_set(s).contains(y) {
            let k = choose|k: int| 0 <= k < s.len() && trim(#[trigger] s[k]) == y;
            assert(t[k] == s[k]);
        }
        if trim(x).len() > 0 && y == trim(x) {
            assert(t[s.len() as int] == x);
        }
    }
    assert(trimmed_nonempty_set(t) =~= rhs);
}

/// Trims every string, drops the empty ones, sorts and removes duplicates.
/// The result is the unique strictly sorted list of those strings.
pub fn normalize_id_list(ids: &Vec<String>) -> (r: Vec<String>)
    ensures
        strictly_sorted(r.deep_view()),
        r.deep_view().to_set() == trimmed_nonempty_set(ids.deep_view()),
{
    let mut out: Vec<String> = Vec::new();
    let ghost src = ids.deep_view();
    let mut i: usize = 0;
    while i < ids.len()
        invariant
            src == ids.deep_view(),
            i <= ids.len(),
            strictly_sorted(out.deep_view()),
            out.deep_view().to_set() == trimmed_nonempty_set(src.take(i as int)),
        decreases ids.len() - i,
    {
        let t = trim_string(&ids[i]);
        proof {
            assert(src[i as int] == ids[i as int]@);
        }
        let ghost before = out.deep_view().to_set();
        if !t.as_str().is_empty() {
            let ghost tv = t@;
            insert_sorted_unique(&mut out, t);
            proof {
                assert(trimmed_nonempty_set(src.take(i + 1)) =~= before.insert(tv)) by {
                    assert(src.take(i + 1)[i as int] == src[i as int]);
                    assert forall|x: Seq<char>| #[trigger] trimmed_nonempty_set(src.take(i + 1)).contains(x)
                        implies before.insert(tv).contains(x) by {
                        let k = choose|k: int| 0 <= k < i + 1 && trim(#[trigger] src.take(i + 1)[k]) == x;
                        if k < i {
                            assert(src.take(i as int)[k] == src.take(i + 1)[k]);
                        }
                    }
                    assert forall|x: Seq<char>| before.insert(tv).contains(x) implies #[trigger] trimmed_nonempty_set(
                        src.take(i + 1),
                    ).contains(x) by {
                        if x != tv {
                            let k = choose|k: int| 0 <= k < i && trim(#[trigger] src.take(i as int)[k]) == x;
                            assert(src.take(i as int)[k] == src.take(i + 1)[k]);
                        }
                    }
                }
            }
        } else {
            proof {
                assert(trimmed_nonempty_set(src.take(i + 1)) =~= before) by {
                    assert(src.take(i + 1)[i as int] == src[i as int]);
                    assert forall|x: Seq<char>| #[trigger] trimmed_nonempty_set(src.take(i + 1)).contains(x)
                        implies before.contains(x) by {
                        let k = choose|k: int| 0 <= k < i + 1 && trim(#[trigger] src.take(i + 1)[k]) == x;
                        if k < i {
                            assert(src.take(i as int)[k] == src.take(i + 1)[k]);
                        }
                    }
                    assert forall|x: Seq<char>| before.contains(x) implies #[trigger] trimmed_nonempty_set(
                        src.take(i + 1),
                    ).contains(x) by {
                        let k = choose|k: int| 0 <= k < i && trim(#[trigger] src.take(i as int)[k]) == x;
                        assert(src.take(i as int)[k] == src.take(i + 1)[k]);
                    }
                }
            }
        }
        i = i + 1;
    }
    proof {
        assert(src.take(ids.len() as int) == src);
    }
    out
}

/// Filtering a sequence with one more element at its end.
pub proof fn lemma_filter_push<A>(s: Seq<A>, pred: spec_fn(A) -> bool, e: A)
    ensures
        pred(e) ==> s.push(e).filter(pred) == s.filter(pred).push(e),
        !pred(e) ==> s.push(e).filter(pred) == s.filter(pred),
{
    reveal(Seq::filter);
    assert(s.push(e).drop_last() == s);
}

/// Filtering a strictly sorted sequence keeps it strictly sorted, and keeps
/// exactly the members that pass.
pub proof fn lemma_filter_strictly_sorted(s: Seq<Seq<char>>, pred: spec_fn(Seq<char>) -> bool)
    requires
        strictly_sorted(s),
    ensures
        strictly_sorted(s.filter(pred)),
        s.filter(pred).to_set() == s.to_set().filter(pred),
    decreases s.len(),
{
    reveal(Seq::filter);
    if s.len() > 0 {
        let d = s.drop_last();
        assert forall|i: int, j: int| 0 <= i < j < d.len() implies seq_lt(#[trigger] d[i], #[trigger] d[j]) by {
            assert(d[i] == s[i] && d[j] == s[j]);
        }
        lemma_filter_strictly_sorted(d, pred);
        let f = d.filter(pred);
        if pred(s.last()) {
            let g = f.push(s.last());
            assert forall|i: int, j: int| 0 <= i < j < g.len() implies seq_lt(#[trigger] g[i], #[trigger] g[j]) by {
                if j == g.len() - 1 {
                    assert(f.contains(g[i])) by {
                        assert(f[i] == g[i]);
                    }
                    d.lemma_filter_contains_rev(pred, g[i]);
                    let k = choose|k: int| 0 <= k < d.len() && d[k] == g[i];
                    assert(s[k] == g[i]);
                    assert(seq_lt(s[k], s[s.len() - 1]));
                } else {
                    assert(g[i] == f[i] && g[j] == f[j]);
                }
            }
        }
        assert forall|x: Seq<char>| s.filter(pred).to_set().contains(x) <==> s.to_set().filter(pred).contains(x) by {
            assert(s =~= d.push(s.last()));
            if s.filter(pred).to_set().contains(x) {
                assert(s.filter(pred).contains(x));
                s.lemma_filter_contains_rev(pred, x);
                let k = choose|k: int| 0 <= k < s.filter(pred).len() && s.filter(pred)[k] == x;
                s.lemma_filter_pred(pred, k);
                assert(pred(x));
            }
            if s.to_set().filter(pred).contains(x) {
                assert(s.contains(x));
                let k = choose|k: int| 0 <= k < s.len() && s[k] == x;
                s.lemma_filter_contains(pred, k);
                assert(s.filter(pred).contains(s[k]));
            }
        }
        assert(s.filter(pred).to_set() =~= s.to_set().filter(pred));
    } else {
        assert(s.to_set().filter(pred) =~= Set::<Seq<char>>::empty());
        assert(s.filter(pred).to_set() =~= Set::<Seq<char>>::empty());
    }
}

/// The strictly sorted sequence holding exactly the strings of `s`.
pub open spec fn sorted_seq_of(s: Set<Seq<char>>) -> Seq<Seq<char>> {
    choose|r: Seq<Seq<char>>| strictly_sorted(r) && r.to_set() == s
}

/// Sorts a list of strings and removes duplicates, as `sort` then `dedup`.
pub fn sort_dedup(v: &Vec<String>) -> (r: Vec<String>)
    ensures
        r.deep_view() == sorted_seq_of(v.deep_view().to_set()),
        strictly_sorted(r.deep_view()),
        r.deep_view().to_set() == v.deep_view().to_set(),
{
    let mut out: Vec<String> = Vec::new();
    let ghost src = v.deep_view();
    let mut i: usize = 0;
    assert(out.deep_view().to_set() =~= src.take(0).to_set());
    while i < v.len()
        invariant
            src == v.deep_view(),
            i <= v@.len(),
            strictly_sorted(out.deep_view()),
            out.deep_view().to_set() == src.take(i as int).to_set(),
        decreases v@.len() - i,
    {
        let c = v[i].clone();
        proof {
            assert(src[i as int] == c@);
            assert(src.take(i + 1).to_set() =~= src.take(i as int).to_set().insert(c@)) by {
                assert forall|y: Seq<char>| src.take(i + 1).to_set().contains(y) <==> src.take(
                    i as int,
                ).to_set().insert(c@).contains(y) by {
                    if src.take(i + 1).to_set().contains(y) {
                        let k = choose|k: int| 0 <= k < i + 1 && #[trigger] src.take(i + 1)[k] == y;
                        if k < i {
                            assert(src.take(i as int)[k] == y);
                        }
                    }
                    if src.take(i as int).to_set().contains(y) {
                        let k = choose|k: int| 0 <= k < i && #[trigger] src.take(i as int)[k] == y;
                        assert(src.take(i + 1)[k] == y);
                    }
                    if y == c@ {
                        assert(src.take(i + 1)[i as int] == y);
                    }
                }
            }
        }
        insert_sorted_unique(&mut out, c);
        i = i + 1;
    }
    proof {
        assert(src.take(v@.len() as int) == src);
        let w = choose|r: Seq<Seq<char>>| strictly_sorted(r) && r.to_set() == src.to_set();
        assert(strictly_sorted(out.deep_view()) && out.deep_view().to_set() == src.to_set());
        lemma_strictly_sorted_unique(out.deep_view(), w);
    }
    out
}

/// Whether a list of strings holds `x`.
pub fn contains_str(v: &Vec<String>, x: &str) -> (r: bool)
    ensures
        r == v.deep_view().contains(x@),
{
    let mut k: usize = 0;
    while k < v.len()
        invariant
            k <= v@.len(),
            forall|j: int| 0 <= j < k ==> v.deep_view()[j] != x@,
        decreases v@.len() - k,
    {
        if str_eq(v[k].as_str(), x) {
            proof {
                assert(v.deep_view()[k as int] == x@);
            }
            return true;
        }
        k = k + 1;
    }
    false
}

/// A copy of a list of strings.
pub fn clone_strings(v: &Vec<String>) -> (r: Vec<String>)
    ensures
        r.deep_view() == v.deep_view(),
{
    let mut out: Vec<String> = Vec::new();
    let mut i: usize = 0;
    while i < v.len()
        invariant
            i <= v@.len(),
            out.deep_view() == v.deep_view().take(i as int),
        decreases v@.len() - i,
    {
        let c = v[i].clone();
        let ghost before = out.deep_view();
        out.push(c);
        proof {
            assert(out.deep_view() =~= before.push(c@));
            assert(v.deep_view()[i as int] == c@);
            assert(v.deep_view().take(i + 1) =~= v.deep_view().take(i as int).push(c@));
        }
        i = i + 1;
    }
    proof {
        assert(v.deep_view().take(v@.len() as int) == v.deep_view());
    }
    out
}

/// The strings one after the other, with `sep` between neighbours.
pub open spec fn joined(parts: Seq<Seq<char>>, sep: Seq<char>) -> Seq<char>
    decreases parts.len(),
{
    if parts.len() == 0 {
        Seq::empty()
    } else if parts.len() == 1 {
        parts[0]
    } else {
        joined(parts.drop_last(), sep) + sep + parts.last()
    }
}

/// Joins the strings with `sep` between neighbours.
pub fn join_strings(parts: &Vec<String>, sep: &str) -> (r: String)
    ensures
        r@ == joined(parts.deep_view(), sep@),
{
    let ghost all = parts.deep_view();
    let mut r = String::new();
    let mut i: usize = 0;
    proof {
        assert(all.take(0) =~= Seq::<Seq<char>>::empty());
        assert(r@ =~= Seq::<char>::empty());
    }
    while i < parts.len()
        invariant
            all == parts.deep_view(),
            i <= parts.len(),
            r@ == joined(all.take(i as int), sep@),
        decreases parts.len() - i,
    {
        proof {
            assert(all.take(i + 1).drop_last() =~= all.take(i as int));
            assert(all.take(i + 1).last() == parts[i as int]@);
        }
        if i > 0 {
            r = r.concat(sep);
        } else {
            assert(all.take(1) =~= seq![parts[0]@]);
            assert(r@ + parts[0]@ =~= parts[0]@);
        }
        r = r.concat(parts[i].as_str());
        i = i + 1;
    }
    proof {
        assert(all.take(parts.len() as int) =~= all);
    }
    r
}

} // verus!
