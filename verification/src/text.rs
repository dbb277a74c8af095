//! Character-level text helpers shared by the scanner, the front-matter reader and
//! the search-query builder. Every string is reasoned about through its view, the
//! sequence of its Unicode scalar values.
use vstd::prelude::*;

verus! {

/// Whether `c` has the Unicode `White_Space` property, the set that `str::trim`
/// and `str::split_whitespace` remove.
pub open spec fn is_white(c: char) -> bool {
    ||| ('\u{9}' <= c && c <= '\u{d}')
    ||| c == ' '
    ||| c == '\u{85}'
    ||| c == '\u{a0}'
    ||| c == '\u{1680}'
    ||| ('\u{2000}' <= c && c <= '\u{200a}')
    ||| c == '\u{2028}'
    ||| c == '\u{2029}'
    ||| c == '\u{202f}'
    ||| c == '\u{205f}'
    ||| c == '\u{3000}'
}

/// `s` without its leading white space.
pub open spec fn trim_start(s: Seq<char>) -> Seq<char>
    decreases s.len(),
{
    if s.len() > 0 && is_white(s[0]) {
        trim_start(s.drop_first())
    } else {
        s
    }
}

/// `s` without its trailing white space.
pub open spec fn trim_end(s: Seq<char>) -> Seq<char>
    decreases s.len(),
{
    if s.len() > 0 && is_white(s.last()) {
        trim_end(s.drop_last())
    } else {
        s
    }
}

/// `s` without leading and trailing white space, as `str::trim` gives it.
pub open spec fn trim(s: Seq<char>) -> Seq<char> {
    trim_end(trim_start(s))
}

/// ASCII lower case of one character; every other character is kept.
pub open spec fn ascii_lower(c: char) -> char {
    if 'A' <= c && c <= 'Z' {
        ((c as u32) + 32) as char
    } else {
        c
    }
}

/// Whether `s` ends with `suffix` once both are taken to ASCII lower case.
pub open spec fn ends_with_ci(s: Seq<char>, suffix: Seq<char>) -> bool {
    &&& suffix.len() <= s.len()
    &&& forall|i: int|
        0 <= i < suffix.len() ==> #[trigger] ascii_lower(s[s.len() - suffix.len() + i])
            == ascii_lower(suffix[i])
}

/// Whether `needle` occurs in `hay` at position `i`.
pub open spec fn occurs_at(hay: Seq<char>, needle: Seq<char>, i: int) -> bool {
    &&& 0 <= i
    &&& i + needle.len() <= hay.len()
    &&& hay.subrange(i, i + needle.len()) == needle
}

/// Whether `needle` occurs anywhere in `hay`, as `str::contains` tests it.
pub open spec fn contains_seq(hay: Seq<char>, needle: Seq<char>) -> bool {
    exists|i: int| occurs_at(hay, needle, i)
}

/// Lexicographic order on strings by code point, which is the order `String`
/// compares in (UTF-8 preserves code point order).
pub open spec fn seq_lt(a: Seq<char>, b: Seq<char>) -> bool
    decreases a.len(),
{
    if a.len() == 0 {
        b.len() > 0
    } else if b.len() == 0 {
        false
    } else if a[0] != b[0] {
        a[0] < b[0]
    } else {
        seq_lt(a.drop_first(), b.drop_first())
    }
}

pub proof fn lemma_seq_lt_irreflexive(a: Seq<char>)
    ensures
        !seq_lt(a, a),
    decreases a.len(),
{
    if a.len() > 0 {
        lemma_seq_lt_irreflexive(a.drop_first());
    }
}

pub proof fn lemma_seq_lt_asymmetric(a: Seq<char>, b: Seq<char>)
    ensures
        seq_lt(a, b) ==> !seq_lt(b, a),
    decreases a.len(),
{
    if a.len() > 0 && b.len() > 0 && a[0] == b[0] {
        lemma_seq_lt_asymmetric(a.drop_first(), b.drop_first());
    }
}

pub proof fn lemma_seq_lt_transitive(a: Seq<char>, b: Seq<char>, c: Seq<char>)
    requires
        seq_lt(a, b),
        seq_lt(b, c),
    ensures
        seq_lt(a, c),
    decreases a.len(),
{
    if a.len() > 0 && b.len() > 0 && c.len() > 0 && a[0] == b[0] && b[0] == c[0] {
        lemma_seq_lt_transitive(a.drop_first(), b.drop_first(), c.drop_first());
    }
}

pub proof fn lemma_seq_lt_total(a: Seq<char>, b: Seq<char>)
    ensures
        a == b || seq_lt(a, b) || seq_lt(b, a),
    decreases a.len(),
{
    if a.len() > 0 && b.len() > 0 {
        if a[0] == b[0] {
            lemma_seq_lt_total(a.drop_first(), b.drop_first());
            if a.drop_first() == b.drop_first() {
                assert(a =~= seq![a[0]] + a.drop_first());
                assert(b =~= seq![b[0]] + b.drop_first());
            }
        }
    } else if a.len() == 0 && b.len() == 0 {
        assert(a =~= b);
    }
}

/// Characters of a string slice, in order.
pub fn chars_of(s: &str) -> (v: Vec<char>)
    ensures
        v@ == s@,
{
    let mut v: Vec<char> = Vec::new();
    for c in it: s.chars()
        invariant
            it.seq() == s@,
            v@ == it.seq().take(it.index() as int),
    {
        v.push(c);
    }
    v
}

/// Appends one character to a string.
#[verifier::external_body]
fn push_char(s: &mut String, c: char)
    ensures
        final(s)@ == old(s)@.push(c),
{
    s.push(c);
}

/// The string whose characters are `v[from..to]`.
pub fn string_from(v: &Vec<char>, from: usize, to: usize) -> (s: String)
    requires
        from <= to <= v.len(),
    ensures
        s@ == v@.subrange(from as int, to as int),
{
    let mut s = String::new();
    let mut i = from;
    while i < to
        invariant
            from <= i <= to <= v.len(),
            s@ == v@.subrange(from as int, i as int),
        decreases to - i,
    {
        push_char(&mut s, v[i]);
        assert(v@.subrange(from as int, (i + 1) as int) =~= v@.subrange(from as int, i as int).push(v@[i as int]));
        i = i + 1;
    }
    s
}

/// The string whose characters are all of `v`.
pub fn string_of(v: &Vec<char>) -> (s: String)
    ensures
        s@ == v@,
{
    let s = string_from(v, 0, v.len());
    assert(v@.subrange(0, v@.len() as int) =~= v@);
    s
}

/// Appends every character of `v` to `out`.
pub fn extend_chars(out: &mut Vec<char>, v: &Vec<char>)
    ensures
        final(out)@ == old(out)@ + v@,
{
    let mut i: usize = 0;
    while i < v.len()
        invariant
            0 <= i <= v.len(),
            out@ == old(out)@ + v@.subrange(0, i as int),
        decreases v.len() - i,
    {
        out.push(v[i]);
        assert(v@.subrange(0, (i + 1) as int) =~= v@.subrange(0, i as int).push(v@[i as int]));
        i = i + 1;
    }
    assert(v@.subrange(0, v@.len() as int) =~= v@);
}

/// Exec test of the `White_Space` property.
pub fn is_white_char(c: char) -> (b: bool)
    ensures
        b == is_white(c),
{
    ('\u{9}' <= c && c <= '\u{d}') || c == ' ' || c == '\u{85}' || c == '\u{a0}' || c == '\u{1680}'
        || ('\u{2000}' <= c && c <= '\u{200a}') || c == '\u{2028}' || c == '\u{2029}' || c
        == '\u{202f}' || c == '\u{205f}' || c == '\u{3000}'
}

/// The bounds `[start, end)` of `v` with the leading and trailing white space left out.
pub fn trim_bounds(v: &Vec<char>) -> (r: (usize, usize))
    ensures
        r.0 <= r.1 <= v.len(),
        v@.subrange(r.0 as int, r.1 as int) == trim(v@),
{
    let n = v.len();
    let mut i: usize = 0;
    assert(v@.subrange(0, n as int) =~= v@);
    while i < n && is_white_char(v[i])
        invariant
            i <= n == v.len(),
            trim_start(v@) == trim_start(v@.subrange(i as int, n as int)),
        decreases n - i,
    {
        assert(v@.subrange(i as int, n as int).drop_first() =~= v@.subrange(i + 1, n as int));
        i = i + 1;
    }
    assert(trim_start(v@.subrange(i as int, n as int)) == v@.subrange(i as int, n as int));
    let mut j: usize = n;
    while j > i && is_white_char(v[j - 1])
        invariant
            i <= j <= n == v.len(),
            trim(v@) == trim_end(v@.subrange(i as int, j as int)),
        decreases j,
    {
        assert(v@.subrange(i as int, j as int).drop_last() =~= v@.subrange(i as int, j - 1));
        j = j - 1;
    }
    (i, j)
}

/// `s` with leading and trailing white space removed.
pub fn trim_str(s: &str) -> (r: String)
    ensures
        r@ == trim(s@),
{
    let v = chars_of(s);
    let (a, b) = trim_bounds(&v);
    string_from(&v, a, b)
}

/// Exec ASCII lower case.
pub fn ascii_lower_char(c: char) -> (r: char)
    ensures
        r == ascii_lower(c),
{
    if 'A' <= c && c <= 'Z' {
        let u: u8 = (c as u8) + 32;
        u as char
    } else {
        c
    }
}

/// Whether `v` ends with `suffix`, ignoring ASCII case.
pub fn ends_with_ci_chars(v: &Vec<char>, suffix: &Vec<char>) -> (b: bool)
    ensures
        b == ends_with_ci(v@, suffix@),
{
    if suffix.len() > v.len() {
        return false;
    }
    let off = v.len() - suffix.len();
    let mut i: usize = 0;
    while i < suffix.len()
        invariant
            off + suffix.len() == v.len(),
            0 <= i <= suffix.len(),
            forall|k: int|
                0 <= k < i ==> #[trigger] ascii_lower(v@[v@.len() - suffix@.len() + k])
                    == ascii_lower(suffix@[k]),
        decreases suffix.len() - i,
    {
        if ascii_lower_char(v[off + i]) != ascii_lower_char(suffix[i]) {
            assert(!(ascii_lower(v@[v@.len() - suffix@.len() + i]) == ascii_lower(suffix@[i as int])));
            return false;
        }
        i = i + 1;
    }
    true
}

/// Whether `needle` occurs in `hay` at position `at`.
fn occurs_at_exec(hay: &Vec<char>, needle: &Vec<char>, at: usize) -> (b: bool)
    requires
        at + needle.len() <= hay.len(),
    ensures
        b == occurs_at(hay@, needle@, at as int),
{
    let mut k: usize = 0;
    while k < needle.len()
        invariant
            at + needle.len() <= hay.len(),
            0 <= k <= needle.len(),
            forall|m: int| 0 <= m < k ==> hay@[at + m] == needle@[m],
        decreases needle.len() - k,
    {
        if hay[at + k] != needle[k] {
            assert(hay@.subrange(at as int, at + needle@.len())[k as int] != needle@[k as int]);
            return false;
        }
        k = k + 1;
    }
    assert(hay@.subrange(at as int, at + needle@.len()) =~= needle@);
    true
}

/// Whether `needle` occurs anywhere in `hay`.
pub fn contains_chars(hay: &Vec<char>, needle: &Vec<char>) -> (b: bool)
    ensures
        b == contains_seq(hay@, needle@),
{
    if needle.len() > hay.len() {
        return false;
    }
    if needle.len() == 0 {
        assert(hay@.subrange(0, 0) =~= needle@);
        assert(occurs_at(hay@, needle@, 0));
        return true;
    }
    let last = hay.len() - needle.len();
    let mut i: usize = 0;
    while i <= last
        invariant
            last + needle.len() == hay.len(),
            needle.len() > 0,
            0 <= i <= last + 1,
            forall|k: int| 0 <= k < i ==> !occurs_at(hay@, needle@, k),
        decreases last + 1 - i,
    {
        if occurs_at_exec(hay, needle, i) {
            return true;
        }
        i = i + 1;
    }
    false
}

/// Code-point lexicographic comparison of two character vectors.
pub fn chars_lt(a: &Vec<char>, b: &Vec<char>) -> (r: bool)
    ensures
        r == seq_lt(a@, b@),
{
    let mut i: usize = 0;
    assert(a@.skip(0) =~= a@);
    assert(b@.skip(0) =~= b@);
    while i < a.len() && i < b.len() && a[i] == b[i]
        invariant
            0 <= i <= a.len(),
            i <= b.len(),
            seq_lt(a@, b@) == seq_lt(a@.skip(i as int), b@.skip(i as int)),
        decreases a.len() - i,
    {
        assert(a@.skip(i as int).drop_first() =~= a@.skip(i + 1));
        assert(b@.skip(i as int).drop_first() =~= b@.skip(i + 1));
        i = i + 1;
    }
    if i == a.len() {
        i < b.len()
    } else if i == b.len() {
        false
    } else {
        a[i] < b[i]
    }
}

/// The views of a sequence of strings.
pub open spec fn views(v: Seq<String>) -> Seq<Seq<char>> {
    v.map_values(|s: String| s@)
}

/// The strings of `s` that satisfy `p`, in their order.
pub open spec fn select(s: Seq<Seq<char>>, p: spec_fn(Seq<char>) -> bool) -> Seq<Seq<char>>
    decreases s.len(),
{
    if s.len() == 0 {
        seq![]
    } else if p(s.last()) {
        select(s.drop_last(), p).push(s.last())
    } else {
        select(s.drop_last(), p)
    }
}

/// Whether `s` never decreases.
pub open spec fn is_sorted_seq(s: Seq<Seq<char>>) -> bool {
    forall|i: int, j: int| 0 <= i < j < s.len() ==> !seq_lt(s[j], s[i])
}

/// Whether `out` holds the strings of `inp`, rearranged into non-decreasing order.
pub open spec fn is_sorted_permutation(out: Seq<Seq<char>>, inp: Seq<Seq<char>>) -> bool {
    &&& is_sorted_seq(out)
    &&& out.to_multiset() == inp.to_multiset()
}

/// The strings of `v` in sorted order, as `sort` arranges them.
pub fn sort_strings(v: &Vec<String>) -> (r: Vec<String>)
    ensures
        is_sorted_permutation(views(r@), views(v@)),
{
    broadcast use vstd::seq_lib::group_to_multiset_ensures;
    broadcast use vstd::multiset::group_multiset_axioms;

    let mut out: Vec<String> = Vec::new();
    let mut keys: Vec<Vec<char>> = Vec::new();
    let n = v.len();
    let mut k: usize = 0;
    while k < n
        invariant
            n == v.len(),
            0 <= k <= n,
            keys@.len() == out@.len(),
            forall|i: int| 0 <= i < keys@.len() ==> #[trigger] keys@[i]@ == out@[i]@,
            is_sorted_seq(views(out@)),
            views(out@).to_multiset() == views(v@).take(k as int).to_multiset(),
        decreases n - k,
    {
        let key = chars_of(v[k].as_str());
        let mut p: usize = 0;
        while p < keys.len() && !chars_lt(&key, &keys[p])
            invariant
                keys@.len() == out@.len(),
                forall|i: int| 0 <= i < keys@.len() ==> #[trigger] keys@[i]@ == out@[i]@,
                0 <= p <= keys@.len(),
                forall|i: int| 0 <= i < p ==> !#[trigger] seq_lt(key@, out@[i]@),
            decreases keys.len() - p,
        {
            p = p + 1;
        }
        let ghost old_out = views(out@);
        let ghost x = v@[k as int]@;
        out.insert(p, v[k].clone());
        keys.insert(p, key);
        proof {
            let nv = views(out@);
            assert(nv =~= old_out.insert(p as int, x));
            assert(nv.remove(p as int) =~= old_out);
            assert(nv[p as int] == x);
            nv.to_multiset_ensures();
            assert(nv.remove(p as int).to_multiset() == nv.to_multiset().remove(nv[p as int]));
            assert(nv.contains(x));
            assert(nv.to_multiset().count(x) > 0);
            assert(nv.to_multiset() =~= nv.to_multiset().remove(x).insert(x));
            assert(nv.to_multiset() =~= old_out.to_multiset().insert(x));
            assert(views(v@).take(k + 1) =~= views(v@).take(k as int).push(x));
            views(v@).take(k as int).to_multiset_ensures();
            assert(views(v@).take(k + 1).to_multiset() == views(v@).take(k as int).to_multiset().insert(x));
            assert forall|i: int, j: int| 0 <= i < j < nv.len() implies !seq_lt(nv[j], nv[i]) by {
                if j == p {
                    assert(nv[i] == old_out[i]);
                } else if i == p {
                    let y = old_out[p as int];
                    let z = old_out[j - 1];
                    assert(nv[j] == z);
                    assert(seq_lt(x, y));
                    lemma_seq_lt_total(y, z);
                    if j - 1 != p {
                        assert(!seq_lt(z, y));
                    }
                    if seq_lt(y, z) {
                        lemma_seq_lt_transitive(x, y, z);
                    }
                    lemma_seq_lt_asymmetric(x, z);
                } else {
                    let oi = if i < p { i } else { i - 1 };
                    let oj = if j < p { j } else { j - 1 };
                    assert(nv[i] == old_out[oi]);
                    assert(nv[j] == old_out[oj]);
                }
            }
            assert forall|i: int| 0 <= i < keys@.len() implies #[trigger] keys@[i]@ == out@[i]@ by {
                if i < p {
                } else if i == p {
                } else {
                }
            }
        }
        k = k + 1;
    }
    assert(views(v@).take(n as int) =~= views(v@));
    out
}

/// Whether a name is hidden (starts with a dot).
pub open spec fn is_hidden(s: Seq<char>) -> bool {
    s.len() > 0 && s[0] == '.'
}

/// The names that are not hidden, in sorted order: the directories a walk visits.
pub fn visible_sorted(names: &Vec<String>) -> (r: Vec<String>)
    ensures
        is_sorted_permutation(views(r@), select(views(names@), |s: Seq<char>| !is_hidden(s))),
{
    let ghost p = |s: Seq<char>| !is_hidden(s);
    let mut kept: Vec<String> = Vec::new();
    let mut i: usize = 0;
    while i < names.len()
        invariant
            0 <= i <= names.len(),
            p == (|s: Seq<char>| !is_hidden(s)),
            views(kept@) == select(views(names@).take(i as int), p),
        decreases names.len() - i,
    {
        let c = chars_of(names[i].as_str());
        let hidden = c.len() > 0 && c[0] == '.';
        assert(views(names@).take(i + 1).drop_last() =~= views(names@).take(i as int));
        if !hidden {
            kept.push(names[i].clone());
            assert(views(kept@) =~= select(views(names@).take(i as int), p).push(names@[i as int]@));
        }
        i = i + 1;
    }
    assert(views(names@).take(names@.len() as int) =~= views(names@));
    sort_strings(&kept)
}

/// The order `sort` arranges strings in, as a "less or equal" relation.
pub open spec fn text_le() -> spec_fn(Seq<char>, Seq<char>) -> bool {
    |a: Seq<char>, b: Seq<char>| !seq_lt(b, a)
}

/// That order is total.
pub proof fn lemma_text_order_is_total()
    ensures
        vstd::relations::total_ordering(text_le()),
{
    let le = text_le();
    assert forall|x: Seq<char>| #[trigger] le(x, x) by {
        lemma_seq_lt_irreflexive(x);
    }
    assert forall|x: Seq<char>, y: Seq<char>| #[trigger] le(x, y) && #[trigger] le(y, x) implies x == y by {
        lemma_seq_lt_total(x, y);
    }
    assert forall|x: Seq<char>, y: Seq<char>, z: Seq<char>| #[trigger] le(x, y) && #[trigger] le(y, z) implies le(x, z) by {
        lemma_seq_lt_total(x, y);
        if seq_lt(z, x) {
            if x == y {
            } else if seq_lt(x, y) {
                lemma_seq_lt_transitive(z, x, y);
            }
        }
    }
    assert forall|x: Seq<char>, y: Seq<char>| #[trigger] le(x, y) || #[trigger] le(y, x) by {
        lemma_seq_lt_asymmetric(x, y);
    }
}

/// A sorted permutation is the sequence sorted: there is only one.
pub proof fn lemma_sorted_permutation_is_sort_by(out: Seq<Seq<char>>, inp: Seq<Seq<char>>)
    requires
        is_sorted_permutation(out, inp),
    ensures
        out == inp.sort_by(text_le()),
{
    lemma_text_order_is_total();
    let le = text_le();
    inp.lemma_sort_by_ensures(le);
    assert(vstd::relations::sorted_by(out, le));
    vstd::seq_lib::lemma_sorted_unique(out, inp.sort_by(le), le);
}

} // verus!
