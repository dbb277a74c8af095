//! Turning what the user typed into a full-text query: plain words are cleaned of
//! the query language's special characters and the last one becomes a prefix match,
//! so results follow the user as they type; input that already uses the query
//! language (a quote, ` OR `, ` NOT `) passes through as typed.
use vstd::prelude::*;
use crate::text::{chars_of, contains_chars, extend_chars, is_white_char, string_of, trim_bounds};
use crate::text;

verus! {

/// The words of `s` scanned so far: the finished ones and the one in progress.
pub open spec fn scan_words(s: Seq<char>) -> (Seq<Seq<char>>, Seq<char>)
    decreases s.len(),
{
    if s.len() == 0 {
        (seq![], seq![])
    } else {
        let (done, cur) = scan_words(s.drop_last());
        let c = s.last();
        if text::is_white(c) {
            if cur.len() > 0 {
                (done.push(cur), seq![])
            } else {
                (done, cur)
            }
        } else {
            (done, cur.push(c))
        }
    }
}

/// The maximal runs of non-white-space characters of `s`, as `split_whitespace`
/// gives them.
pub open spec fn words(s: Seq<char>) -> Seq<Seq<char>> {
    let (done, cur) = scan_words(s);
    if cur.len() > 0 {
        done.push(cur)
    } else {
        done
    }
}

/// Characters with a meaning in the query language.
pub open spec fn is_special(c: char) -> bool {
    c == '(' || c == ')' || c == '{' || c == '}' || c == '[' || c == ']' || c == '^' || c == '~'
        || c == '*' || c == ':' || c == '"' || c == '-'
}

/// `w` without its special characters.
pub open spec fn strip_special(w: Seq<char>) -> Seq<char>
    decreases w.len(),
{
    if w.len() == 0 {
        seq![]
    } else if is_special(w.last()) {
        strip_special(w.drop_last())
    } else {
        strip_special(w.drop_last()).push(w.last())
    }
}

/// The words of `s` with special characters removed, empty ones dropped.
pub open spec fn clean_words(s: Seq<char>) -> Seq<Seq<char>> {
    text::select(words(s).map_values(|w: Seq<char>| strip_special(w)), |w: Seq<char>| w.len() > 0)
}

/// Words joined by single spaces.
pub open spec fn join_spaced(ws: Seq<Seq<char>>) -> Seq<char>
    decreases ws.len(),
{
    if ws.len() == 0 {
        seq![]
    } else if ws.len() == 1 {
        ws[0]
    } else {
        join_spaced(ws.drop_last()) + seq![' '] + ws.last()
    }
}

/// Whether the input already uses the query language.
pub open spec fn is_advanced(t: Seq<char>) -> bool {
    text::contains_seq(t, seq!['"']) || text::contains_seq(t, seq![' ', 'O', 'R', ' '])
        || text::contains_seq(t, seq![' ', 'N', 'O', 'T', ' '])
}

/// The full-text query for `input`: empty when nothing searchable is left, the
/// trimmed input when it already uses the query language, else the cleaned words
/// joined by spaces with a prefix match on the last.
pub open spec fn fts_query(input: Seq<char>) -> Seq<char> {
    let t = text::trim(input);
    if t.len() == 0 {
        seq![]
    } else if is_advanced(t) {
        t
    } else if clean_words(t).len() == 0 {
        seq![]
    } else {
        join_spaced(clean_words(t)) + seq!['*']
    }
}

/// The words of `v`.
fn split_words(v: &Vec<char>) -> (r: Vec<Vec<char>>)
    ensures
        r@.map_values(|w: Vec<char>| w@) == words(v@),
{
    let mut done: Vec<Vec<char>> = Vec::new();
    let mut cur: Vec<char> = Vec::new();
    let mut i: usize = 0;
    while i < v.len()
        invariant
            0 <= i <= v.len(),
            (done@.map_values(|w: Vec<char>| w@), cur@) == scan_words(v@.take(i as int)),
        decreases v.len() - i,
    {
        let c = v[i];
        let ghost pre = v@.take(i as int);
        assert(v@.take(i + 1).drop_last() =~= pre);
        assert(v@.take(i + 1).last() == c);
        if is_white_char(c) {
            if cur.len() > 0 {
                let ghost d = done@;
                done.push(cur);
                cur = Vec::new();
                assert(done@.map_values(|w: Vec<char>| w@) =~= d.map_values(|w: Vec<char>| w@).push(scan_words(pre).1));
                assert(cur@ =~= Seq::<char>::empty());
            }
        } else {
            cur.push(c);
        }
        i = i + 1;
    }
    assert(v@.take(v@.len() as int) =~= v@);
    if cur.len() > 0 {
        let ghost d = done@;
        done.push(cur);
        assert(done@.map_values(|w: Vec<char>| w@) =~= d.map_values(|w: Vec<char>| w@).push(scan_words(v@).1));
    }
    done
}

/// `w` without its special characters.
fn strip_special_chars(w: &Vec<char>) -> (r: Vec<char>)
    ensures
        r@ == strip_special(w@),
{
    let mut r: Vec<char> = Vec::new();
    let mut i: usize = 0;
    while i < w.len()
        invariant
            0 <= i <= w.len(),
            r@ == strip_special(w@.take(i as int)),
        decreases w.len() - i,
    {
        let c = w[i];
        assert(w@.take(i + 1).drop_last() =~= w@.take(i as int));
        assert(w@.take(i + 1).last() == c);
        if !(c == '(' || c == ')' || c == '{' || c == '}' || c == '[' || c == ']' || c == '^' || c == '~'
            || c == '*' || c == ':' || c == '"' || c == '-') {
            r.push(c);
        }
        i = i + 1;
    }
    assert(w@.take(w@.len() as int) =~= w@);
    r
}

proof fn lemma_join_empty(ws: Seq<Seq<char>>)
    requires
        forall|i: int| 0 <= i < ws.len() ==> #[trigger] ws[i].len() > 0,
    ensures
        (join_spaced(ws).len() == 0) == (ws.len() == 0),
    decreases ws.len(),
{
    if ws.len() > 1 {
        lemma_join_empty(ws.drop_last());
    }
}

/// Sanitises user input into a safe full-text query with prefix matching.
pub fn sanitize_fts_query(input: &str) -> (r: String)
    ensures
        r@ == fts_query(input@),
        !is_advanced(text::trim(input@)) && r@.len() > 0 ==> r@.last() == '*' && forall|i: int|
            0 <= i < r@.len() - 1 ==> {
                let c = #[trigger] r@[i];
                c != '(' && c != ')' && c != '{' && c != '}' && c != '[' && c != ']' && c != '^' && c != '~'
                    && c != '*' && c != ':' && c != '"' && c != '-'
            },
{
    proof {
        if !is_advanced(text::trim(input@)) && fts_query(input@).len() > 0 {
            crate::laws::lemma_plain_query_has_no_operators(input@);
        }
    }
    let all = chars_of(input);
    let (a, b) = trim_bounds(&all);
    let t = text::string_from(&all, a, b);
    let tv = chars_of(t.as_str());
    if tv.len() == 0 {
        return String::new();
    }
    let quote: Vec<char> = vec!['"'];
    let or_v: Vec<char> = vec![' ', 'O', 'R', ' '];
    let not_v: Vec<char> = vec![' ', 'N', 'O', 'T', ' '];
    assert(quote@ =~= seq!['"']);
    assert(or_v@ =~= seq![' ', 'O', 'R', ' ']);
    assert(not_v@ =~= seq![' ', 'N', 'O', 'T', ' ']);
    if contains_chars(&tv, &quote) || contains_chars(&tv, &or_v) || contains_chars(&tv, &not_v) {
        return t;
    }
    let ws = split_words(&tv);
    let ghost wv = words(tv@);
    let ghost stripped = wv.map_values(|w: Seq<char>| strip_special(w));
    let ghost keep = |w: Seq<char>| w.len() > 0;
    let mut clean: Vec<Vec<char>> = Vec::new();
    let mut i: usize = 0;
    while i < ws.len()
        invariant
            0 <= i <= ws.len(),
            ws@.map_values(|w: Vec<char>| w@) == wv,
            stripped == wv.map_values(|w: Seq<char>| strip_special(w)),
            keep == (|w: Seq<char>| w.len() > 0),
            clean@.map_values(|w: Vec<char>| w@) == text::select(stripped.take(i as int), keep),
            forall|k: int| 0 <= k < clean@.len() ==> #[trigger] clean@[k]@.len() > 0,
        decreases ws.len() - i,
    {
        let c = strip_special_chars(&ws[i]);
        assert(stripped.take(i + 1).drop_last() =~= stripped.take(i as int));
        assert(stripped.take(i + 1).last() == strip_special(ws@[i as int]@));
        if c.len() > 0 {
            let ghost before = clean@;
            clean.push(c);
            assert(clean@.map_values(|w: Vec<char>| w@) =~= before.map_values(|w: Vec<char>| w@).push(c@));
        }
        i = i + 1;
    }
    assert(stripped.take(stripped.len() as int) =~= stripped);
    let ghost cw = clean_words(tv@);
    assert(clean@.map_values(|w: Vec<char>| w@) == cw);
    if clean.len() == 0 {
        return String::new();
    }
    let mut out: Vec<char> = Vec::new();
    let mut j: usize = 0;
    while j < clean.len()
        invariant
            0 <= j <= clean.len(),
            clean@.map_values(|w: Vec<char>| w@) == cw,
            forall|k: int| 0 <= k < clean@.len() ==> #[trigger] clean@[k]@.len() > 0,
            out@ == join_spaced(cw.take(j as int)),
        decreases clean.len() - j,
    {
        proof {
            assert(cw.take(j + 1).drop_last() =~= cw.take(j as int));
            assert(cw.take(j + 1).last() == clean@[j as int]@);
            if j > 0 {
                lemma_join_empty(cw.take(j as int));
            }
        }
        if j > 0 {
            out.push(' ');
        }
        extend_chars(&mut out, &clean[j]);
        proof {
            if j == 0 {
                assert(cw.take(1) =~= seq![clean@[0]@]);
            }
        }
        j = j + 1;
    }
    assert(cw.take(cw.len() as int) =~= cw);
    out.push('*');
    string_of(&out)
}

/// How many results a search returns when the caller gives no limit.
pub open spec fn default_limit() -> i64 {
    50
}

/// The query and limit a search runs with, or nothing when the input holds nothing
/// to search for.
pub fn search_plan(query: &str, limit: Option<i64>) -> (r: Option<(String, i64)>)
    ensures
        match r {
            Some((q, n)) => q@ == fts_query(query@) && q@.len() > 0 && n == match limit {
                Some(l) => l,
                None => default_limit(),
            },
            None => fts_query(query@).len() == 0,
        },
{
    let q = sanitize_fts_query(query);
    if q.as_str().is_empty() {
        return None;
    }
    let n = match limit {
        Some(l) => l,
        None => 50,
    };
    Some((q, n))
}

} // verus!
