//! The YAML front matter at the head of each `.md` sidecar: how it is framed in
//! the file, how lenient scalars become text, and how dates are normalised. The
//! YAML mapping itself is decoded by the application, which hands the fields in
//! as plain values.
use vstd::prelude::*;
use crate::text::{chars_of, string_from, trim_bounds, trim_str};
use crate::text;

verus! {

/// Front matter of one `.md` sidecar.
pub struct Frontmatter {
    /// Full Gmail message ID (`id:`), when present.
    pub id: Option<String>,
    pub subject: String,
    pub from: String,
    pub to: String,
    /// Date exactly as written, whatever YAML type it parsed as.
    pub date: Option<String>,
    pub labels: Vec<String>,
    pub label_ids: Vec<String>,
}

/// The two halves of a front-matter document.
pub struct FrontmatterText {
    /// The YAML between the opening `---` and the closing `\n---`.
    pub yaml: String,
    /// The text after the closing delimiter, trimmed.
    pub body: String,
}

/// `s` without any leading byte-order marks.
pub open spec fn strip_bom(s: Seq<char>) -> Seq<char>
    decreases s.len(),
{
    if s.len() > 0 && s[0] == '\u{feff}' {
        strip_bom(s.drop_first())
    } else {
        s
    }
}

/// The first position at or after `i` where `needle` occurs in `hay`.
pub open spec fn find_from(hay: Seq<char>, needle: Seq<char>, i: int) -> Option<int>
    decreases hay.len() + 1 - i,
{
    if i < 0 || i + needle.len() > hay.len() {
        None
    } else if text::occurs_at(hay, needle, i) {
        Some(i)
    } else {
        find_from(hay, needle, i + 1)
    }
}

/// The opening delimiter.
pub open spec fn dashes() -> Seq<char> {
    seq!['-', '-', '-']
}

/// The closing delimiter: a line that starts with `---`.
pub open spec fn closing() -> Seq<char> {
    seq!['\n', '-', '-', '-']
}

/// What splitting `content` gives: `Err(true)` when it has no opening delimiter,
/// `Err(false)` when it has no closing one, else the YAML and the trimmed body.
pub open spec fn split_spec(content: Seq<char>) -> Result<(Seq<char>, Seq<char>), bool> {
    let c = strip_bom(content);
    if !(c.len() >= 3 && c.take(3) == dashes()) {
        Err(true)
    } else {
        let rest = c.skip(3);
        match find_from(rest, closing(), 0) {
            None => Err(false),
            Some(end) => Ok((rest.take(end), text::trim(rest.skip(end + 4)))),
        }
    }
}

pub open spec fn no_opening_message() -> Seq<char> {
    "No frontmatter delimiter found"@
}

pub open spec fn no_closing_message() -> Seq<char> {
    "No closing frontmatter delimiter"@
}

/// Splits a markdown file into its front matter and its body.
///
/// The file must start with `---` (after any byte-order marks); the front matter runs
/// up to the first following line that starts with `---`, and the body is the rest,
/// trimmed.
pub fn split_frontmatter(content: &str) -> (r: Result<FrontmatterText, String>)
    ensures
        match (r, split_spec(content@)) {
            (Ok(t), Ok((yaml, body))) => t.yaml@ == yaml && t.body@ == body,
            (Err(e), Err(true)) => e@ == no_opening_message(),
            (Err(e), Err(false)) => e@ == no_closing_message(),
            _ => false,
        },
{
    let v = chars_of(content);
    let n = v.len();
    let mut s: usize = 0;
    assert(v@.skip(0) =~= v@);
    while s < n && v[s] == '\u{feff}'
        invariant
            s <= n == v.len(),
            strip_bom(v@) == strip_bom(v@.skip(s as int)),
        decreases n - s,
    {
        assert(v@.skip(s as int).drop_first() =~= v@.skip(s + 1));
        s = s + 1;
    }
    let ghost c = v@.skip(s as int);
    assert(strip_bom(v@) == c);
    if !(n - s >= 3 && v[s] == '-' && v[s + 1] == '-' && v[s + 2] == '-') {
        proof {
            if c.len() >= 3 && c.take(3) == dashes() {
                assert(c.take(3)[0] == '-' && c.take(3)[1] == '-' && c.take(3)[2] == '-');
            }
        }
        return Err(String::from_str("No frontmatter delimiter found"));
    }
    assert(c.take(3) =~= dashes());
    let start = s + 3;
    let ghost rest = c.skip(3);
    assert(rest =~= v@.skip(start as int));
    let closing_v: Vec<char> = vec!['\n', '-', '-', '-'];
    assert(closing_v@ =~= closing());
    let mut i: usize = start;
    while n - i >= 4
        invariant
            start <= i <= n,
            n == v.len(),
            closing_v@ == closing(),
            rest == v@.skip(start as int),
            strip_bom(content@) == c,
            c.len() >= 3 && c.take(3) == dashes(),
            rest == c.skip(3),
            find_from(rest, closing(), 0) == find_from(rest, closing(), i - start),
        decreases n - i,
    {
        let hit = v[i] == '\n' && v[i + 1] == '-' && v[i + 2] == '-' && v[i + 3] == '-';
        proof {
            let k = i - start;
            assert(rest.subrange(k, k + 4) =~= v@.subrange(i as int, i + 4));
            if hit {
                assert(v@.subrange(i as int, i + 4) =~= closing());
            } else {
                if v@.subrange(i as int, i + 4) == closing() {
                    assert(v@.subrange(i as int, i + 4)[0] == v@[i as int]);
                    assert(v@.subrange(i as int, i + 4)[1] == v@[i + 1]);
                    assert(v@.subrange(i as int, i + 4)[2] == v@[i + 2]);
                    assert(v@.subrange(i as int, i + 4)[3] == v@[i + 3]);
                }
            }
        }
        if hit {
            assert(find_from(rest, closing(), 0) == Some((i - start) as int));
            let yaml = string_from(&v, start, i);
            assert(v@.subrange(start as int, i as int) =~= rest.take(i - start));
            let tail = string_from(&v, i + 4, n);
            assert(v@.subrange(i + 4, n as int) =~= rest.skip(i - start + 4));
            let body = trim_str(tail.as_str());
            assert(strip_bom(content@) == c);
            assert(split_spec(content@) == Ok::<(Seq<char>, Seq<char>), bool>(
                (rest.take(i - start), text::trim(rest.skip(i - start + 4))),
            ));
            return Ok(FrontmatterText { yaml, body });
        }
        i = i + 1;
    }
    assert(find_from(rest, closing(), i - start) == None::<int>);
    Err(String::from_str("No closing frontmatter delimiter"))
}

/// One scalar of the front matter as the YAML decoder saw it.
pub enum YamlScalar {
    /// The key is absent.
    Missing,
    /// An explicit null.
    Null,
    /// A string.
    Text(String),
    /// A number, in its decimal text form.
    Number(String),
    /// Any other value (a timestamp, a bool, a tagged value), re-serialised as YAML.
    Rendered(String),
}

/// `s` with every leading and trailing `c` removed, as `str::trim_matches(c)` gives it.
pub open spec fn strip_char(s: Seq<char>, c: char) -> Seq<char>
    decreases s.len(),
{
    if s.len() > 0 && s[0] == c {
        strip_char(s.drop_first(), c)
    } else if s.len() > 0 && s.last() == c {
        strip_char(s.drop_last(), c)
    } else {
        s
    }
}

/// The text a lenient scalar field takes.
pub open spec fn scalar_text(v: YamlScalar) -> Option<Seq<char>> {
    match v {
        YamlScalar::Missing => None,
        YamlScalar::Null => None,
        YamlScalar::Text(s) => if s@.len() == 0 { None } else { Some(s@) },
        YamlScalar::Number(n) => Some(n@),
        YamlScalar::Rendered(r) => {
            let t = text::trim(r@);
            if t.len() == 0 || t == "null"@ || t == "~"@ {
                None
            } else {
                Some(strip_char(strip_char(t, '\''), '"'))
            }
        },
    }
}

/// `v[from..to]` with every leading and trailing `c` removed.
fn strip_char_bounds(v: &Vec<char>, from: usize, to: usize, c: char) -> (r: (usize, usize))
    requires
        from <= to <= v.len(),
    ensures
        from <= r.0 <= r.1 <= to,
        v@.subrange(r.0 as int, r.1 as int) == strip_char(v@.subrange(from as int, to as int), c),
{
    let mut a = from;
    let mut b = to;
    while a < b && (v[a] == c || v[b - 1] == c)
        invariant
            from <= a <= b <= to <= v.len(),
            strip_char(v@.subrange(from as int, to as int), c) == strip_char(
                v@.subrange(a as int, b as int),
                c,
            ),
        decreases b - a,
    {
        if v[a] == c {
            assert(v@.subrange(a as int, b as int).drop_first() =~= v@.subrange(a + 1, b as int));
            a = a + 1;
        } else {
            assert(v@.subrange(a as int, b as int).drop_last() =~= v@.subrange(a as int, b - 1));
            b = b - 1;
        }
    }
    (a, b)
}

/// Whether `v[from..to]` is exactly the text `lit`.
fn chars_equal(v: &Vec<char>, from: usize, to: usize, lit: &Vec<char>) -> (b: bool)
    requires
        from <= to <= v.len(),
    ensures
        b == (v@.subrange(from as int, to as int) == lit@),
{
    if to - from != lit.len() {
        return false;
    }
    let mut k: usize = 0;
    while k < lit.len()
        invariant
            from <= to <= v.len(),
            to - from == lit.len(),
            0 <= k <= lit.len(),
            forall|m: int| 0 <= m < k ==> v@[from + m] == lit@[m],
        decreases lit.len() - k,
    {
        if v[from + k] != lit[k] {
            assert(v@.subrange(from as int, to as int)[k as int] != lit@[k as int]);
            return false;
        }
        k = k + 1;
    }
    assert(v@.subrange(from as int, to as int) =~= lit@);
    true
}

/// Turns any YAML scalar into text: strings and numbers as written, nulls and empty
/// strings into nothing, and anything else into its trimmed YAML rendering with
/// surrounding quotes removed.
pub fn scalar_as_string(v: YamlScalar) -> (r: Option<String>)
    ensures
        match (r, scalar_text(v)) {
            (Some(s), Some(t)) => s@ == t,
            (None, None) => true,
            _ => false,
        },
{
    match v {
        YamlScalar::Missing => None,
        YamlScalar::Null => None,
        YamlScalar::Text(s) => {
            if s.as_str().is_empty() {
                None
            } else {
                Some(s)
            }
        },
        YamlScalar::Number(n) => Some(n),
        YamlScalar::Rendered(r) => {
            let w = chars_of(r.as_str());
            let (a, b) = trim_bounds(&w);
            let null_v: Vec<char> = vec!['n', 'u', 'l', 'l'];
            let tilde_v: Vec<char> = vec!['~'];
            proof {
                reveal_strlit("null");
                reveal_strlit("~");
                assert(null_v@ =~= "null"@);
                assert(tilde_v@ =~= "~"@);
            }
            if a == b || chars_equal(&w, a, b, &null_v) || chars_equal(&w, a, b, &tilde_v) {
                None
            } else {
                let (a1, b1) = strip_char_bounds(&w, a, b, '\'');
                let (a2, b2) = strip_char_bounds(&w, a1, b1, '"');
                Some(string_from(&w, a2, b2))
            }
        },
    }
}

/// A date string for storage: trimmed, or nothing when only white space is left.
pub open spec fn date_spec(s: Seq<char>) -> Option<Seq<char>> {
    if text::trim(s).len() == 0 {
        None
    } else {
        Some(text::trim(s))
    }
}

/// Formats a date string for consistent storage; valid-looking dates pass through.
pub fn normalize_date(date_str: &str) -> (r: Option<String>)
    ensures
        match (r, date_spec(date_str@)) {
            (Some(s), Some(t)) => s@ == t,
            (None, None) => true,
            _ => false,
        },
{
    let trimmed = trim_str(date_str);
    if trimmed.as_str().is_empty() {
        None
    } else {
        Some(trimmed)
    }
}

} // verus!
