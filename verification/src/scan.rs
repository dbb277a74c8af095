//! What one email directory on disk becomes in the index.
//!
//! The unit of indexing is one body file, not one directory. Every `.html` file is a
//! body; a `.txt` file is a body only when the message it names has no HTML body.
//! Each body is matched to its `.md` sidecar and given a message ID and a primary
//! key `"<label>/<message_id>"`, which the label prefix keeps apart across labels.
use vstd::prelude::*;
use vstd::hash_set::StringHashSet;
use crate::frontmatter::{Frontmatter, normalize_date};
use crate::frontmatter;
use crate::text::{chars_of, contains_chars, ends_with_ci_chars, extend_chars, sort_strings, string_of};
use crate::text;

verus! {

/// How an email body should be rendered in the viewer.
#[derive(Debug, Clone, Copy, PartialEq, Eq, Structural)]
pub enum BodyFormat {
    /// A `.html` body, rendered as-is in the iframe.
    Html,
    /// A `.txt` body from a newsletter that ships no HTML part, wrapped for display.
    Text,
}

impl BodyFormat {
    /// The value stored in `emails.body_format`.
    pub open spec fn name(self) -> Seq<char> {
        match self {
            BodyFormat::Html => "html"@,
            BodyFormat::Text => "text"@,
        }
    }

    /// Value stored in `emails.body_format`.
    pub fn as_str(self) -> (s: &'static str)
        ensures
            s@ == self.name(),
    {
        match self {
            BodyFormat::Html => "html",
            BodyFormat::Text => "text",
        }
    }
}

/// Parsed metadata from one `.md` sidecar.
pub struct MdMeta {
    /// Path of the sidecar (stored in `md_filename`).
    pub path: String,
    /// File name on disk, used for the `<slug>_<message_id>.md` matching fallback.
    pub filename: String,
    /// Full message ID from the `id:` front-matter field, when present.
    pub fm_id: Option<String>,
    pub subject: String,
    pub from_addr: String,
    pub date: Option<String>,
    pub body_text: String,
}

/// The text of an optional string.
pub open spec fn opt_text(o: Option<String>) -> Option<Seq<char>> {
    match o {
        Some(s) => Some(s@),
        None => None,
    }
}

/// Byte length of the UTF-8 encoding of `s`.
pub open spec fn utf8_len(s: Seq<char>) -> int {
    vstd::utf8::encode_utf8(s).len() as int
}

/// The longest body kept for full-text search, in bytes.
pub open spec fn max_body_bytes() -> int {
    2000
}

/// What `truncate_body` keeps of `s`: all of it when it fits in the limit, else its
/// longest prefix whose UTF-8 encoding fits.
pub open spec fn is_truncation(s: Seq<char>, r: Seq<char>) -> bool {
    if utf8_len(s) <= max_body_bytes() {
        r == s
    } else {
        exists|k: int|
            0 <= k < s.len() && r == #[trigger] s.take(k) && utf8_len(s.take(k)) <= max_body_bytes()
                && utf8_len(s.take(k + 1)) > max_body_bytes()
    }
}

/// Bytes in the UTF-8 encoding of `c`.
pub open spec fn char_width(c: char) -> int {
    if (c as u32) <= 0x7f {
        1
    } else if (c as u32) <= 0x7ff {
        2
    } else if (c as u32) <= 0xffff {
        3
    } else {
        4
    }
}

proof fn lemma_utf8_len_push(s: Seq<char>, c: char)
    ensures
        utf8_len(s.push(c)) == utf8_len(s) + char_width(c),
    decreases s.len(),
{
    let e = vstd::utf8::encode_scalar(c as u32);
    vstd::utf8::char_is_scalar(c);
    assert(e.len() == char_width(c));
    if s.len() == 0 {
        assert(s.push(c).drop_first() =~= Seq::<char>::empty());
        assert(vstd::utf8::encode_utf8(Seq::<char>::empty()) =~= Seq::<u8>::empty());
        assert(vstd::utf8::encode_utf8(s) =~= Seq::<u8>::empty());
    } else {
        lemma_utf8_len_push(s.drop_first(), c);
        assert(s.push(c).drop_first() =~= s.drop_first().push(c));
    }
}

/// Truncates the plain-text body for full-text indexing to at most 2000 bytes,
/// never splitting a character.
pub fn truncate_body(body: String) -> (r: String)
    ensures
        is_truncation(body@, r@),
{
    let v = chars_of(body.as_str());
    let mut bytes: usize = 0;
    let mut k: usize = 0;
    assert(v@.take(0) =~= Seq::<char>::empty());
    assert(vstd::utf8::encode_utf8(Seq::<char>::empty()) =~= Seq::<u8>::empty());
    while k < v.len()
        invariant
            0 <= k <= v.len(),
            v@ == body@,
            bytes == utf8_len(v@.take(k as int)),
            bytes <= max_body_bytes(),
        decreases v.len() - k,
    {
        let c = v[k];
        let u = c as u32;
        let w: usize = if u <= 0x7f {
            1
        } else if u <= 0x7ff {
            2
        } else if u <= 0xffff {
            3
        } else {
            4
        };
        proof {
            lemma_utf8_len_push(v@.take(k as int), c);
            assert(v@.take(k + 1) =~= v@.take(k as int).push(c));
        }
        if bytes + w > 2000 {
            proof {
                if utf8_len(v@) <= max_body_bytes() {
                    lemma_utf8_len_prefix(v@, k + 1);
                }
            }
            return string_from_prefix(&v, k);
        }
        bytes = bytes + w;
        k = k + 1;
    }
    assert(v@.take(v@.len() as int) =~= v@);
    body
}

proof fn lemma_utf8_len_prefix(s: Seq<char>, k: int)
    requires
        0 <= k <= s.len(),
    ensures
        utf8_len(s.take(k)) <= utf8_len(s),
    decreases s.len() - k,
{
    if k < s.len() {
        lemma_utf8_len_prefix(s, k + 1);
        lemma_utf8_len_push(s.take(k), s[k]);
        assert(s.take(k + 1) =~= s.take(k).push(s[k]));
    } else {
        assert(s.take(k) =~= s);
    }
}

fn string_from_prefix(v: &Vec<char>, k: usize) -> (s: String)
    requires
        k <= v.len(),
    ensures
        s@ == v@.take(k as int),
{
    let s = text::string_from(v, 0, k);
    assert(v@.subrange(0, k as int) =~= v@.take(k as int));
    s
}

/// The metadata a sidecar gives once its front matter is read: the `id:` trimmed
/// (and dropped when empty), the date normalised, the body truncated for search.
pub open spec fn meta_matches(m: MdMeta, path: Seq<char>, filename: Seq<char>, fm: Frontmatter, body: Seq<char>) -> bool {
    &&& m.path@ == path
    &&& m.filename@ == filename
    &&& opt_text(m.fm_id) == (match opt_text(fm.id) {
        Some(id) => if text::trim(id).len() == 0 { None::<Seq<char>> } else { Some(text::trim(id)) },
        None => None,
    })
    &&& m.subject@ == fm.subject@
    &&& m.from_addr@ == fm.from@
    &&& opt_text(m.date) == (match opt_text(fm.date) {
        Some(d) => frontmatter::date_spec(d),
        None => None,
    })
    &&& is_truncation(body, m.body_text@)
}

/// Sidecar metadata of an email's `fm_id`, as text.
pub open spec fn fm_id_text(m: MdMeta) -> Option<Seq<char>> {
    opt_text(m.fm_id)
}

impl MdMeta {
    /// Metadata for a sidecar that could not be read or parsed: everything empty, so
    /// the email is still indexed rather than hidden.
    pub fn empty(path: String, filename: String) -> (m: MdMeta)
        ensures
            m.path@ == path@,
            m.filename@ == filename@,
            m.fm_id is None,
            m.subject@.len() == 0,
            m.from_addr@.len() == 0,
            m.date is None,
            m.body_text@.len() == 0,
    {
        MdMeta {
            path,
            filename,
            fm_id: None,
            subject: String::new(),
            from_addr: String::new(),
            date: None,
            body_text: String::new(),
        }
    }

    /// Metadata from a parsed sidecar.
    pub fn from_front_matter(path: String, filename: String, fm: Frontmatter, body: String) -> (m: MdMeta)
        ensures
            meta_matches(m, path@, filename@, fm, body@),
            m.path@ == path@,
            m.filename@ == filename@,
            m.subject@ == fm.subject@,
            m.from_addr@ == fm.from@,
    {
        let fm_id = match &fm.id {
            Some(id) => {
                let t = text::trim_str(id.as_str());
                if t.as_str().is_empty() {
                    None
                } else {
                    Some(t)
                }
            },
            None => None,
        };
        let date = match &fm.date {
            Some(d) => normalize_date(d.as_str()),
            None => None,
        };
        let body_text = truncate_body(body);
        MdMeta {
            path,
            filename,
            fm_id,
            subject: fm.subject,
            from_addr: fm.from,
            date,
            body_text,
        }
    }
}

/// The files of one email directory, by kind, each list in sorted order.
pub struct DirFiles {
    pub html: Vec<String>,
    pub txt: Vec<String>,
    pub md: Vec<String>,
}

pub open spec fn html_ext() -> Seq<char> {
    seq!['.', 'h', 't', 'm', 'l']
}

pub open spec fn txt_ext() -> Seq<char> {
    seq!['.', 't', 'x', 't']
}

pub open spec fn md_ext() -> Seq<char> {
    seq!['.', 'm', 'd']
}

/// A `.html` file (in any ASCII case).
pub open spec fn is_html_name(s: Seq<char>) -> bool {
    text::ends_with_ci(s, html_ext())
}

/// A `.txt` file (in any ASCII case).
pub open spec fn is_txt_name(s: Seq<char>) -> bool {
    !is_html_name(s) && text::ends_with_ci(s, txt_ext())
}

/// A `.md` sidecar (in any ASCII case).
pub open spec fn is_md_name(s: Seq<char>) -> bool {
    !is_html_name(s) && !is_txt_name(s) && text::ends_with_ci(s, md_ext())
}

/// Sorts the entries of an email directory into bodies and sidecars by extension.
/// Each list is sorted, so nothing downstream depends on the order in which the
/// file system listed the directory.
pub fn classify_files(names: &Vec<String>) -> (r: DirFiles)
    ensures
        text::is_sorted_permutation(
            text::views(r.html@),
            text::select(text::views(names@), |s: Seq<char>| is_html_name(s)),
        ),
        text::is_sorted_permutation(
            text::views(r.txt@),
            text::select(text::views(names@), |s: Seq<char>| is_txt_name(s)),
        ),
        text::is_sorted_permutation(
            text::views(r.md@),
            text::select(text::views(names@), |s: Seq<char>| is_md_name(s)),
        ),
{
    let ghost ph = |s: Seq<char>| is_html_name(s);
    let ghost pt = |s: Seq<char>| is_txt_name(s);
    let ghost pm = |s: Seq<char>| is_md_name(s);
    let html_v: Vec<char> = vec!['.', 'h', 't', 'm', 'l'];
    let txt_v: Vec<char> = vec!['.', 't', 'x', 't'];
    let md_v: Vec<char> = vec!['.', 'm', 'd'];
    assert(html_v@ =~= html_ext());
    assert(txt_v@ =~= txt_ext());
    assert(md_v@ =~= md_ext());
    let mut html: Vec<String> = Vec::new();
    let mut txt: Vec<String> = Vec::new();
    let mut md: Vec<String> = Vec::new();
    let mut i: usize = 0;
    while i < names.len()
        invariant
            0 <= i <= names.len(),
            html_v@ == html_ext(),
            txt_v@ == txt_ext(),
            md_v@ == md_ext(),
            ph == (|s: Seq<char>| is_html_name(s)),
            pt == (|s: Seq<char>| is_txt_name(s)),
            pm == (|s: Seq<char>| is_md_name(s)),
            text::views(html@) == text::select(text::views(names@).take(i as int), ph),
            text::views(txt@) == text::select(text::views(names@).take(i as int), pt),
            text::views(md@) == text::select(text::views(names@).take(i as int), pm),
        decreases names.len() - i,
    {
        let c = chars_of(names[i].as_str());
        let ghost pre = text::views(names@).take(i as int);
        assert(text::views(names@).take(i + 1).drop_last() =~= pre);
        assert(text::views(names@).take(i + 1).last() == names@[i as int]@);
        if ends_with_ci_chars(&c, &html_v) {
            html.push(names[i].clone());
            assert(text::views(html@) =~= text::select(pre, ph).push(names@[i as int]@));
        } else if ends_with_ci_chars(&c, &txt_v) {
            txt.push(names[i].clone());
            assert(text::views(txt@) =~= text::select(pre, pt).push(names@[i as int]@));
        } else if ends_with_ci_chars(&c, &md_v) {
            md.push(names[i].clone());
            assert(text::views(md@) =~= text::select(pre, pm).push(names@[i as int]@));
        }
        i = i + 1;
    }
    assert(text::views(names@).take(names@.len() as int) =~= text::views(names@));
    DirFiles { html: sort_strings(&html), txt: sort_strings(&txt), md: sort_strings(&md) }
}

impl DirFiles {
    /// Whether the directory holds anything renderable: a directory without any body
    /// file is skipped.
    pub fn has_body(&self) -> (b: bool)
        ensures
            b == (self.html@.len() > 0 || self.txt@.len() > 0),
    {
        self.html.len() > 0 || self.txt.len() > 0
    }
}

/// Position of the last `.` in `s`, or -1.
pub open spec fn last_dot(s: Seq<char>) -> int
    decreases s.len(),
{
    if s.len() == 0 {
        -1
    } else if s.last() == '.' {
        s.len() - 1
    } else {
        last_dot(s.drop_last())
    }
}

/// File name minus its extension: everything before the last `.`, or the whole
/// name when it has none.
pub open spec fn stem(s: Seq<char>) -> Seq<char> {
    if last_dot(s) >= 0 {
        s.take(last_dot(s))
    } else {
        s
    }
}

pub open spec fn is_hex(c: char) -> bool {
    ('0' <= c && c <= '9') || ('a' <= c && c <= 'f') || ('A' <= c && c <= 'F')
}

/// Whether `s` looks like a Gmail message ID: hex digits only, at least the legacy
/// 8 of them.
pub open spec fn is_message_id(s: Seq<char>) -> bool {
    &&& s.len() >= 8
    &&& forall|i: int| 0 <= i < s.len() ==> #[trigger] is_hex(s[i])
}

/// The primary key of an email: `"<label>/<message_id>"`.
pub open spec fn uid_spec(label: Seq<char>, message_id: Seq<char>) -> Seq<char> {
    label + seq!['/'] + message_id
}

/// The key an email falls back to when its primary key is taken: its physical
/// location `"<label>/<dir>#<file>"`.
pub open spec fn fallback_spec(label: Seq<char>, dir: Seq<char>, filename: Seq<char>) -> Seq<char> {
    label + seq!['/'] + dir + seq!['#'] + filename
}

proof fn lemma_last_dot_range(s: Seq<char>)
    ensures
        -1 <= last_dot(s) < s.len(),
        last_dot(s) >= 0 ==> s[last_dot(s)] == '.',
    decreases s.len(),
{
    if s.len() > 0 && s.last() != '.' {
        lemma_last_dot_range(s.drop_last());
    }
}

/// File name minus its extension.
pub fn stem_of(filename: &str) -> (r: String)
    ensures
        r@ == stem(filename@),
{
    let v = chars_of(filename);
    let mut j: usize = v.len();
    assert(v@.take(j as int) =~= v@);
    while j > 0 && v[j - 1] != '.'
        invariant
            j <= v.len(),
            v@ == filename@,
            last_dot(v@) == last_dot(v@.take(j as int)),
        decreases j,
    {
        assert(v@.take(j as int).drop_last() =~= v@.take(j - 1));
        j = j - 1;
    }
    if j == 0 {
        string_of(&v)
    } else {
        assert(last_dot(v@.take(j as int)) == j - 1);
        string_from_prefix(&v, j - 1)
    }
}

/// Whether a string looks like a Gmail message ID (hex, at least the legacy 8
/// chars). Decides whether a body filename stem is meaningful identity or just a
/// generic name like `email.html`.
pub fn looks_like_message_id(s: &str) -> (b: bool)
    ensures
        b == is_message_id(s@),
        b == (s@.len() >= 8 && forall|i: int|
            0 <= i < s@.len() ==> ('0' <= #[trigger] s@[i] && s@[i] <= '9') || ('a' <= s@[i] && s@[i] <= 'f')
                || ('A' <= s@[i] && s@[i] <= 'F')),
{
    proof {
        crate::laws::lemma_message_id_is_eight_hex_digits(s@);
    }
    let v = chars_of(s);
    let mut i: usize = 0;
    while i < v.len()
        invariant
            0 <= i <= v.len(),
            v@ == s@,
            forall|k: int| 0 <= k < i ==> #[trigger] is_hex(v@[k]),
        decreases v.len() - i,
    {
        let c = v[i];
        if !(('0' <= c && c <= '9') || ('a' <= c && c <= 'f') || ('A' <= c && c <= 'F')) {
            assert(!is_hex(v@[i as int]));
            return false;
        }
        i = i + 1;
    }
    v.len() >= 8
}

/// Builds the primary key for an email. The label prefix is what makes the key
/// robust to directory naming: rows stay distinct per label whatever the
/// directories are called.
pub fn make_uid(label: &str, message_id: &str) -> (r: String)
    ensures
        r@ == uid_spec(label@, message_id@),
{
    let mut v = chars_of(label);
    v.push('/');
    let m = chars_of(message_id);
    extend_chars(&mut v, &m);
    string_of(&v)
}

/// The fallback key `"<label>/<dir>#<file>"`.
pub fn fallback_uid(label: &str, dir_name: &str, filename: &str) -> (r: String)
    ensures
        r@ == fallback_spec(label@, dir_name@, filename@),
{
    let mut v = chars_of(label);
    v.push('/');
    let d = chars_of(dir_name);
    extend_chars(&mut v, &d);
    v.push('#');
    let f = chars_of(filename);
    extend_chars(&mut v, &f);
    string_of(&v)
}

/// First sidecar at or after `i` whose front-matter `id:` equals `stem`.
pub open spec fn find_by_fm_id(mds: Seq<MdMeta>, stem: Seq<char>, i: int) -> Option<int>
    decreases mds.len() - i,
{
    if i < 0 || i >= mds.len() {
        None
    } else if fm_id_text(mds[i]) == Some(stem) {
        Some(i)
    } else {
        find_by_fm_id(mds, stem, i + 1)
    }
}

/// First sidecar at or after `i` whose file name contains `stem`.
pub open spec fn find_by_filename(mds: Seq<MdMeta>, stem: Seq<char>, i: int) -> Option<int>
    decreases mds.len() - i,
{
    if i < 0 || i >= mds.len() {
        None
    } else if text::contains_seq(mds[i].filename@, stem) {
        Some(i)
    } else {
        find_by_filename(mds, stem, i + 1)
    }
}

/// The sidecar that belongs to a body with this stem, most specific rule first:
/// a front-matter `id:` equal to the stem; then, when the stem is a message ID, a
/// sidecar file name that embeds it; then, when the body is the only one of its
/// kind beside exactly one sidecar, that sidecar.
pub open spec fn match_md(stem: Seq<char>, mds: Seq<MdMeta>, single_pairing: bool) -> Option<int> {
    match find_by_fm_id(mds, stem, 0) {
        Some(k) => Some(k),
        None => {
            let by_name = if is_message_id(stem) {
                find_by_filename(mds, stem, 0)
            } else {
                None
            };
            match by_name {
                Some(k) => Some(k),
                None => if single_pairing {
                    Some(0)
                } else {
                    None
                },
            }
        },
    }
}

/// The message ID of a body, best source first: the matched sidecar's `id:`, else
/// the stem when it looks like an ID, else the directory name (suffixed with the
/// stem when the directory holds several bodies of this kind).
pub open spec fn resolve_id(stem: Seq<char>, md: Option<int>, mds: Seq<MdMeta>, dir: Seq<char>, siblings: int) -> Seq<char> {
    let from_md = match md {
        Some(i) => fm_id_text(mds[i]),
        None => None,
    };
    match from_md {
        Some(id) => id,
        None => if is_message_id(stem) {
            stem
        } else if siblings == 1 {
            dir
        } else {
            dir + seq!['-'] + stem
        },
    }
}

/// A body file matched to its metadata, before a key is assigned.
pub struct BodyPlan {
    pub filename: Seq<char>,
    pub format: BodyFormat,
    pub md: Option<int>,
    pub message_id: Seq<char>,
}

pub open spec fn plan_for(f: Seq<char>, format: BodyFormat, mds: Seq<MdMeta>, single_pairing: bool, dir: Seq<char>, siblings: int) -> BodyPlan {
    let st = stem(f);
    let md = match_md(st, mds, single_pairing);
    BodyPlan { filename: f, format, md, message_id: resolve_id(st, md, mds, dir, siblings) }
}

/// Every `.html` file is a body.
pub open spec fn html_plans(html: Seq<Seq<char>>, mds: Seq<MdMeta>, dir: Seq<char>) -> Seq<BodyPlan> {
    Seq::new(
        html.len(),
        |i: int| plan_for(html[i], BodyFormat::Html, mds, html.len() == 1 && mds.len() == 1, dir, html.len() as int),
    )
}

/// Whether a message named `s` already has an HTML body: `s` is the stem of an
/// `.html` file or the message ID one resolved to.
pub open spec fn is_covered(plans: Seq<BodyPlan>, s: Seq<char>) -> bool {
    exists|k: int| #![trigger plans[k]] 0 <= k < plans.len() && (stem(plans[k].filename) == s || plans[k].message_id == s)
}

/// Whether a `.txt` file earns a row of its own: always when the directory has no
/// HTML at all, else only when its stem is a message ID no HTML body covers.
pub open spec fn is_promoted(html: Seq<Seq<char>>, plans: Seq<BodyPlan>, t: Seq<char>) -> bool {
    html.len() == 0 || (is_message_id(stem(t)) && !is_covered(plans, stem(t)))
}

pub open spec fn text_candidates(html: Seq<Seq<char>>, txt: Seq<Seq<char>>, mds: Seq<MdMeta>, dir: Seq<char>) -> Seq<Seq<char>> {
    let plans = html_plans(html, mds, dir);
    text::select(txt, |t: Seq<char>| is_promoted(html, plans, t))
}

pub open spec fn text_plans(html: Seq<Seq<char>>, txt: Seq<Seq<char>>, mds: Seq<MdMeta>, dir: Seq<char>) -> Seq<BodyPlan> {
    let c = text_candidates(html, txt, mds, dir);
    Seq::new(
        c.len(),
        |i: int| plan_for(c[i], BodyFormat::Text, mds, html.len() == 0 && c.len() == 1 && mds.len() == 1, dir, c.len() as int),
    )
}

/// The bodies of a directory: its HTML bodies, then its promoted text bodies.
pub open spec fn dir_plans(html: Seq<Seq<char>>, txt: Seq<Seq<char>>, mds: Seq<MdMeta>, dir: Seq<char>) -> Seq<BodyPlan> {
    html_plans(html, mds, dir) + text_plans(html, txt, mds, dir)
}

/// One indexable email, as text.
pub struct EmailRecord {
    pub uid: Seq<char>,
    pub message_id: Seq<char>,
    pub label: Seq<char>,
    pub dir_name: Seq<char>,
    pub subject: Seq<char>,
    pub from_addr: Seq<char>,
    pub date: Option<Seq<char>>,
    pub body_filename: Seq<char>,
    pub body_format: BodyFormat,
    pub md_filename: Seq<char>,
    pub body_text: Seq<char>,
}

/// The email a body becomes under key `uid`, with its sidecar's metadata (or empty
/// metadata when none matched).
pub open spec fn record_for(label: Seq<char>, dir: Seq<char>, b: BodyPlan, mds: Seq<MdMeta>, uid: Seq<char>) -> EmailRecord {
    match b.md {
        Some(i) => EmailRecord {
            uid,
            message_id: b.message_id,
            label,
            dir_name: dir,
            subject: mds[i].subject@,
            from_addr: mds[i].from_addr@,
            date: opt_text(mds[i].date),
            body_filename: b.filename,
            body_format: b.format,
            md_filename: mds[i].path@,
            body_text: mds[i].body_text@,
        },
        None => EmailRecord {
            uid,
            message_id: b.message_id,
            label,
            dir_name: dir,
            subject: seq![],
            from_addr: seq![],
            date: None,
            body_filename: b.filename,
            body_format: b.format,
            md_filename: seq![],
            body_text: seq![],
        },
    }
}

/// Keys assigned to the first `n` bodies, given the keys `seen` already taken:
/// the emails emitted and the keys taken afterwards. A body takes its primary key
/// if free, else its location key if free, else it is skipped.
pub open spec fn assign(label: Seq<char>, dir: Seq<char>, bodies: Seq<BodyPlan>, mds: Seq<MdMeta>, seen: Set<Seq<char>>, n: nat) -> (Seq<EmailRecord>, Set<Seq<char>>)
    decreases n,
{
    if n == 0 {
        (seq![], seen)
    } else {
        let (out, taken) = assign(label, dir, bodies, mds, seen, (n - 1) as nat);
        let b = bodies[n - 1];
        let uid = uid_spec(label, b.message_id);
        if !taken.contains(uid) {
            (out.push(record_for(label, dir, b, mds, uid)), taken.insert(uid))
        } else {
            let fb = fallback_spec(label, dir, b.filename);
            if !taken.contains(fb) {
                (out.push(record_for(label, dir, b, mds, fb)), taken.insert(fb))
            } else {
                (out, taken)
            }
        }
    }
}

/// One indexable email: one body file, not one directory.
pub struct ParsedEmail {
    /// Primary key: `"<label>/<message_id>"`.
    pub uid: String,
    /// Full Gmail message ID when it can be determined (front matter, body stem, dir).
    pub message_id: String,
    pub label: String,
    /// On-disk directory name; the only thing that can rebuild the path to the body.
    pub dir_name: String,
    pub subject: String,
    pub from_addr: String,
    pub date: Option<String>,
    /// File rendered in the viewer: a `.html`, or a `.txt` for text-only newsletters.
    pub body_filename: String,
    pub body_format: BodyFormat,
    pub md_filename: String,
    pub body_text: String,
}

impl View for ParsedEmail {
    type V = EmailRecord;

    open spec fn view(&self) -> EmailRecord {
        EmailRecord {
            uid: self.uid@,
            message_id: self.message_id@,
            label: self.label@,
            dir_name: self.dir_name@,
            subject: self.subject@,
            from_addr: self.from_addr@,
            date: opt_text(self.date),
            body_filename: self.body_filename@,
            body_format: self.body_format,
            md_filename: self.md_filename@,
            body_text: self.body_text@,
        }
    }
}

pub open spec fn records(v: Seq<ParsedEmail>) -> Seq<EmailRecord> {
    v.map_values(|e: ParsedEmail| e@)
}

impl ParsedEmail {
    /// The three columns that together identify one physical email on disk.
    pub fn location(&self) -> (r: (String, String, String))
        ensures
            r.0@ == self.label@,
            r.1@ == self.dir_name@,
            r.2@ == self.body_filename@,
    {
        (self.label.clone(), self.dir_name.clone(), self.body_filename.clone())
    }
}

/// A body file matched to its metadata, before a key is assigned.
struct ResolvedBody {
    filename: String,
    format: BodyFormat,
    md: Option<usize>,
    message_id: String,
}

pub open spec fn opt_index(o: Option<usize>) -> Option<int> {
    match o {
        Some(i) => Some(i as int),
        None => None,
    }
}

impl ResolvedBody {
    spec fn plan(&self) -> BodyPlan {
        BodyPlan { filename: self.filename@, format: self.format, md: opt_index(self.md), message_id: self.message_id@ }
    }
}

spec fn plans_of(v: Seq<ResolvedBody>) -> Seq<BodyPlan> {
    v.map_values(|b: ResolvedBody| b.plan())
}

/// First sidecar whose front-matter `id:` equals `stem`.
fn find_by_fm_id_exec(mds: &Vec<MdMeta>, stem: &String) -> (r: Option<usize>)
    ensures
        opt_index(r) == find_by_fm_id(mds@, stem@, 0),
{
    let mut i: usize = 0;
    while i < mds.len()
        invariant
            0 <= i <= mds.len(),
            find_by_fm_id(mds@, stem@, 0) == find_by_fm_id(mds@, stem@, i as int),
        decreases mds.len() - i,
    {
        let hit = match &mds[i].fm_id {
            Some(id) => *id == *stem,
            None => false,
        };
        if hit {
            return Some(i);
        }
        i = i + 1;
    }
    None
}

/// First sidecar whose file name contains `stem`.
fn find_by_filename_exec(mds: &Vec<MdMeta>, stem: &String) -> (r: Option<usize>)
    ensures
        opt_index(r) == find_by_filename(mds@, stem@, 0),
{
    let sv = chars_of(stem.as_str());
    let mut i: usize = 0;
    while i < mds.len()
        invariant
            0 <= i <= mds.len(),
            sv@ == stem@,
            find_by_filename(mds@, stem@, 0) == find_by_filename(mds@, stem@, i as int),
        decreases mds.len() - i,
    {
        let fv = chars_of(mds[i].filename.as_str());
        if contains_chars(&fv, &sv) {
            return Some(i);
        }
        i = i + 1;
    }
    None
}

/// Matches one body file to its sidecar and works out the message ID it belongs to.
/// `single_pairing` says whether this body is the only one of its kind next to
/// exactly one sidecar; `siblings` is how many bodies of its kind the directory
/// holds, which decides the shape of the last-resort ID.
pub fn resolve_body(filename: &str, mds: &Vec<MdMeta>, single_pairing: bool, dir_name: &str, siblings: usize) -> (r: (Option<usize>, String))
    requires
        single_pairing ==> mds.len() == 1,
    ensures
        opt_index(r.0) == match_md(stem(filename@), mds@, single_pairing),
        r.0 matches Some(i) ==> i < mds.len(),
        r.1@ == resolve_id(stem(filename@), match_md(stem(filename@), mds@, single_pairing), mds@, dir_name@, siblings as int),
{
    let st = stem_of(filename);
    let stem_is_id = looks_like_message_id(st.as_str());
    let mut md = find_by_fm_id_exec(mds, &st);
    if md.is_none() {
        if stem_is_id {
            md = find_by_filename_exec(mds, &st);
        }
        if md.is_none() && single_pairing {
            md = Some(0);
        }
    }
    proof {
        lemma_find_by_fm_id_range(mds@, st@, 0);
        lemma_find_by_filename_range(mds@, st@, 0);
    }
    let from_md: Option<String> = match md {
        Some(i) => match &mds[i].fm_id {
            Some(id) => Some(id.clone()),
            None => None,
        },
        None => None,
    };
    let message_id = match from_md {
        Some(id) => id,
        None => {
            if stem_is_id {
                st
            } else if siblings == 1 {
                dir_name.to_owned()
            } else {
                let mut v = chars_of(dir_name);
                v.push('-');
                let sv = chars_of(st.as_str());
                extend_chars(&mut v, &sv);
                string_of(&v)
            }
        },
    };
    (md, message_id)
}

proof fn lemma_find_by_fm_id_range(mds: Seq<MdMeta>, stem: Seq<char>, i: int)
    ensures
        find_by_fm_id(mds, stem, i) matches Some(k) ==> 0 <= k < mds.len(),
    decreases mds.len() - i,
{
    if 0 <= i < mds.len() {
        lemma_find_by_fm_id_range(mds, stem, i + 1);
    }
}

proof fn lemma_find_by_filename_range(mds: Seq<MdMeta>, stem: Seq<char>, i: int)
    ensures
        find_by_filename(mds, stem, i) matches Some(k) ==> 0 <= k < mds.len(),
    decreases mds.len() - i,
{
    if 0 <= i < mds.len() {
        lemma_find_by_filename_range(mds, stem, i + 1);
    }
}

/// Whether a message named `s` already has one of the bodies in `bodies`.
fn covered_by(bodies: &Vec<ResolvedBody>, s: &String) -> (b: bool)
    ensures
        b == is_covered(plans_of(bodies@), s@),
{
    let ghost ps = plans_of(bodies@);
    let mut k: usize = 0;
    while k < bodies.len()
        invariant
            0 <= k <= bodies.len(),
            ps == plans_of(bodies@),
            forall|m: int| #![trigger ps[m]] 0 <= m < k ==> !(stem(ps[m].filename) == s@ || ps[m].message_id == s@),
        decreases bodies.len() - k,
    {
        let st = stem_of(bodies[k].filename.as_str());
        if st == *s || bodies[k].message_id == *s {
            assert(stem(ps[k as int].filename) == s@ || ps[k as int].message_id == s@);
            return true;
        }
        k = k + 1;
    }
    false
}

/// Matches body files of one kind and appends their plans to `bodies`.
fn resolve_all(
    names: &Vec<String>,
    format: BodyFormat,
    mds: &Vec<MdMeta>,
    single_pairing: bool,
    dir_name: &str,
    bodies: &mut Vec<ResolvedBody>,
)
    requires
        single_pairing ==> mds.len() == 1,
        forall|j: int| 0 <= j < old(bodies)@.len() ==> ((#[trigger] old(bodies)@[j]).md matches Some(i) ==> i < mds.len()),
    ensures
        plans_of(final(bodies)@) == plans_of(old(bodies)@) + Seq::new(
            names@.len(),
            |i: int| plan_for(names@[i]@, format, mds@, single_pairing, dir_name@, names@.len() as int),
        ),
        forall|j: int| 0 <= j < final(bodies)@.len() ==> ((#[trigger] final(bodies)@[j]).md matches Some(i) ==> i < mds.len()),
{
    let ghost start = plans_of(bodies@);
    let ghost want = Seq::new(
        names@.len(),
        |i: int| plan_for(names@[i]@, format, mds@, single_pairing, dir_name@, names@.len() as int),
    );
    let mut i: usize = 0;
    while i < names.len()
        invariant
            0 <= i <= names.len(),
            single_pairing ==> mds.len() == 1,
            want == Seq::new(
                names@.len(),
                |i: int| plan_for(names@[i]@, format, mds@, single_pairing, dir_name@, names@.len() as int),
            ),
            plans_of(bodies@) == start + want.take(i as int),
            forall|j: int| 0 <= j < bodies@.len() ==> ((#[trigger] bodies@[j]).md matches Some(k) ==> k < mds.len()),
        decreases names.len() - i,
    {
        let (md, message_id) = resolve_body(names[i].as_str(), mds, single_pairing, dir_name, names.len());
        let b = ResolvedBody { filename: names[i].clone(), format, md, message_id };
        let ghost before = bodies@;
        bodies.push(b);
        proof {
            assert(bodies@ =~= before.push(b));
            assert(want.take(i + 1) =~= want.take(i as int).push(want[i as int]));
            assert(plans_of(bodies@) =~= plans_of(before).push(b.plan()));
        }
        i = i + 1;
    }
    assert(want.take(names@.len() as int) =~= want);
}

/// Builds the email one body becomes under key `uid`.
fn build_email(uid: String, b: &ResolvedBody, label: &str, dir_name: &str, mds: &Vec<MdMeta>) -> (e: ParsedEmail)
    requires
        b.md matches Some(i) ==> i < mds.len(),
    ensures
        e@ == record_for(label@, dir_name@, b.plan(), mds@, uid@),
{
    match b.md {
        Some(i) => {
            let m = &mds[i];
            let date = match &m.date {
                Some(d) => Some(d.clone()),
                None => None,
            };
            ParsedEmail {
                uid,
                message_id: b.message_id.clone(),
                label: label.to_owned(),
                dir_name: dir_name.to_owned(),
                subject: m.subject.clone(),
                from_addr: m.from_addr.clone(),
                date,
                body_filename: b.filename.clone(),
                body_format: b.format,
                md_filename: m.path.clone(),
                body_text: m.body_text.clone(),
            }
        },
        None => ParsedEmail {
            uid,
            message_id: b.message_id.clone(),
            label: label.to_owned(),
            dir_name: dir_name.to_owned(),
            subject: String::new(),
            from_addr: String::new(),
            date: None,
            body_filename: b.filename.clone(),
            body_format: b.format,
            md_filename: String::new(),
            body_text: String::new(),
        },
    }
}

/// The emails of one directory: one per body file, appended to `out`, with keys
/// checked against (and added to) `seen_uids` so no two emails share a key.
///
/// Pass 1 makes every `.html` a body; pass 2 promotes the `.txt` files whose message
/// has no HTML body; pass 3 assigns keys, falling back to the physical location when
/// a key is taken, and skipping a body only when that is taken too.
pub fn emails_in_dir(
    label: &str,
    dir_name: &str,
    files: &DirFiles,
    mds: &Vec<MdMeta>,
    seen_uids: &mut StringHashSet,
    out: &mut Vec<ParsedEmail>,
)
    ensures
        records(final(out)@) == records(old(out)@) + assign(
            label@,
            dir_name@,
            dir_plans(text::views(files.html@), text::views(files.txt@), mds@, dir_name@),
            mds@,
            old(seen_uids)@,
            dir_plans(text::views(files.html@), text::views(files.txt@), mds@, dir_name@).len(),
        ).0,
        final(seen_uids)@ == assign(
            label@,
            dir_name@,
            dir_plans(text::views(files.html@), text::views(files.txt@), mds@, dir_name@),
            mds@,
            old(seen_uids)@,
            dir_plans(text::views(files.html@), text::views(files.txt@), mds@, dir_name@).len(),
        ).1,
{
    let ghost html = text::views(files.html@);
    let ghost txt = text::views(files.txt@);
    let ghost all = dir_plans(html, txt, mds@, dir_name@);
    let ghost out0 = out@;
    let ghost seen0 = seen_uids@;
    let n_html = files.html.len();

    // Pass 1: every .html is a body.
    let mut bodies: Vec<ResolvedBody> = Vec::new();
    let html_pairing = n_html == 1 && mds.len() == 1;
    resolve_all(&files.html, BodyFormat::Html, mds, html_pairing, dir_name, &mut bodies);
    assert(plans_of(bodies@) =~= html_plans(html, mds@, dir_name@));

    // Pass 2: promote .txt files for messages that have no HTML body.
    let ghost hp = html_plans(html, mds@, dir_name@);
    let ghost pred = |t: Seq<char>| is_promoted(html, hp, t);
    let mut candidates: Vec<String> = Vec::new();
    let mut i: usize = 0;
    while i < files.txt.len()
        invariant
            0 <= i <= files.txt.len(),
            n_html == files.html.len(),
            html == text::views(files.html@),
            txt == text::views(files.txt@),
            hp == html_plans(html, mds@, dir_name@),
            plans_of(bodies@) == hp,
            pred == (|t: Seq<char>| is_promoted(html, hp, t)),
            text::views(candidates@) == text::select(txt.take(i as int), pred),
        decreases files.txt.len() - i,
    {
        let st = stem_of(files.txt[i].as_str());
        let promote = n_html == 0 || (looks_like_message_id(st.as_str()) && !covered_by(&bodies, &st));
        assert(txt.take(i + 1).drop_last() =~= txt.take(i as int));
        assert(txt.take(i + 1).last() == files.txt@[i as int]@);
        if promote {
            candidates.push(files.txt[i].clone());
            assert(text::views(candidates@) =~= text::select(txt.take(i as int), pred).push(files.txt@[i as int]@));
        }
        i = i + 1;
    }
    assert(txt.take(txt.len() as int) =~= txt);
    assert(text::views(candidates@) == text_candidates(html, txt, mds@, dir_name@));
    let text_pairing = n_html == 0 && candidates.len() == 1 && mds.len() == 1;
    resolve_all(&candidates, BodyFormat::Text, mds, text_pairing, dir_name, &mut bodies);
    proof {
        let c = text_candidates(html, txt, mds@, dir_name@);
        let tp = Seq::new(
            candidates@.len(),
            |i: int| plan_for(candidates@[i]@, BodyFormat::Text, mds@, text_pairing, dir_name@, candidates@.len() as int),
        );
        assert(tp =~= text_plans(html, txt, mds@, dir_name@));
        assert(plans_of(bodies@) =~= all);
    }

    // Pass 3: assign keys and emit.
    let mut k: usize = 0;
    while k < bodies.len()
        invariant
            0 <= k <= bodies.len(),
            plans_of(bodies@) == all,
            forall|j: int| 0 <= j < bodies@.len() ==> ((#[trigger] bodies@[j]).md matches Some(m) ==> m < mds.len()),
            records(out@) == records(out0) + assign(label@, dir_name@, all, mds@, seen0, k as nat).0,
            seen_uids@ == assign(label@, dir_name@, all, mds@, seen0, k as nat).1,
        decreases bodies.len() - k,
    {
        let b = &bodies[k];
        assert(all[k as int] == b.plan());
        let uid = make_uid(label, b.message_id.as_str());
        let ghost before = out@;
        if seen_uids.insert(uid.clone()) {
            let e = build_email(uid, b, label, dir_name, mds);
            out.push(e);
            assert(records(out@) =~= records(before).push(e@));
        } else {
            let fallback = fallback_uid(label, dir_name, b.filename.as_str());
            if seen_uids.insert(fallback.clone()) {
                let e = build_email(fallback, b, label, dir_name, mds);
                out.push(e);
                assert(records(out@) =~= records(before).push(e@));
            } else {
                let ghost taken = assign(label@, dir_name@, all, mds@, seen0, k as nat).1;
                assert(seen_uids@ =~= taken);
            }
        }
        k = k + 1;
    }
}

} // verus!
