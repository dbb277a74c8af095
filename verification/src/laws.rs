//! Properties of the archive that span several functions: keys are scoped by label
//! and never repeat within a scan, restored state depends only on the rows of the
//! email's own label, the scan's outcome does not depend on the order the file
//! system lists entries in, escaped text holds no markup, and a cleaned search query
//! cleans to itself.
use vstd::prelude::*;
use crate::scan::{
    assign, dir_plans, fallback_spec, html_plans, is_covered, is_promoted, stem, text_candidates, uid_spec,
    BodyPlan, EmailRecord, MdMeta,
};
use crate::state::{location_model, restored, uid_model, StoredState};
use crate::emails::{escape, escape_char};
use crate::search::{clean_words, fts_query, is_advanced, is_special, join_spaced, strip_special};
use crate::text;
use crate::walk::{
    dir_emails, dir_names, find_dir, find_label, label_names, sorted_selection, tree_emails,
    visible_order, walk_dirs, walk_labels, DirListing, LabelListing,
};

verus! {

/// Whether `s` holds no `/`: a label is a single path component.
pub open spec fn slash_free(s: Seq<char>) -> bool {
    forall|i: int| 0 <= i < s.len() ==> s[i] != '/'
}

/// Whether key `k` is scoped by label `l`: it starts with `l` followed by `/`.
pub open spec fn key_has_label(k: Seq<char>, l: Seq<char>) -> bool {
    &&& l.len() < k.len()
    &&& k.take(l.len() as int) == l
    &&& k[l.len() as int] == '/'
}

/// Both kinds of key an email can get, its primary key and its location key, are
/// scoped by its label.
pub proof fn lemma_keys_carry_label(label: Seq<char>, message_id: Seq<char>, dir: Seq<char>, file: Seq<char>)
    ensures
        key_has_label(uid_spec(label, message_id), label),
        key_has_label(fallback_spec(label, dir, file), label),
{
    let u = uid_spec(label, message_id);
    let f = fallback_spec(label, dir, file);
    assert(u.take(label.len() as int) =~= label);
    assert(f.take(label.len() as int) =~= label);
}

/// A key is scoped by at most one label: two emails under different labels can never
/// share a key, whatever their directories and message IDs are called.
pub proof fn lemma_label_scoped_keys_are_distinct(k: Seq<char>, l1: Seq<char>, l2: Seq<char>)
    requires
        slash_free(l1),
        slash_free(l2),
        key_has_label(k, l1),
        key_has_label(k, l2),
    ensures
        l1 == l2,
{
    if l1.len() < l2.len() {
        assert(k.take(l2.len() as int)[l1.len() as int] == k[l1.len() as int]);
        assert(l2[l1.len() as int] == '/');
    } else if l2.len() < l1.len() {
        assert(k.take(l1.len() as int)[l2.len() as int] == k[l2.len() as int]);
        assert(l1[l2.len() as int] == '/');
    }
}

/// Keys of emails under different labels differ.
pub proof fn lemma_keys_differ_across_labels(l1: Seq<char>, m1: Seq<char>, l2: Seq<char>, m2: Seq<char>)
    requires
        slash_free(l1),
        slash_free(l2),
        l1 != l2,
    ensures
        uid_spec(l1, m1) != uid_spec(l2, m2),
{
    lemma_keys_carry_label(l1, m1, seq![], seq![]);
    lemma_keys_carry_label(l2, m2, seq![], seq![]);
    if uid_spec(l1, m1) == uid_spec(l2, m2) {
        lemma_label_scoped_keys_are_distinct(uid_spec(l1, m1), l1, l2);
    }
}

/// Within one scan no key repeats: the emails a directory yields take keys that were
/// free before, all different from each other, and afterwards exactly those keys are
/// taken in addition to the ones that were.
pub proof fn lemma_assigned_keys_are_fresh(
    label: Seq<char>,
    dir: Seq<char>,
    bodies: Seq<BodyPlan>,
    mds: Seq<MdMeta>,
    seen: Set<Seq<char>>,
    n: nat,
)
    requires
        n <= bodies.len(),
    ensures
        ({
            let (out, taken) = assign(label, dir, bodies, mds, seen, n);
            &&& out.len() <= n
            &&& forall|i: int| 0 <= i < out.len() ==> !seen.contains(#[trigger] out[i].uid)
            &&& forall|i: int, j: int| 0 <= i < j < out.len() ==> #[trigger] out[i].uid != #[trigger] out[j].uid
            &&& forall|k: Seq<char>| #[trigger] taken.contains(k) <==> (seen.contains(k) || exists|i: int| 0 <= i < out.len() && #[trigger] out[i].uid == k)
        }),
    decreases n,
{
    if n > 0 {
        lemma_assigned_keys_are_fresh(label, dir, bodies, mds, seen, (n - 1) as nat);
        let (out0, taken0) = assign(label, dir, bodies, mds, seen, (n - 1) as nat);
        let (out, taken) = assign(label, dir, bodies, mds, seen, n);
        let b = bodies[n - 1];
        let uid = uid_spec(label, b.message_id);
        let fb = fallback_spec(label, dir, b.filename);
        if !taken0.contains(uid) || !taken0.contains(fb) {
            let key = if !taken0.contains(uid) { uid } else { fb };
            assert(out == out0.push(out[out.len() - 1]));
            assert(out[out.len() - 1].uid == key);
            assert(taken == taken0.insert(key));
            assert forall|k: Seq<char>| #[trigger] taken.contains(k) <==> (seen.contains(k) || exists|i: int| 0 <= i < out.len() && #[trigger] out[i].uid == k) by {
                if k == key {
                    assert(out[out.len() - 1].uid == k);
                } else if exists|i: int| 0 <= i < out.len() && #[trigger] out[i].uid == k {
                    let i = choose|i: int| 0 <= i < out.len() && #[trigger] out[i].uid == k;
                    assert(out0[i].uid == k);
                } else {
                    assert forall|i: int| 0 <= i < out0.len() implies #[trigger] out0[i].uid != k by {
                        assert(out[i] == out0[i]);
                    }
                }
            }
            assert forall|i: int| 0 <= i < out.len() implies !seen.contains(#[trigger] out[i].uid) by {
                if i < out0.len() {
                    assert(out[i] == out0[i]);
                }
            }
            assert forall|i: int, j: int| 0 <= i < j < out.len() implies #[trigger] out[i].uid != #[trigger] out[j].uid by {
                assert(out[i] == out0[i]);
                if j < out0.len() {
                    assert(out[j] == out0[j]);
                } else {
                    assert(taken0.contains(out0[i].uid));
                }
            }
        }
    }
}

/// Keys in the state snapshot of the first `n` rows are exactly the rows' keys.
pub proof fn lemma_uid_model_keys(rows: Seq<StoredState>, n: nat, k: Seq<char>)
    requires
        n <= rows.len(),
    ensures
        uid_model(rows, n).contains_key(k) <==> exists|i: int| 0 <= i < n && #[trigger] rows[i].uid@ == k,
    decreases n,
{
    if n > 0 {
        lemma_uid_model_keys(rows, (n - 1) as nat, k);
        if exists|i: int| 0 <= i < n && #[trigger] rows[i].uid@ == k {
            let i = choose|i: int| 0 <= i < n && #[trigger] rows[i].uid@ == k;
            if i < n - 1 {
                assert(exists|j: int| 0 <= j < n - 1 && #[trigger] rows[j].uid@ == k);
            }
        }
    }
}

/// Locations in the state snapshot of the first `n` rows are exactly the rows'.
pub proof fn lemma_location_model_keys(rows: Seq<StoredState>, n: nat, t: (Seq<char>, Seq<char>, Seq<char>))
    requires
        n <= rows.len(),
    ensures
        location_model(rows, n).contains_key(t) <==> exists|i: int|
            0 <= i < n && (#[trigger] rows[i].label@, rows[i].dir_name@, rows[i].body_filename@) == t,
    decreases n,
{
    if n > 0 {
        lemma_location_model_keys(rows, (n - 1) as nat, t);
        if exists|i: int| 0 <= i < n && (#[trigger] rows[i].label@, rows[i].dir_name@, rows[i].body_filename@) == t {
            let i = choose|i: int| 0 <= i < n && (#[trigger] rows[i].label@, rows[i].dir_name@, rows[i].body_filename@) == t;
            if i < n - 1 {
                assert(exists|j: int| 0 <= j < n - 1 && (#[trigger] rows[j].label@, rows[j].dir_name@, rows[j].body_filename@) == t);
            }
        }
    }
}

/// Restored state never crosses labels: when every stored key is scoped by its
/// row's label, an email whose label no stored row has gets nothing back, even if
/// another label holds a directory of the same name.
pub proof fn lemma_state_does_not_bleed_between_labels(
    rows: Seq<StoredState>,
    label: Seq<char>,
    message_id: Seq<char>,
    dir: Seq<char>,
    file: Seq<char>,
)
    requires
        slash_free(label),
        forall|i: int| 0 <= i < rows.len() ==> slash_free(#[trigger] rows[i].label@),
        forall|i: int| 0 <= i < rows.len() ==> key_has_label(#[trigger] rows[i].uid@, rows[i].label@),
        forall|i: int| 0 <= i < rows.len() ==> #[trigger] rows[i].label@ != label,
    ensures
        restored(
            uid_model(rows, rows.len()),
            location_model(rows, rows.len()),
            uid_spec(label, message_id),
            (label, dir, file),
        ) == (false, false),
{
    let uid = uid_spec(label, message_id);
    lemma_keys_carry_label(label, message_id, dir, file);
    lemma_uid_model_keys(rows, rows.len(), uid);
    lemma_location_model_keys(rows, rows.len(), (label, dir, file));
    if exists|i: int| 0 <= i < rows.len() && #[trigger] rows[i].uid@ == uid {
        let i = choose|i: int| 0 <= i < rows.len() && #[trigger] rows[i].uid@ == uid;
        lemma_label_scoped_keys_are_distinct(uid, rows[i].label@, label);
    }
    if exists|i: int| 0 <= i < rows.len() && (#[trigger] rows[i].label@, rows[i].dir_name@, rows[i].body_filename@) == (label, dir, file) {
        let i = choose|i: int| 0 <= i < rows.len() && (#[trigger] rows[i].label@, rows[i].dir_name@, rows[i].body_filename@) == (label, dir, file);
        assert(rows[i].label@ == label);
    }
}

/// The owner's state survives a re-index: with keys unique among the stored rows (as
/// the primary key makes them), an email stored under key `k` gets back exactly the
/// state it was stored with.
pub proof fn lemma_owner_state_is_restored(rows: Seq<StoredState>, i: int, loc: (Seq<char>, Seq<char>, Seq<char>))
    requires
        0 <= i < rows.len(),
        forall|a: int, b: int| 0 <= a < b < rows.len() ==> #[trigger] rows[a].uid@ != #[trigger] rows[b].uid@,
    ensures
        restored(uid_model(rows, rows.len()), location_model(rows, rows.len()), rows[i].uid@, loc)
            == (rows[i].is_read, rows[i].is_bookmarked),
{
    lemma_uid_model_value(rows, rows.len(), i);
}

proof fn lemma_uid_model_value(rows: Seq<StoredState>, n: nat, i: int)
    requires
        0 <= i < n <= rows.len(),
        forall|a: int, b: int| 0 <= a < b < rows.len() ==> #[trigger] rows[a].uid@ != #[trigger] rows[b].uid@,
    ensures
        uid_model(rows, n).contains_key(rows[i].uid@),
        uid_model(rows, n)[rows[i].uid@] == (rows[i].is_read, rows[i].is_bookmarked),
    decreases n,
{
    if i < n - 1 {
        lemma_uid_model_value(rows, (n - 1) as nat, i);
        assert(rows[i].uid@ != rows[n - 1].uid@);
    }
}

/// Every `.html` file of a directory is a body of its own, in sorted order.
pub proof fn lemma_every_html_file_is_a_body(html: Seq<Seq<char>>, txt: Seq<Seq<char>>, mds: Seq<MdMeta>, dir: Seq<char>, i: int)
    requires
        0 <= i < html.len(),
    ensures
        dir_plans(html, txt, mds, dir)[i].filename == html[i],
        dir_plans(html, txt, mds, dir)[i].format == crate::scan::BodyFormat::Html,
{
}

/// A directory without any body file yields no email.
pub proof fn lemma_directory_without_body_is_skipped(label: Seq<char>, dir: Seq<char>, mds: Seq<MdMeta>, seen: Set<Seq<char>>)
    ensures
        ({
            let plans = dir_plans(seq![], seq![], mds, dir);
            assign(label, dir, plans, mds, seen, plans.len()).0.len() == 0
        }),
{
    let plans = dir_plans(seq![], seq![], mds, dir);
    reveal_with_fuel(text::select, 1);
    assert(text_candidates(seq![], seq![], mds, dir) =~= Seq::<Seq<char>>::empty());
    assert(plans.len() == 0);
}

/// A `.txt` file beside an `.html` file of the same stem is that message's plain-text
/// alternative and never a body of its own.
pub proof fn lemma_text_alternative_is_not_a_body(html: Seq<Seq<char>>, mds: Seq<MdMeta>, dir: Seq<char>, t: Seq<char>, i: int)
    requires
        0 <= i < html.len(),
        stem(html[i]) == stem(t),
    ensures
        !is_promoted(html, html_plans(html, mds, dir), t),
{
    let plans = html_plans(html, mds, dir);
    assert(stem(plans[i].filename) == stem(t));
    assert(is_covered(plans, stem(t)));
}

/// In a directory without any `.html` file, every `.txt` file is a body.
pub proof fn lemma_text_only_directory_indexes_every_text(txt: Seq<Seq<char>>, mds: Seq<MdMeta>, dir: Seq<char>)
    ensures
        text_candidates(seq![], txt, mds, dir) == txt,
    decreases txt.len(),
{
    let p = |t: Seq<char>| is_promoted(seq![], html_plans(seq![], mds, dir), t);
    if txt.len() > 0 {
        lemma_text_only_directory_indexes_every_text(txt.drop_last(), mds, dir);
        assert(txt.drop_last().push(txt.last()) =~= txt);
    } else {
        assert(text::select(txt, p) =~= txt);
    }
}

/// Escaped text holds no `<` or `>`: a plain-text body can never inject markup.
pub proof fn lemma_escaped_text_has_no_markup(s: Seq<char>)
    ensures
        forall|i: int| 0 <= i < escape(s).len() ==> #[trigger] escape(s)[i] != '<' && escape(s)[i] != '>',
    decreases s.len(),
{
    if s.len() > 0 {
        lemma_escaped_text_has_no_markup(s.drop_last());
        let a = escape(s.drop_last());
        let b = escape_char(s.last());
        assert(escape(s) == a + b);
        assert forall|i: int| 0 <= i < escape(s).len() implies #[trigger] escape(s)[i] != '<' && escape(s)[i] != '>' by {
            if i < a.len() {
                assert(escape(s)[i] == a[i]);
            } else {
                assert(escape(s)[i] == b[i - a.len()]);
            }
        }
    }
}

/// Text without `&`, `<` and `>` is left as it is.
pub proof fn lemma_escape_keeps_ordinary_text(s: Seq<char>)
    requires
        forall|i: int| 0 <= i < s.len() ==> #[trigger] s[i] != '&' && s[i] != '<' && s[i] != '>',
    ensures
        escape(s) == s,
    decreases s.len(),
{
    if s.len() > 0 {
        lemma_escape_keeps_ordinary_text(s.drop_last());
        assert(s.drop_last().push(s.last()) =~= s);
        assert(s[s.len() - 1] == s.last());
    }
}

/// Selecting keeps each selected string as often as it occurs.
pub proof fn lemma_select_count(s: Seq<Seq<char>>, p: spec_fn(Seq<char>) -> bool, x: Seq<char>)
    ensures
        text::select(s, p).to_multiset().count(x) == if p(x) {
            s.to_multiset().count(x)
        } else {
            0
        },
    decreases s.len(),
{
    broadcast use vstd::multiset::group_multiset_axioms;

    if s.len() == 0 {
        s.to_multiset_ensures();
        text::select(s, p).to_multiset_ensures();
    } else {
        lemma_select_count(s.drop_last(), p, x);
        s.drop_last().to_multiset_ensures();
        text::select(s.drop_last(), p).to_multiset_ensures();
        assert(s =~= s.drop_last().push(s.last()));
    }
}

/// What a directory's entries sort into does not depend on the order the file system
/// listed them in: listings with the same entries give the same sorted lists, for
/// any selection (bodies, sidecars, visible subdirectories).
pub proof fn lemma_listing_order_is_irrelevant(
    names1: Seq<Seq<char>>,
    names2: Seq<Seq<char>>,
    p: spec_fn(Seq<char>) -> bool,
    out1: Seq<Seq<char>>,
    out2: Seq<Seq<char>>,
)
    requires
        names1.to_multiset() == names2.to_multiset(),
        text::is_sorted_permutation(out1, text::select(names1, p)),
        text::is_sorted_permutation(out2, text::select(names2, p)),
    ensures
        out1 == out2,
{
    assert forall|x: Seq<char>| #[trigger] text::select(names1, p).to_multiset().count(x) == text::select(names2, p).to_multiset().count(x) by {
        lemma_select_count(names1, p, x);
        lemma_select_count(names2, p, x);
    }
    assert(text::select(names1, p).to_multiset() =~= text::select(names2, p).to_multiset());
    text::lemma_text_order_is_total();
    let le = text::text_le();
    assert(vstd::relations::sorted_by(out1, le));
    assert(vstd::relations::sorted_by(out2, le));
    vstd::seq_lib::lemma_sorted_unique(out1, out2, le);
}

/// What is kept of a body for search fits in 2000 bytes and is the body's start.
pub proof fn lemma_truncated_body_fits(s: Seq<char>, r: Seq<char>)
    requires
        crate::scan::is_truncation(s, r),
    ensures
        crate::scan::utf8_len(r) <= crate::scan::max_body_bytes(),
        r.len() <= s.len(),
        r == s.take(r.len() as int),
{
    if crate::scan::utf8_len(s) <= crate::scan::max_body_bytes() {
        assert(s.take(s.len() as int) =~= s);
    }
}

proof fn lemma_strip_special_is_plain(w: Seq<char>)
    ensures
        forall|i: int| 0 <= i < strip_special(w).len() ==> !is_special(#[trigger] strip_special(w)[i]),
    decreases w.len(),
{
    if w.len() > 0 {
        lemma_strip_special_is_plain(w.drop_last());
        let a = strip_special(w.drop_last());
        if !is_special(w.last()) {
            assert forall|i: int| 0 <= i < strip_special(w).len() implies !is_special(#[trigger] strip_special(w)[i]) by {
                if i < a.len() {
                    assert(strip_special(w)[i] == a[i]);
                }
            }
        }
    }
}

proof fn lemma_select_plain(ws: Seq<Seq<char>>, p: spec_fn(Seq<char>) -> bool)
    requires
        forall|k: int, i: int| 0 <= k < ws.len() && 0 <= i < ws[k].len() ==> !is_special(#[trigger] ws[k][i]),
    ensures
        forall|k: int, i: int|
            0 <= k < text::select(ws, p).len() && 0 <= i < text::select(ws, p)[k].len() ==> !is_special(
                #[trigger] text::select(ws, p)[k][i],
            ),
    decreases ws.len(),
{
    if ws.len() > 0 {
        lemma_select_plain(ws.drop_last(), p);
        let rest = text::select(ws.drop_last(), p);
        assert forall|k: int, i: int|
            0 <= k < text::select(ws, p).len() && 0 <= i < text::select(ws, p)[k].len() implies !is_special(
            #[trigger] text::select(ws, p)[k][i],
        ) by {
            if k < rest.len() {
                assert(text::select(ws, p)[k] == rest[k]);
            } else {
                assert(text::select(ws, p)[k] == ws.last());
                assert(ws.last() == ws[ws.len() - 1]);
            }
        }
    }
}

proof fn lemma_join_plain(ws: Seq<Seq<char>>)
    requires
        forall|k: int, i: int| 0 <= k < ws.len() && 0 <= i < ws[k].len() ==> !is_special(#[trigger] ws[k][i]),
    ensures
        forall|i: int| 0 <= i < join_spaced(ws).len() ==> !is_special(#[trigger] join_spaced(ws)[i]),
    decreases ws.len(),
{
    if ws.len() > 1 {
        lemma_join_plain(ws.drop_last());
        let a = join_spaced(ws.drop_last());
        let b = ws.last();
        assert(join_spaced(ws) == a + seq![' '] + b);
        assert forall|i: int| 0 <= i < join_spaced(ws).len() implies !is_special(#[trigger] join_spaced(ws)[i]) by {
            if i < a.len() {
                assert(join_spaced(ws)[i] == a[i]);
            } else if i == a.len() {
            } else {
                assert(join_spaced(ws)[i] == b[i - a.len() - 1]);
                assert(b == ws[ws.len() - 1]);
            }
        }
    } else if ws.len() == 1 {
        assert(join_spaced(ws) == ws[0]);
    }
}

/// A query built from plain words is safe: apart from the final `*` that makes the
/// last word a prefix match, it holds none of the query language's special
/// characters.
pub proof fn lemma_plain_query_has_no_operators(input: Seq<char>)
    requires
        !is_advanced(text::trim(input)),
        fts_query(input).len() > 0,
    ensures
        fts_query(input).last() == '*',
        forall|i: int| 0 <= i < fts_query(input).len() - 1 ==> !is_special(#[trigger] fts_query(input)[i]),
{
    let t = text::trim(input);
    let ws = crate::search::words(t).map_values(|w: Seq<char>| strip_special(w));
    assert forall|k: int, i: int| 0 <= k < ws.len() && 0 <= i < ws[k].len() implies !is_special(#[trigger] ws[k][i]) by {
        lemma_strip_special_is_plain(crate::search::words(t)[k]);
    }
    lemma_select_plain(ws, |w: Seq<char>| w.len() > 0);
    lemma_join_plain(clean_words(t));
    let j = join_spaced(clean_words(t));
    assert(fts_query(input) == j + seq!['*']);
    assert forall|i: int| 0 <= i < fts_query(input).len() - 1 implies !is_special(#[trigger] fts_query(input)[i]) by {
        assert(fts_query(input)[i] == j[i]);
    }
}


/// A selection, sorted, does not depend on the order the names were listed in.
proof fn lemma_sorted_selection_order_free(names1: Seq<Seq<char>>, names2: Seq<Seq<char>>, p: spec_fn(Seq<char>) -> bool)
    requires
        names1.to_multiset() == names2.to_multiset(),
    ensures
        sorted_selection(names1, p) == sorted_selection(names2, p),
{
    text::lemma_text_order_is_total();
    let le = text::text_le();
    let s1 = text::select(names1, p);
    let s2 = text::select(names2, p);
    s1.lemma_sort_by_ensures(le);
    s2.lemma_sort_by_ensures(le);
    let o1 = s1.sort_by(le);
    let o2 = s2.sort_by(le);
    assert forall|i: int, j: int| 0 <= i < j < o1.len() implies !text::seq_lt(o1[j], o1[i]) by {
        assert(le(o1[i], o1[j]));
    }
    assert forall|i: int, j: int| 0 <= i < j < o2.len() implies !text::seq_lt(o2[j], o2[i]) by {
        assert(le(o2[i], o2[j]));
    }
    lemma_listing_order_is_irrelevant(names1, names2, p, o1, o2);
}

/// The listing of the directory named `n` (the first one of that name).
pub open spec fn dir_named(dirs: Seq<DirListing>, n: Seq<char>) -> DirListing {
    dirs[find_dir(dirs, n, 0)->0]
}

/// The listing of the label named `n` (the first one of that name).
pub open spec fn label_named(labels: Seq<LabelListing>, n: Seq<char>) -> LabelListing {
    labels[find_label(labels, n, 0)->0]
}

/// Two listings of one email directory: the same name, the same sidecars, and the
/// same entries in any order.
pub open spec fn same_dir_listing(a: DirListing, b: DirListing) -> bool {
    &&& a.name@ == b.name@
    &&& a.sidecars@ == b.sidecars@
    &&& text::views(a.entries@).to_multiset() == text::views(b.entries@).to_multiset()
}

/// Two listings of a label's email directories: the same directories in any order,
/// each listed the same way up to order.
pub open spec fn same_dirs_listing(a: Seq<DirListing>, b: Seq<DirListing>) -> bool {
    &&& dir_names(a).to_multiset() == dir_names(b).to_multiset()
    &&& forall|n: Seq<char>| #[trigger] dir_names(a).contains(n) ==> same_dir_listing(dir_named(a, n), dir_named(b, n))
}

/// Two listings of a newsletters tree: the same labels in any order, each listed
/// the same way up to order.
pub open spec fn same_tree_listing(a: Seq<LabelListing>, b: Seq<LabelListing>) -> bool {
    &&& label_names(a).to_multiset() == label_names(b).to_multiset()
    &&& forall|n: Seq<char>|
        #[trigger] label_names(a).contains(n) ==> same_dirs_listing(label_named(a, n).dirs@, label_named(b, n).dirs@)
}

/// What a directory yields does not depend on the order its entries were listed in.
pub proof fn lemma_dir_result_is_order_free(label: Seq<char>, a: DirListing, b: DirListing, seen: Set<Seq<char>>)
    requires
        same_dir_listing(a, b),
    ensures
        dir_emails(label, a, seen) == dir_emails(label, b, seen),
{
    let ea = text::views(a.entries@);
    let eb = text::views(b.entries@);
    lemma_sorted_selection_order_free(ea, eb, |s: Seq<char>| crate::scan::is_html_name(s));
    lemma_sorted_selection_order_free(ea, eb, |s: Seq<char>| crate::scan::is_txt_name(s));
}

proof fn lemma_find_dir_found(dirs: Seq<DirListing>, n: Seq<char>, i: int)
    requires
        0 <= i,
    ensures
        find_dir(dirs, n, i) is Some <==> exists|k: int| i <= k < dirs.len() && #[trigger] dirs[k].name@ == n,
        find_dir(dirs, n, i) matches Some(k) ==> i <= k < dirs.len() && dirs[k].name@ == n,
    decreases dirs.len() - i,
{
    if i < dirs.len() {
        lemma_find_dir_found(dirs, n, i + 1);
        if dirs[i].name@ != n {
            if exists|k: int| i <= k < dirs.len() && #[trigger] dirs[k].name@ == n {
                let k = choose|k: int| i <= k < dirs.len() && #[trigger] dirs[k].name@ == n;
                assert(i + 1 <= k);
            }
        }
    }
}

proof fn lemma_find_label_found(labels: Seq<LabelListing>, n: Seq<char>, i: int)
    requires
        0 <= i,
    ensures
        find_label(labels, n, i) is Some <==> exists|k: int| i <= k < labels.len() && #[trigger] labels[k].name@ == n,
        find_label(labels, n, i) matches Some(k) ==> i <= k < labels.len() && labels[k].name@ == n,
    decreases labels.len() - i,
{
    if i < labels.len() {
        lemma_find_label_found(labels, n, i + 1);
        if labels[i].name@ != n {
            if exists|k: int| i <= k < labels.len() && #[trigger] labels[k].name@ == n {
                let k = choose|k: int| i <= k < labels.len() && #[trigger] labels[k].name@ == n;
                assert(i + 1 <= k);
            }
        }
    }
}

/// A directory name is found exactly when it is listed.
proof fn lemma_dir_listed(dirs: Seq<DirListing>, n: Seq<char>)
    ensures
        find_dir(dirs, n, 0) is Some <==> dir_names(dirs).contains(n),
        find_dir(dirs, n, 0) is Some ==> dir_named(dirs, n) == dirs[find_dir(dirs, n, 0)->0],
{
    lemma_find_dir_found(dirs, n, 0);
    if dir_names(dirs).contains(n) {
        let k = choose|k: int| 0 <= k < dir_names(dirs).len() && dir_names(dirs)[k] == n;
        assert(dirs[k].name@ == n);
    }
    if find_dir(dirs, n, 0) is Some {
        let k = find_dir(dirs, n, 0)->0;
        assert(dir_names(dirs)[k] == n);
    }
}

/// A label name is found exactly when it is listed.
proof fn lemma_label_listed(labels: Seq<LabelListing>, n: Seq<char>)
    ensures
        find_label(labels, n, 0) is Some <==> label_names(labels).contains(n),
{
    lemma_find_label_found(labels, n, 0);
    if label_names(labels).contains(n) {
        let k = choose|k: int| 0 <= k < label_names(labels).len() && label_names(labels)[k] == n;
        assert(labels[k].name@ == n);
    }
    if find_label(labels, n, 0) is Some {
        let k = find_label(labels, n, 0)->0;
        assert(label_names(labels)[k] == n);
    }
}

proof fn lemma_walk_dirs_order_free(
    label: Seq<char>,
    a: Seq<DirListing>,
    b: Seq<DirListing>,
    order: Seq<Seq<char>>,
    seen: Set<Seq<char>>,
    n: nat,
)
    requires
        same_dirs_listing(a, b),
    ensures
        walk_dirs(label, a, order, seen, n) == walk_dirs(label, b, order, seen, n),
    decreases n,
{
    if n > 0 && n <= order.len() {
        lemma_walk_dirs_order_free(label, a, b, order, seen, (n - 1) as nat);
        let x = order[n - 1];
        lemma_dir_listed(a, x);
        lemma_dir_listed(b, x);
        vstd::seq_lib::to_multiset_contains(dir_names(a), x);
        vstd::seq_lib::to_multiset_contains(dir_names(b), x);
        if dir_names(a).contains(x) {
            let taken = walk_dirs(label, a, order, seen, (n - 1) as nat).1;
            lemma_dir_result_is_order_free(label, dir_named(a, x), dir_named(b, x), taken);
        }
    }
}

proof fn lemma_walk_labels_order_free(
    a: Seq<LabelListing>,
    b: Seq<LabelListing>,
    order: Seq<Seq<char>>,
    seen: Set<Seq<char>>,
    n: nat,
)
    requires
        same_tree_listing(a, b),
    ensures
        walk_labels(a, order, seen, n) == walk_labels(b, order, seen, n),
    decreases n,
{
    if n > 0 && n <= order.len() {
        lemma_walk_labels_order_free(a, b, order, seen, (n - 1) as nat);
        let x = order[n - 1];
        lemma_label_listed(a, x);
        lemma_label_listed(b, x);
        vstd::seq_lib::to_multiset_contains(label_names(a), x);
        vstd::seq_lib::to_multiset_contains(label_names(b), x);
        if label_names(a).contains(x) {
            let da = label_named(a, x).dirs@;
            let db = label_named(b, x).dirs@;
            lemma_sorted_selection_order_free(dir_names(da), dir_names(db), |s: Seq<char>| !text::is_hidden(s));
            let dorder = visible_order(dir_names(da));
            let taken = walk_labels(a, order, seen, (n - 1) as nat).1;
            lemma_walk_dirs_order_free(x, da, db, dorder, taken, dorder.len());
        }
    }
}

/// The scan's result does not depend on the order in which the file system lists
/// labels, email directories or files: two listings of the same tree that differ
/// only in order yield the same emails, in the same order, with the same keys.
pub proof fn lemma_scan_is_order_free(a: Seq<LabelListing>, b: Seq<LabelListing>)
    requires
        same_tree_listing(a, b),
    ensures
        tree_emails(a) == tree_emails(b),
{
    lemma_sorted_selection_order_free(label_names(a), label_names(b), |s: Seq<char>| !text::is_hidden(s));
    let order = visible_order(label_names(a));
    lemma_walk_labels_order_free(a, b, order, Set::empty(), order.len());
}


/// Whether no two emails share a key.
pub open spec fn keys_distinct(out: Seq<EmailRecord>) -> bool {
    forall|i: int, j: int| 0 <= i < j < out.len() ==> #[trigger] out[i].uid != #[trigger] out[j].uid
}

/// What a walk keeps true: the emails emitted have distinct keys, none of them taken
/// before the walk, and the keys taken afterwards are those plus the emitted ones.
pub open spec fn fresh_keys(out: Seq<EmailRecord>, taken: Set<Seq<char>>, seen: Set<Seq<char>>) -> bool {
    &&& keys_distinct(out)
    &&& forall|i: int| 0 <= i < out.len() ==> !seen.contains(#[trigger] out[i].uid)
    &&& forall|k: Seq<char>| #[trigger] taken.contains(k) <==> (seen.contains(k) || exists|i: int| 0 <= i < out.len() && #[trigger] out[i].uid == k)
}

proof fn lemma_fresh_keys_compose(
    out: Seq<EmailRecord>,
    more: Seq<EmailRecord>,
    seen: Set<Seq<char>>,
    mid: Set<Seq<char>>,
    after: Set<Seq<char>>,
)
    requires
        fresh_keys(out, mid, seen),
        fresh_keys(more, after, mid),
    ensures
        fresh_keys(out + more, after, seen),
{
    let all = out + more;
    assert forall|i: int| 0 <= i < more.len() implies !seen.contains(#[trigger] more[i].uid) by {
        assert(!mid.contains(more[i].uid));
    }
    assert forall|i: int, j: int| 0 <= i < j < all.len() implies #[trigger] all[i].uid != #[trigger] all[j].uid by {
        if j < out.len() {
            assert(all[i] == out[i] && all[j] == out[j]);
        } else if i >= out.len() {
            assert(all[i] == more[i - out.len()] && all[j] == more[j - out.len()]);
        } else {
            assert(all[i] == out[i] && all[j] == more[j - out.len()]);
            assert(mid.contains(out[i].uid));
            assert(!mid.contains(more[j - out.len()].uid));
        }
    }
    assert forall|i: int| 0 <= i < all.len() implies !seen.contains(#[trigger] all[i].uid) by {
        if i < out.len() {
            assert(all[i] == out[i]);
        } else {
            assert(all[i] == more[i - out.len()]);
        }
    }
    assert forall|k: Seq<char>| #[trigger] after.contains(k) <==> (seen.contains(k) || exists|i: int| 0 <= i < all.len() && #[trigger] all[i].uid == k) by {
        if exists|i: int| 0 <= i < all.len() && #[trigger] all[i].uid == k {
            let i = choose|i: int| 0 <= i < all.len() && #[trigger] all[i].uid == k;
            if i < out.len() {
                assert(out[i] == all[i]);
                assert(mid.contains(k));
            } else {
                assert(more[i - out.len()] == all[i]);
            }
        }
        if mid.contains(k) && !seen.contains(k) {
            let i = choose|i: int| 0 <= i < out.len() && #[trigger] out[i].uid == k;
            assert(all[i] == out[i]);
        }
        if exists|i: int| 0 <= i < more.len() && #[trigger] more[i].uid == k {
            let i = choose|i: int| 0 <= i < more.len() && #[trigger] more[i].uid == k;
            assert(all[i + out.len()] == more[i]);
        }
    }
}

proof fn lemma_dir_keys_fresh(label: Seq<char>, d: DirListing, seen: Set<Seq<char>>)
    ensures
        fresh_keys(dir_emails(label, d, seen).0, dir_emails(label, d, seen).1, seen),
{
    let entries = text::views(d.entries@);
    let html = sorted_selection(entries, |s: Seq<char>| crate::scan::is_html_name(s));
    let txt = sorted_selection(entries, |s: Seq<char>| crate::scan::is_txt_name(s));
    let plans = dir_plans(html, txt, d.sidecars@, d.name@);
    lemma_assigned_keys_are_fresh(label, d.name@, plans, d.sidecars@, seen, plans.len());
}

proof fn lemma_walk_dirs_keys_fresh(label: Seq<char>, dirs: Seq<DirListing>, order: Seq<Seq<char>>, seen: Set<Seq<char>>, n: nat)
    ensures
        fresh_keys(walk_dirs(label, dirs, order, seen, n).0, walk_dirs(label, dirs, order, seen, n).1, seen),
    decreases n,
{
    if n == 0 || n > order.len() {
        assert(fresh_keys(seq![], seen, seen));
    } else {
        lemma_walk_dirs_keys_fresh(label, dirs, order, seen, (n - 1) as nat);
        let (out, taken) = walk_dirs(label, dirs, order, seen, (n - 1) as nat);
        match find_dir(dirs, order[n - 1], 0) {
            Some(k) => {
                let (more, after) = dir_emails(label, dirs[k], taken);
                lemma_dir_keys_fresh(label, dirs[k], taken);
                lemma_fresh_keys_compose(out, more, seen, taken, after);
            },
            None => {},
        }
    }
}

proof fn lemma_walk_labels_keys_fresh(labels: Seq<LabelListing>, order: Seq<Seq<char>>, seen: Set<Seq<char>>, n: nat)
    ensures
        fresh_keys(walk_labels(labels, order, seen, n).0, walk_labels(labels, order, seen, n).1, seen),
    decreases n,
{
    if n == 0 || n > order.len() {
        assert(fresh_keys(seq![], seen, seen));
    } else {
        lemma_walk_labels_keys_fresh(labels, order, seen, (n - 1) as nat);
        let (out, taken) = walk_labels(labels, order, seen, (n - 1) as nat);
        match find_label(labels, order[n - 1], 0) {
            Some(k) => {
                let dirs = labels[k].dirs@;
                let dorder = visible_order(dir_names(dirs));
                let (more, after) = walk_dirs(order[n - 1], dirs, dorder, taken, dorder.len());
                lemma_walk_dirs_keys_fresh(order[n - 1], dirs, dorder, taken, dorder.len());
                lemma_fresh_keys_compose(out, more, seen, taken, after);
            },
            None => {},
        }
    }
}

/// No two emails of a scan share a key, across all labels and directories: a key
/// that is taken sends an email to its location key, and an email is dropped only
/// when that is taken too. Nothing is ever overwritten.
pub proof fn lemma_scan_keys_are_unique(labels: Seq<LabelListing>)
    ensures
        keys_distinct(tree_emails(labels)),
{
    let order = visible_order(label_names(labels));
    lemma_walk_labels_keys_fresh(labels, order, Set::empty(), order.len());
}

/// State follows the files: an email whose key no stored row has (its key changed,
/// say because its sidecar gained an `id:` field) gets back the state stored at its
/// location, when locations are unique among the stored rows (as the identity index
/// makes them).
pub proof fn lemma_state_follows_location(rows: Seq<StoredState>, i: int, uid: Seq<char>)
    requires
        0 <= i < rows.len(),
        forall|a: int, b: int|
            0 <= a < b < rows.len() ==> (#[trigger] rows[a].label@, rows[a].dir_name@, rows[a].body_filename@) != (
                #[trigger] rows[b].label@,
                rows[b].dir_name@,
                rows[b].body_filename@,
            ),
        forall|a: int| 0 <= a < rows.len() ==> #[trigger] rows[a].uid@ != uid,
    ensures
        restored(
            uid_model(rows, rows.len()),
            location_model(rows, rows.len()),
            uid,
            (rows[i].label@, rows[i].dir_name@, rows[i].body_filename@),
        ) == (rows[i].is_read, rows[i].is_bookmarked),
{
    lemma_uid_model_keys(rows, rows.len(), uid);
    lemma_location_model_value(rows, rows.len(), i);
}

proof fn lemma_location_model_value(rows: Seq<StoredState>, n: nat, i: int)
    requires
        0 <= i < n <= rows.len(),
        forall|a: int, b: int|
            0 <= a < b < rows.len() ==> (#[trigger] rows[a].label@, rows[a].dir_name@, rows[a].body_filename@) != (
                #[trigger] rows[b].label@,
                rows[b].dir_name@,
                rows[b].body_filename@,
            ),
    ensures
        ({
            let t = (rows[i].label@, rows[i].dir_name@, rows[i].body_filename@);
            location_model(rows, n).contains_key(t) && location_model(rows, n)[t] == (rows[i].is_read, rows[i].is_bookmarked)
        }),
    decreases n,
{
    if i < n - 1 {
        lemma_location_model_value(rows, (n - 1) as nat, i);
        assert((rows[i].label@, rows[i].dir_name@, rows[i].body_filename@) != (
            rows[n - 1].label@,
            rows[n - 1].dir_name@,
            rows[n - 1].body_filename@,
        ));
    }
}


/// Sibling bodies of one directory never fall back to the same message ID: when
/// neither takes its ID from a sidecar's `id:` field and the directory holds several
/// bodies of their kind, different stems give different IDs (a stem that looks like
/// an ID is hex only, and the other fallback, `<dir>-<stem>`, holds a `-`).
pub proof fn lemma_sibling_ids_are_distinct(
    s1: Seq<char>,
    s2: Seq<char>,
    md1: Option<int>,
    md2: Option<int>,
    mds: Seq<MdMeta>,
    dir: Seq<char>,
    siblings: int,
)
    requires
        siblings >= 2,
        s1 != s2,
        md1 matches Some(i) ==> crate::scan::fm_id_text(mds[i]) is None,
        md2 matches Some(i) ==> crate::scan::fm_id_text(mds[i]) is None,
    ensures
        crate::scan::resolve_id(s1, md1, mds, dir, siblings) != crate::scan::resolve_id(s2, md2, mds, dir, siblings),
{
    let id1 = crate::scan::resolve_id(s1, md1, mds, dir, siblings);
    let id2 = crate::scan::resolve_id(s2, md2, mds, dir, siblings);
    let h1 = crate::scan::is_message_id(s1);
    let h2 = crate::scan::is_message_id(s2);
    if !h1 && !h2 {
        if id1 == id2 {
            assert(s1 =~= id1.skip(dir.len() as int + 1));
            assert(s2 =~= id2.skip(dir.len() as int + 1));
        }
    } else if h1 && !h2 {
        assert(id2[dir.len() as int] == '-');
        if id1 == id2 {
            assert(crate::scan::is_hex(s1[dir.len() as int]));
        }
    } else if !h1 && h2 {
        assert(id1[dir.len() as int] == '-');
        if id1 == id2 {
            assert(crate::scan::is_hex(s2[dir.len() as int]));
        }
    }
}


/// The stored rows of label `l`, in their order.
pub open spec fn label_rows(rows: Seq<StoredState>, l: Seq<char>) -> Seq<StoredState>
    decreases rows.len(),
{
    if rows.len() == 0 {
        seq![]
    } else if rows.last().label@ == l {
        label_rows(rows.drop_last(), l).push(rows.last())
    } else {
        label_rows(rows.drop_last(), l)
    }
}

/// Whether every stored row's label is one path component and its key is scoped by it.
pub open spec fn rows_label_scoped(rows: Seq<StoredState>) -> bool {
    &&& forall|i: int| 0 <= i < rows.len() ==> slash_free(#[trigger] rows[i].label@)
    &&& forall|i: int| 0 <= i < rows.len() ==> key_has_label(#[trigger] rows[i].uid@, rows[i].label@)
}

proof fn lemma_models_of_prefix(rows: Seq<StoredState>, m: nat, n: nat)
    requires
        n <= m <= rows.len(),
    ensures
        uid_model(rows, n) == uid_model(rows.take(m as int), n),
        location_model(rows, n) == location_model(rows.take(m as int), n),
    decreases n,
{
    if n > 0 {
        lemma_models_of_prefix(rows, m, (n - 1) as nat);
        assert(rows.take(m as int)[n - 1] == rows[n - 1]);
    }
}

proof fn lemma_models_drop_last(rows: Seq<StoredState>)
    requires
        rows.len() > 0,
    ensures
        uid_model(rows, rows.len()) == uid_model(rows.drop_last(), rows.drop_last().len()).insert(
            rows.last().uid@,
            (rows.last().is_read, rows.last().is_bookmarked),
        ),
        location_model(rows, rows.len()) == location_model(rows.drop_last(), rows.drop_last().len()).insert(
            (rows.last().label@, rows.last().dir_name@, rows.last().body_filename@),
            (rows.last().is_read, rows.last().is_bookmarked),
        ),
{
    let n = (rows.len() - 1) as nat;
    lemma_models_of_prefix(rows, n, n);
    assert(rows.take(n as int) =~= rows.drop_last());
}

proof fn lemma_label_rows_models(rows: Seq<StoredState>, l: Seq<char>, k: Seq<char>, t: (Seq<char>, Seq<char>, Seq<char>))
    requires
        rows_label_scoped(rows),
        slash_free(l),
        key_has_label(k, l),
        t.0 == l,
    ensures
        ({
            let u1 = uid_model(rows, rows.len());
            let u2 = uid_model(label_rows(rows, l), label_rows(rows, l).len());
            &&& u1.contains_key(k) == u2.contains_key(k)
            &&& u1.contains_key(k) ==> u1[k] == u2[k]
        }),
        ({
            let m1 = location_model(rows, rows.len());
            let m2 = location_model(label_rows(rows, l), label_rows(rows, l).len());
            &&& m1.contains_key(t) == m2.contains_key(t)
            &&& m1.contains_key(t) ==> m1[t] == m2[t]
        }),
    decreases rows.len(),
{
    if rows.len() > 0 {
        let p = rows.drop_last();
        let r = rows.last();
        assert(rows_label_scoped(p)) by {
            assert forall|i: int| 0 <= i < p.len() implies slash_free(#[trigger] p[i].label@) by {
                assert(p[i] == rows[i]);
            }
            assert forall|i: int| 0 <= i < p.len() implies key_has_label(#[trigger] p[i].uid@, p[i].label@) by {
                assert(p[i] == rows[i]);
            }
        }
        lemma_label_rows_models(p, l, k, t);
        lemma_models_drop_last(rows);
        assert(slash_free(rows[rows.len() - 1].label@));
        assert(key_has_label(rows[rows.len() - 1].uid@, rows[rows.len() - 1].label@));
        if r.label@ == l {
            let f = label_rows(rows, l);
            assert(f == label_rows(p, l).push(r));
            lemma_models_drop_last(f);
            assert(f.drop_last() =~= label_rows(p, l));
        } else {
            if r.uid@ == k {
                lemma_label_scoped_keys_are_distinct(k, r.label@, l);
            }
        }
    }
}

/// Restored state never crosses labels: what an email of label `l` gets back depends
/// only on the stored rows of label `l`, when every label is one path component and
/// every stored key is scoped by its row's label, as keys are made. Rows of other
/// labels can be added, removed or changed without changing it.
pub proof fn lemma_restored_state_depends_only_on_own_label(
    rows: Seq<StoredState>,
    l: Seq<char>,
    message_id: Seq<char>,
    dir: Seq<char>,
    file: Seq<char>,
)
    requires
        rows_label_scoped(rows),
        slash_free(l),
    ensures
        restored(uid_model(rows, rows.len()), location_model(rows, rows.len()), uid_spec(l, message_id), (l, dir, file))
            == restored(
            uid_model(label_rows(rows, l), label_rows(rows, l).len()),
            location_model(label_rows(rows, l), label_rows(rows, l).len()),
            uid_spec(l, message_id),
            (l, dir, file),
        ),
{
    lemma_keys_carry_label(l, message_id, dir, file);
    lemma_label_rows_models(rows, l, uid_spec(l, message_id), (l, dir, file));
}

/// Two stored states that agree on the rows of label `l` restore the same state to
/// every email of label `l`.
pub proof fn lemma_other_labels_do_not_change_restored_state(
    rows1: Seq<StoredState>,
    rows2: Seq<StoredState>,
    l: Seq<char>,
    message_id: Seq<char>,
    dir: Seq<char>,
    file: Seq<char>,
)
    requires
        rows_label_scoped(rows1),
        rows_label_scoped(rows2),
        slash_free(l),
        label_rows(rows1, l) == label_rows(rows2, l),
    ensures
        restored(uid_model(rows1, rows1.len()), location_model(rows1, rows1.len()), uid_spec(l, message_id), (l, dir, file))
            == restored(
            uid_model(rows2, rows2.len()),
            location_model(rows2, rows2.len()),
            uid_spec(l, message_id),
            (l, dir, file),
        ),
{
    lemma_restored_state_depends_only_on_own_label(rows1, l, message_id, dir, file);
    lemma_restored_state_depends_only_on_own_label(rows2, l, message_id, dir, file);
}


proof fn lemma_trim_start_head(s: Seq<char>)
    ensures
        text::trim_start(s).len() == 0 || !text::is_white(text::trim_start(s)[0]),
    decreases s.len(),
{
    if s.len() > 0 && text::is_white(s[0]) {
        lemma_trim_start_head(s.drop_first());
    }
}

proof fn lemma_trim_end_shape(s: Seq<char>)
    ensures
        text::trim_end(s).len() <= s.len(),
        text::trim_end(s) == s.take(text::trim_end(s).len() as int),
        text::trim_end(s).len() == 0 || !text::is_white(text::trim_end(s).last()),
    decreases s.len(),
{
    if s.len() > 0 && text::is_white(s.last()) {
        lemma_trim_end_shape(s.drop_last());
        let r = text::trim_end(s.drop_last());
        assert(s.drop_last().take(r.len() as int) =~= s.take(r.len() as int));
    } else {
        assert(s.take(s.len() as int) =~= s);
    }
}

/// A text that neither starts nor ends with white space is its own trim.
proof fn lemma_trim_fixed(u: Seq<char>)
    requires
        u.len() > 0,
        !text::is_white(u[0]),
        !text::is_white(u.last()),
    ensures
        text::trim(u) == u,
{
    assert(text::trim_start(u) == u);
    assert(text::trim_end(u) == u);
}

proof fn lemma_trim_idempotent(s: Seq<char>)
    ensures
        text::trim(text::trim(s)) == text::trim(s),
{
    let v = text::trim_start(s);
    let u = text::trim(s);
    lemma_trim_start_head(s);
    lemma_trim_end_shape(v);
    if u.len() == 0 {
        assert(text::trim_start(u) == u);
        assert(text::trim_end(u) == u);
    } else {
        assert(u[0] == v[0]);
        lemma_trim_fixed(u);
    }
}

/// Whether a word is non-empty and holds neither white space nor special characters.
pub open spec fn plain_word(w: Seq<char>) -> bool {
    &&& w.len() > 0
    &&& forall|i: int| 0 <= i < w.len() ==> !text::is_white(#[trigger] w[i]) && !is_special(w[i])
}

proof fn lemma_scan_words_append(x: Seq<char>, w: Seq<char>)
    requires
        forall|i: int| 0 <= i < w.len() ==> !text::is_white(#[trigger] w[i]),
    ensures
        crate::search::scan_words(x + w) == (crate::search::scan_words(x).0, crate::search::scan_words(x).1 + w),
    decreases w.len(),
{
    if w.len() == 0 {
        assert(x + w =~= x);
        assert(crate::search::scan_words(x).1 + w =~= crate::search::scan_words(x).1);
    } else {
        lemma_scan_words_append(x, w.drop_last());
        assert((x + w).drop_last() =~= x + w.drop_last());
        assert((x + w).last() == w[w.len() - 1]);
        assert((crate::search::scan_words(x).1 + w.drop_last()).push(w.last()) =~= crate::search::scan_words(x).1 + w);
    }
}

proof fn lemma_join_head(ws: Seq<Seq<char>>)
    requires
        ws.len() > 0,
        forall|k: int| 0 <= k < ws.len() ==> plain_word(#[trigger] ws[k]),
    ensures
        join_spaced(ws).len() > 0,
        join_spaced(ws)[0] == ws[0][0],
    decreases ws.len(),
{
    if ws.len() > 1 {
        lemma_join_head(ws.drop_last());
        assert(ws.drop_last()[0] == ws[0]);
    }
}

proof fn lemma_scan_join(ws: Seq<Seq<char>>)
    requires
        ws.len() > 0,
        forall|k: int| 0 <= k < ws.len() ==> plain_word(#[trigger] ws[k]),
    ensures
        crate::search::scan_words(join_spaced(ws)) == (ws.drop_last(), ws.last()),
    decreases ws.len(),
{
    let last = ws.last();
    assert(plain_word(ws[ws.len() - 1]));
    if ws.len() == 1 {
        lemma_scan_words_append(seq![], last);
        assert(Seq::<char>::empty() + last =~= last);
        assert(Seq::<char>::empty() + last =~= join_spaced(ws));
        assert(Seq::<char>::empty() + last =~= crate::search::scan_words(seq![]).1 + last);
        assert(ws.drop_last() =~= Seq::<Seq<char>>::empty());
    } else {
        let p = ws.drop_last();
        assert forall|k: int| 0 <= k < p.len() implies plain_word(#[trigger] p[k]) by {
            assert(p[k] == ws[k]);
        }
        lemma_scan_join(p);
        let jp = join_spaced(p);
        assert(plain_word(p[p.len() - 1]));
        assert((jp + seq![' ']).drop_last() =~= jp);
        assert(crate::search::scan_words(jp + seq![' ']) == (p.drop_last().push(p.last()), Seq::<char>::empty()));
        assert(p.drop_last().push(p.last()) =~= p);
        lemma_scan_words_append(jp + seq![' '], last);
        assert(Seq::<char>::empty() + last =~= last);
    }
}

proof fn lemma_strip_special_keeps_plain(w: Seq<char>)
    requires
        forall|i: int| 0 <= i < w.len() ==> !is_special(#[trigger] w[i]),
    ensures
        strip_special(w) == w,
    decreases w.len(),
{
    if w.len() > 0 {
        lemma_strip_special_keeps_plain(w.drop_last());
        assert(!is_special(w[w.len() - 1]));
        assert(w.drop_last().push(w.last()) =~= w);
    }
}

proof fn lemma_strip_special_no_white(w: Seq<char>)
    requires
        forall|i: int| 0 <= i < w.len() ==> !text::is_white(#[trigger] w[i]),
    ensures
        forall|i: int| 0 <= i < strip_special(w).len() ==> !text::is_white(#[trigger] strip_special(w)[i]),
    decreases w.len(),
{
    if w.len() > 0 {
        lemma_strip_special_no_white(w.drop_last());
        let a = strip_special(w.drop_last());
        assert(!text::is_white(w[w.len() - 1]));
        if !is_special(w.last()) {
            assert forall|i: int| 0 <= i < strip_special(w).len() implies !text::is_white(#[trigger] strip_special(w)[i]) by {
                if i < a.len() {
                    assert(strip_special(w)[i] == a[i]);
                }
            }
        }
    }
}

proof fn lemma_scan_words_no_white(s: Seq<char>)
    ensures
        forall|k: int, i: int|
            0 <= k < crate::search::scan_words(s).0.len() && 0 <= i < crate::search::scan_words(s).0[k].len()
                ==> !text::is_white(#[trigger] crate::search::scan_words(s).0[k][i]),
        forall|i: int| 0 <= i < crate::search::scan_words(s).1.len() ==> !text::is_white(#[trigger] crate::search::scan_words(s).1[i]),
    decreases s.len(),
{
    if s.len() > 0 {
        lemma_scan_words_no_white(s.drop_last());
        let (d, c) = crate::search::scan_words(s.drop_last());
        let (d2, c2) = crate::search::scan_words(s);
        assert forall|k: int, i: int| 0 <= k < d2.len() && 0 <= i < d2[k].len() implies !text::is_white(#[trigger] d2[k][i]) by {
            if k < d.len() {
                assert(d2[k] == d[k]);
            } else {
                assert(d2[k] == c);
            }
        }
        assert forall|i: int| 0 <= i < c2.len() implies !text::is_white(#[trigger] c2[i]) by {
            if i < c.len() {
                assert(c2[i] == c[i]);
            }
        }
    }
}

proof fn lemma_select_keeps(ws: Seq<Seq<char>>, p: spec_fn(Seq<char>) -> bool, q: spec_fn(Seq<char>) -> bool)
    requires
        forall|k: int| 0 <= k < ws.len() ==> q(#[trigger] ws[k]),
    ensures
        forall|k: int| 0 <= k < text::select(ws, p).len() ==> q(#[trigger] text::select(ws, p)[k]) && p(text::select(ws, p)[k]),
    decreases ws.len(),
{
    if ws.len() > 0 {
        let d = ws.drop_last();
        assert forall|k: int| 0 <= k < d.len() implies q(#[trigger] d[k]) by {
            assert(d[k] == ws[k]);
        }
        lemma_select_keeps(d, p, q);
        assert(q(ws[ws.len() - 1]));
        let r = text::select(d, p);
        assert forall|k: int| 0 <= k < text::select(ws, p).len() implies q(#[trigger] text::select(ws, p)[k]) && p(text::select(ws, p)[k]) by {
            if k < r.len() {
                assert(text::select(ws, p)[k] == r[k]);
            }
        }
    }
}

proof fn lemma_select_all(ws: Seq<Seq<char>>, p: spec_fn(Seq<char>) -> bool)
    requires
        forall|k: int| 0 <= k < ws.len() ==> p(#[trigger] ws[k]),
    ensures
        text::select(ws, p) == ws,
    decreases ws.len(),
{
    if ws.len() > 0 {
        let d = ws.drop_last();
        assert forall|k: int| 0 <= k < d.len() implies p(#[trigger] d[k]) by {
            assert(d[k] == ws[k]);
        }
        lemma_select_all(d, p);
        assert(p(ws[ws.len() - 1]));
        assert(d.push(ws.last()) =~= ws);
    }
}

/// The cleaned words of a text are plain words.
proof fn lemma_clean_words_plain(t: Seq<char>)
    ensures
        forall|k: int| 0 <= k < clean_words(t).len() ==> plain_word(#[trigger] clean_words(t)[k]),
{
    let ws = crate::search::words(t);
    let (d, c) = crate::search::scan_words(t);
    lemma_scan_words_no_white(t);
    let m = ws.map_values(|w: Seq<char>| strip_special(w));
    let q = |w: Seq<char>| forall|i: int| 0 <= i < w.len() ==> !text::is_white(#[trigger] w[i]) && !is_special(w[i]);
    assert forall|k: int| 0 <= k < m.len() implies q(#[trigger] m[k]) by {
        let w = ws[k];
        assert forall|i: int| 0 <= i < w.len() implies !text::is_white(#[trigger] w[i]) by {
            if k < d.len() {
                assert(w == d[k]);
            } else {
                assert(w == c);
            }
        }
        lemma_strip_special_no_white(w);
        lemma_strip_special_is_plain(w);
        assert(m[k] == strip_special(w));
    }
    let p = |w: Seq<char>| w.len() > 0;
    lemma_select_keeps(m, p, q);
}

/// Cleaning a query twice changes nothing: a sanitised query, passed-through ones
/// included, sanitises to itself.
pub proof fn lemma_query_cleaning_is_idempotent(input: Seq<char>)
    ensures
        fts_query(fts_query(input)) == fts_query(input),
{
    let t = text::trim(input);
    lemma_trim_idempotent(input);
    let empty = Seq::<char>::empty();
    assert(text::trim_start(empty) == empty);
    assert(text::trim_end(empty) == empty);
    if t.len() == 0 || (!is_advanced(t) && clean_words(t).len() == 0) {
        assert(fts_query(input) == empty);
    } else if is_advanced(t) {
        assert(fts_query(input) == t);
    } else {
        let cw = clean_words(t);
        let j = join_spaced(cw);
        let q = j + seq!['*'];
        assert(fts_query(input) == q);
        lemma_clean_words_plain(t);
        lemma_join_head(cw);
        assert(q[0] == j[0]);
        assert(plain_word(cw[0]));
        lemma_trim_fixed(q);
        if !is_advanced(q) {
            lemma_scan_join(cw);
            lemma_scan_words_append(j, seq!['*']);
            let last = cw.last();
            assert(plain_word(cw[cw.len() - 1]));
            let ws = crate::search::words(q);
            assert(ws == cw.drop_last().push(last + seq!['*']));
            let m = ws.map_values(|w: Seq<char>| strip_special(w));
            assert((last + seq!['*']).drop_last() =~= last);
            lemma_strip_special_keeps_plain(last);
            assert forall|k: int| 0 <= k < cw.len() implies #[trigger] m[k] == cw[k] by {
                assert(plain_word(cw[k]));
                if k < cw.len() - 1 {
                    assert(ws[k] == cw[k]);
                    lemma_strip_special_keeps_plain(cw[k]);
                } else {
                    assert(ws[k] == last + seq!['*']);
                }
            }
            assert(m =~= cw);
            lemma_select_all(cw, |w: Seq<char>| w.len() > 0);
            assert(clean_words(q) == cw);
        }
    }
}


/// A string is taken for a Gmail message ID exactly when it has at least 8
/// characters and every one is an ASCII hex digit `0`-`9`, `a`-`f` or `A`-`F`: a
/// generic body name such as `newsletter` or `email` never is.
pub proof fn lemma_message_id_is_eight_hex_digits(s: Seq<char>)
    ensures
        crate::scan::is_message_id(s) == (s.len() >= 8 && forall|i: int|
            0 <= i < s.len() ==> ('0' <= #[trigger] s[i] && s[i] <= '9') || ('a' <= s[i] && s[i] <= 'f')
                || ('A' <= s[i] && s[i] <= 'F')),
{
    if crate::scan::is_message_id(s) {
        assert forall|i: int| 0 <= i < s.len() implies ('0' <= #[trigger] s[i] && s[i] <= '9') || ('a' <= s[i]
            && s[i] <= 'f') || ('A' <= s[i] && s[i] <= 'F') by {
            assert(crate::scan::is_hex(s[i]));
        }
    }
    if s.len() >= 8 && forall|i: int|
        0 <= i < s.len() ==> ('0' <= #[trigger] s[i] && s[i] <= '9') || ('a' <= s[i] && s[i] <= 'f') || ('A'
            <= s[i] && s[i] <= 'F') {
        assert forall|i: int| 0 <= i < s.len() implies #[trigger] crate::scan::is_hex(s[i]) by {
            assert(('0' <= s[i] && s[i] <= '9') || ('a' <= s[i] && s[i] <= 'f') || ('A' <= s[i] && s[i] <= 'F'));
        }
    }
}


/// The metadata read from a sidecar carries the front matter's `from` field as the
/// email's sender and its `subject` as the subject, and remembers the sidecar's path
/// and file name. Its `id:` is kept trimmed (and dropped when blank), its date is
/// kept trimmed (and dropped when blank), and its searchable body is the longest
/// start of the body that fits in 2000 bytes of UTF-8: all of it when it fits.
pub proof fn lemma_sidecar_metadata_follows_front_matter(
    m: MdMeta,
    path: Seq<char>,
    filename: Seq<char>,
    fm: crate::frontmatter::Frontmatter,
    body: Seq<char>,
)
    requires
        crate::scan::meta_matches(m, path, filename, fm, body),
    ensures
        m.from_addr@ == fm.from@,
        m.subject@ == fm.subject@,
        m.path@ == path,
        m.filename@ == filename,
        fm.id is None ==> m.fm_id is None,
        fm.id matches Some(id) ==> (text::trim(id@).len() == 0 ==> m.fm_id is None) && (text::trim(id@).len()
            > 0 ==> m.fm_id is Some && m.fm_id->0@ == text::trim(id@)),
        fm.date is None ==> m.date is None,
        fm.date matches Some(d) ==> (text::trim(d@).len() == 0 ==> m.date is None) && (text::trim(d@).len() > 0
            ==> m.date is Some && m.date->0@ == text::trim(d@)),
        m.body_text@.len() <= body.len(),
        m.body_text@ == body.take(m.body_text@.len() as int),
        vstd::utf8::encode_utf8(m.body_text@).len() <= 2000,
        vstd::utf8::encode_utf8(body).len() <= 2000 ==> m.body_text@ == body,
        m.body_text@.len() < body.len() ==> vstd::utf8::encode_utf8(body.take(m.body_text@.len() as int + 1)).len() > 2000,
{
    lemma_truncated_body_fits(body, m.body_text@);
}

/// An email matched to a sidecar shows that sidecar's sender and subject, and one
/// matched to none shows an empty sender and subject.
pub proof fn lemma_email_shows_its_sidecars_sender(
    label: Seq<char>,
    dir: Seq<char>,
    b: BodyPlan,
    mds: Seq<MdMeta>,
    uid: Seq<char>,
)
    ensures
        ({
            let e = crate::scan::record_for(label, dir, b, mds, uid);
            &&& e.uid == uid
            &&& e.label == label
            &&& e.dir_name == dir
            &&& e.body_filename == b.filename
            &&& e.message_id == b.message_id
            &&& (b.md matches Some(k) ==> e.from_addr == mds[k].from_addr@ && e.subject == mds[k].subject@)
            &&& (b.md is None ==> e.from_addr.len() == 0 && e.subject.len() == 0)
        }),
{
}

/// A query built from plain words holds, apart from the final `*` of its prefix
/// match, none of the characters with a meaning in FTS5 syntax:
/// `(` `)` `{` `}` `[` `]` `^` `~` `*` `:` `"` `-`.
pub proof fn lemma_plain_query_has_no_fts_syntax(input: Seq<char>)
    requires
        !is_advanced(text::trim(input)),
        fts_query(input).len() > 0,
    ensures
        fts_query(input).last() == '*',
        forall|i: int|
            0 <= i < fts_query(input).len() - 1 ==> {
                let c = #[trigger] fts_query(input)[i];
                c != '(' && c != ')' && c != '{' && c != '}' && c != '[' && c != ']' && c != '^' && c != '~'
                    && c != '*' && c != ':' && c != '"' && c != '-'
            },
{
    lemma_plain_query_has_no_operators(input);
}

proof fn lemma_find_by_fm_id_hit(mds: Seq<MdMeta>, st: Seq<char>, i: int)
    ensures
        crate::scan::find_by_fm_id(mds, st, i) matches Some(k) ==> 0 <= k < mds.len()
            && crate::scan::opt_text(mds[k].fm_id) == Some(st),
    decreases mds.len() - i,
{
    if 0 <= i < mds.len() {
        lemma_find_by_fm_id_hit(mds, st, i + 1);
    }
}

proof fn lemma_find_by_filename_hit(mds: Seq<MdMeta>, st: Seq<char>, i: int)
    ensures
        crate::scan::find_by_filename(mds, st, i) matches Some(k) ==> 0 <= k < mds.len()
            && text::contains_seq(mds[k].filename@, st),
    decreases mds.len() - i,
{
    if 0 <= i < mds.len() {
        lemma_find_by_filename_hit(mds, st, i + 1);
    }
}

/// In a directory that has an HTML body, a promoted `.txt` body is matched to a
/// sidecar only by that sidecar's `id:` (equal to the text file's stem) or by its
/// file name (which embeds the stem, when the stem is a message ID), never just
/// because the directory holds one sidecar: that sidecar belongs to the HTML body.
pub proof fn lemma_text_beside_html_matches_only_by_name(
    html: Seq<Seq<char>>,
    txt: Seq<Seq<char>>,
    mds: Seq<MdMeta>,
    dir: Seq<char>,
    i: int,
)
    requires
        html.len() > 0,
        html.len() <= i < dir_plans(html, txt, mds, dir).len(),
    ensures
        ({
            let p = dir_plans(html, txt, mds, dir)[i];
            let st = stem(p.filename);
            &&& p.format == crate::scan::BodyFormat::Text
            &&& (p.md matches Some(k) ==> 0 <= k < mds.len() && (crate::scan::opt_text(mds[k].fm_id) == Some(st)
                || (crate::scan::is_message_id(st) && text::contains_seq(mds[k].filename@, st))))
        }),
{
    let hp = html_plans(html, mds, dir);
    let tp = crate::scan::text_plans(html, txt, mds, dir);
    let c = text_candidates(html, txt, mds, dir);
    let j = i - html.len();
    assert(dir_plans(html, txt, mds, dir)[i] == tp[j]);
    let f = c[j];
    assert(tp[j] == crate::scan::plan_for(f, crate::scan::BodyFormat::Text, mds, false, dir, c.len() as int));
    let st = stem(f);
    lemma_find_by_fm_id_hit(mds, st, 0);
    lemma_find_by_filename_hit(mds, st, 0);
}

proof fn lemma_find_by_fm_id_complete(mds: Seq<MdMeta>, st: Seq<char>, i: int, k: int)
    requires
        0 <= i <= k < mds.len(),
        crate::scan::opt_text(mds[k].fm_id) == Some(st),
    ensures
        crate::scan::find_by_fm_id(mds, st, i) is Some,
    decreases k - i,
{
    if crate::scan::opt_text(mds[i].fm_id) != Some(st) {
        lemma_find_by_fm_id_complete(mds, st, i + 1, k);
    }
}

/// How an `.html` body finds its sidecar: a sidecar whose `id:` equals the body's
/// stem always wins; otherwise only a sidecar whose file name embeds the stem (when
/// the stem is a message ID), or, failing both, the one sidecar of a directory that
/// holds exactly one `.html` body and one sidecar.
pub proof fn lemma_html_sidecar_matching(html: Seq<Seq<char>>, txt: Seq<Seq<char>>, mds: Seq<MdMeta>, dir: Seq<char>, i: int)
    requires
        0 <= i < html.len(),
    ensures
        ({
            let p = dir_plans(html, txt, mds, dir)[i];
            let st = stem(html[i]);
            &&& p.filename == html[i]
            &&& p.format == crate::scan::BodyFormat::Html
            &&& ((exists|k: int| 0 <= k < mds.len() && crate::scan::opt_text(mds[k].fm_id) == Some(st)) ==> (p.md matches Some(k)
                && crate::scan::opt_text(mds[k].fm_id) == Some(st)))
            &&& (p.md matches Some(k) ==> 0 <= k < mds.len() && (crate::scan::opt_text(mds[k].fm_id) == Some(st)
                || (crate::scan::is_message_id(st) && text::contains_seq(mds[k].filename@, st)) || (html.len() == 1
                && mds.len() == 1 && k == 0)))
        }),
{
    let st = stem(html[i]);
    assert(dir_plans(html, txt, mds, dir)[i] == html_plans(html, mds, dir)[i]);
    lemma_find_by_fm_id_hit(mds, st, 0);
    lemma_find_by_filename_hit(mds, st, 0);
    if exists|k: int| 0 <= k < mds.len() && crate::scan::opt_text(mds[k].fm_id) == Some(st) {
        let k = choose|k: int| 0 <= k < mds.len() && crate::scan::opt_text(mds[k].fm_id) == Some(st);
        lemma_find_by_fm_id_complete(mds, st, 0, k);
    }
}

/// A promoted `.txt` body also prefers a sidecar whose `id:` equals its stem.
pub proof fn lemma_text_sidecar_prefers_id(html: Seq<Seq<char>>, txt: Seq<Seq<char>>, mds: Seq<MdMeta>, dir: Seq<char>, i: int)
    requires
        html.len() <= i < dir_plans(html, txt, mds, dir).len(),
    ensures
        ({
            let p = dir_plans(html, txt, mds, dir)[i];
            let st = stem(p.filename);
            (exists|k: int| 0 <= k < mds.len() && crate::scan::opt_text(mds[k].fm_id) == Some(st)) ==> (p.md matches Some(k)
                && crate::scan::opt_text(mds[k].fm_id) == Some(st))
        }),
{
    let tp = crate::scan::text_plans(html, txt, mds, dir);
    let j = i - html.len();
    assert(dir_plans(html, txt, mds, dir)[i] == tp[j]);
    let st = stem(tp[j].filename);
    lemma_find_by_fm_id_hit(mds, st, 0);
    if exists|k: int| 0 <= k < mds.len() && crate::scan::opt_text(mds[k].fm_id) == Some(st) {
        let k = choose|k: int| 0 <= k < mds.len() && crate::scan::opt_text(mds[k].fm_id) == Some(st);
        lemma_find_by_fm_id_complete(mds, st, 0, k);
    }
}

} // verus!
