//! Walking a newsletters tree: `<label>/<email dir>/<files>`. Labels, directories and
//! files are visited in sorted order at every level, hidden names are skipped, and
//! one set of taken keys is shared across the whole walk, so the result is the same
//! on every machine and every re-scan.
use vstd::prelude::*;
use vstd::hash_set::StringHashSet;
use crate::scan::{
    assign, classify_files, dir_plans, emails_in_dir, is_html_name, is_txt_name, records,
    EmailRecord, MdMeta, ParsedEmail,
};
use crate::text::visible_sorted;
use crate::text;

verus! {

/// One email directory as read from disk: its name, the names of its entries, and
/// the parsed `.md` sidecars among them (in sorted name order).
pub struct DirListing {
    pub name: String,
    pub entries: Vec<String>,
    pub sidecars: Vec<MdMeta>,
}

/// One label directory as read from disk.
pub struct LabelListing {
    pub name: String,
    pub dirs: Vec<DirListing>,
}

/// The names that `p` selects, in sorted order.
pub open spec fn sorted_selection(names: Seq<Seq<char>>, p: spec_fn(Seq<char>) -> bool) -> Seq<Seq<char>> {
    text::select(names, p).sort_by(text::text_le())
}

/// The names a walk visits, in the order it visits them.
pub open spec fn visible_order(names: Seq<Seq<char>>) -> Seq<Seq<char>> {
    sorted_selection(names, |s: Seq<char>| !text::is_hidden(s))
}

pub open spec fn dir_names(dirs: Seq<DirListing>) -> Seq<Seq<char>> {
    dirs.map_values(|d: DirListing| d.name@)
}

pub open spec fn label_names(labels: Seq<LabelListing>) -> Seq<Seq<char>> {
    labels.map_values(|l: LabelListing| l.name@)
}

/// First directory at or after `i` with this name.
pub open spec fn find_dir(dirs: Seq<DirListing>, name: Seq<char>, i: int) -> Option<int>
    decreases dirs.len() - i,
{
    if i < 0 || i >= dirs.len() {
        None
    } else if dirs[i].name@ == name {
        Some(i)
    } else {
        find_dir(dirs, name, i + 1)
    }
}

/// First label at or after `i` with this name.
pub open spec fn find_label(labels: Seq<LabelListing>, name: Seq<char>, i: int) -> Option<int>
    decreases labels.len() - i,
{
    if i < 0 || i >= labels.len() {
        None
    } else if labels[i].name@ == name {
        Some(i)
    } else {
        find_label(labels, name, i + 1)
    }
}

/// The emails one directory yields given the keys taken so far, and the keys taken
/// afterwards.
pub open spec fn dir_emails(label: Seq<char>, d: DirListing, seen: Set<Seq<char>>) -> (Seq<EmailRecord>, Set<Seq<char>>) {
    let entries = text::views(d.entries@);
    let html = sorted_selection(entries, |s: Seq<char>| is_html_name(s));
    let txt = sorted_selection(entries, |s: Seq<char>| is_txt_name(s));
    let plans = dir_plans(html, txt, d.sidecars@, d.name@);
    assign(label, d.name@, plans, d.sidecars@, seen, plans.len())
}

/// The walk of a label's first `n` directories in `order`.
pub open spec fn walk_dirs(label: Seq<char>, dirs: Seq<DirListing>, order: Seq<Seq<char>>, seen: Set<Seq<char>>, n: nat) -> (Seq<EmailRecord>, Set<Seq<char>>)
    decreases n,
{
    if n == 0 || n > order.len() {
        (seq![], seen)
    } else {
        let (out, taken) = walk_dirs(label, dirs, order, seen, (n - 1) as nat);
        match find_dir(dirs, order[n - 1], 0) {
            Some(k) => {
                let (more, after) = dir_emails(label, dirs[k], taken);
                (out + more, after)
            },
            None => (out, taken),
        }
    }
}

/// The walk of the first `n` labels in `order`.
pub open spec fn walk_labels(labels: Seq<LabelListing>, order: Seq<Seq<char>>, seen: Set<Seq<char>>, n: nat) -> (Seq<EmailRecord>, Set<Seq<char>>)
    decreases n,
{
    if n == 0 || n > order.len() {
        (seq![], seen)
    } else {
        let (out, taken) = walk_labels(labels, order, seen, (n - 1) as nat);
        match find_label(labels, order[n - 1], 0) {
            Some(k) => {
                let dirs = labels[k].dirs@;
                let dorder = visible_order(dir_names(dirs));
                let (more, after) = walk_dirs(order[n - 1], dirs, dorder, taken, dorder.len());
                (out + more, after)
            },
            None => (out, taken),
        }
    }
}

/// Every email of a newsletters tree, in walk order.
pub open spec fn tree_emails(labels: Seq<LabelListing>) -> Seq<EmailRecord> {
    let order = visible_order(label_names(labels));
    walk_labels(labels, order, Set::empty(), order.len()).0
}

/// The names that a walk visits, in walk order.
fn visit_order(names: &Vec<String>) -> (r: Vec<String>)
    ensures
        text::views(r@) == visible_order(text::views(names@)),
{
    let r = visible_sorted(names);
    proof {
        let p = |s: Seq<char>| !text::is_hidden(s);
        text::lemma_sorted_permutation_is_sort_by(text::views(r@), text::select(text::views(names@), p));
    }
    r
}

fn find_dir_exec(dirs: &Vec<DirListing>, name: &String) -> (r: Option<usize>)
    ensures
        crate::scan::opt_index(r) == find_dir(dirs@, name@, 0),
{
    let mut i: usize = 0;
    while i < dirs.len()
        invariant
            0 <= i <= dirs.len(),
            find_dir(dirs@, name@, 0) == find_dir(dirs@, name@, i as int),
        decreases dirs.len() - i,
    {
        if dirs[i].name == *name {
            return Some(i);
        }
        i = i + 1;
    }
    None
}

fn find_label_exec(labels: &Vec<LabelListing>, name: &String) -> (r: Option<usize>)
    ensures
        crate::scan::opt_index(r) == find_label(labels@, name@, 0),
{
    let mut i: usize = 0;
    while i < labels.len()
        invariant
            0 <= i <= labels.len(),
            find_label(labels@, name@, 0) == find_label(labels@, name@, i as int),
        decreases labels.len() - i,
    {
        if labels[i].name == *name {
            return Some(i);
        }
        i = i + 1;
    }
    None
}

proof fn lemma_find_dir_range(dirs: Seq<DirListing>, name: Seq<char>, i: int)
    ensures
        find_dir(dirs, name, i) matches Some(k) ==> 0 <= k < dirs.len() && dirs[k].name@ == name,
    decreases dirs.len() - i,
{
    if 0 <= i < dirs.len() {
        lemma_find_dir_range(dirs, name, i + 1);
    }
}

proof fn lemma_find_label_range(labels: Seq<LabelListing>, name: Seq<char>, i: int)
    ensures
        find_label(labels, name, i) matches Some(k) ==> 0 <= k < labels.len() && labels[k].name@ == name,
    decreases labels.len() - i,
{
    if 0 <= i < labels.len() {
        lemma_find_label_range(labels, name, i + 1);
    }
}

/// The emails of one directory, given the keys taken so far.
fn scan_listing_dir(label: &String, d: &DirListing, seen: &mut StringHashSet, out: &mut Vec<ParsedEmail>)
    ensures
        records(final(out)@) == records(old(out)@) + dir_emails(label@, *d, old(seen)@).0,
        final(seen)@ == dir_emails(label@, *d, old(seen)@).1,
{
    let files = classify_files(&d.entries);
    proof {
        let entries = text::views(d.entries@);
        let ph = |s: Seq<char>| is_html_name(s);
        let pt = |s: Seq<char>| is_txt_name(s);
        text::lemma_sorted_permutation_is_sort_by(text::views(files.html@), text::select(entries, ph));
        text::lemma_sorted_permutation_is_sort_by(text::views(files.txt@), text::select(entries, pt));
    }
    emails_in_dir(label.as_str(), d.name.as_str(), &files, &d.sidecars, seen, out);
}

/// Walks a newsletters tree and parses every email in it. Labels, directories and
/// files are visited in sorted order and hidden names skipped, so the result is the
/// same whatever order the file system listed them in; keys are unique across the
/// whole walk.
pub fn scan_tree(labels: &Vec<LabelListing>) -> (r: Vec<ParsedEmail>)
    ensures
        records(r@) == tree_emails(labels@),
{
    let mut names: Vec<String> = Vec::new();
    let mut a: usize = 0;
    while a < labels.len()
        invariant
            0 <= a <= labels.len(),
            text::views(names@) == label_names(labels@).take(a as int),
        decreases labels.len() - a,
    {
        names.push(labels[a].name.clone());
        assert(label_names(labels@).take(a + 1) =~= label_names(labels@).take(a as int).push(labels@[a as int].name@));
        a = a + 1;
    }
    assert(label_names(labels@).take(labels@.len() as int) =~= label_names(labels@));
    let order = visit_order(&names);
    let ghost lorder = visible_order(label_names(labels@));
    let mut seen = StringHashSet::new();
    let mut out: Vec<ParsedEmail> = Vec::new();
    let mut i: usize = 0;
    while i < order.len()
        invariant
            0 <= i <= order.len(),
            text::views(order@) == lorder,
            lorder == visible_order(label_names(labels@)),
            (records(out@), seen@) == walk_labels(labels@, lorder, Set::empty(), i as nat),
        decreases order.len() - i,
    {
        let ghost before = records(out@);
        let ghost taken = seen@;
        match find_label_exec(labels, &order[i]) {
            Some(li) => {
                proof {
                    lemma_find_label_range(labels@, order@[i as int]@, 0);
                }
                let dirs = &labels[li].dirs;
                let mut dn: Vec<String> = Vec::new();
                let mut b: usize = 0;
                while b < dirs.len()
                    invariant
                        0 <= b <= dirs.len(),
                        text::views(dn@) == dir_names(dirs@).take(b as int),
                    decreases dirs.len() - b,
                {
                    dn.push(dirs[b].name.clone());
                    assert(dir_names(dirs@).take(b + 1) =~= dir_names(dirs@).take(b as int).push(dirs@[b as int].name@));
                    b = b + 1;
                }
                assert(dir_names(dirs@).take(dirs@.len() as int) =~= dir_names(dirs@));
                let dorder = visit_order(&dn);
                let ghost dord = visible_order(dir_names(dirs@));
                let mut j: usize = 0;
                while j < dorder.len()
                    invariant
                        0 <= j <= dorder.len(),
                        i < order.len(),
                        text::views(dorder@) == dord,
                        (records(out@), seen@) == ({
                            let (more, after) = walk_dirs(order@[i as int]@, dirs@, dord, taken, j as nat);
                            (before + more, after)
                        }),
                    decreases dorder.len() - j,
                {
                    let ghost out_before = records(out@);
                    let ghost seen_before = seen@;
                    match find_dir_exec(dirs, &dorder[j]) {
                        Some(di) => {
                            proof {
                                lemma_find_dir_range(dirs@, dorder@[j as int]@, 0);
                            }
                            scan_listing_dir(&order[i], &dirs[di], &mut seen, &mut out);
                            proof {
                                let (prev, _) = walk_dirs(order@[i as int]@, dirs@, dord, taken, j as nat);
                                let (more, _) = dir_emails(order@[i as int]@, dirs@[di as int], seen_before);
                                assert(records(out@) =~= before + prev + more);
                                assert(prev + more =~= walk_dirs(order@[i as int]@, dirs@, dord, taken, (j + 1) as nat).0);
                            }
                        },
                        None => {},
                    }
                    j = j + 1;
                }
                proof {
                    assert(records(out@) =~= before + walk_dirs(order@[i as int]@, dirs@, dord, taken, dord.len()).0);
                }
            },
            None => {},
        }
        i = i + 1;
    }
    out
}

} // verus!
