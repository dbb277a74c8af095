use newsletter_archive::frontmatter::Frontmatter;
use newsletter_archive::index::{chrono_now, email_row, seconds_text, timestamp_text, IndexProgress};
use newsletter_archive::scan::{
    classify_files, fallback_uid, make_uid, resolve_body, stem_of, truncate_body, BodyFormat,
    MdMeta, ParsedEmail,
};
use newsletter_archive::schema::{reset_index_sql, FTS_TABLE_SQL};
use newsletter_archive::state::{ExistingState, StoredState};
use newsletter_archive::text::{sort_strings, trim_str, visible_sorted};

fn email(uid: &str, label: &str, dir: &str, file: &str) -> ParsedEmail {
    ParsedEmail {
        uid: uid.to_string(),
        message_id: String::new(),
        label: label.to_string(),
        dir_name: dir.to_string(),
        subject: String::new(),
        from_addr: String::new(),
        date: None,
        body_filename: file.to_string(),
        body_format: BodyFormat::Html,
        md_filename: String::new(),
        body_text: String::new(),
    }
}

fn stored(uid: &str, label: &str, dir: &str, file: &str, read: bool, bookmarked: bool) -> StoredState {
    StoredState {
        uid: uid.to_string(),
        label: label.to_string(),
        dir_name: dir.to_string(),
        body_filename: file.to_string(),
        is_read: read,
        is_bookmarked: bookmarked,
    }
}

fn meta(filename: &str, id: Option<&str>, subject: &str) -> MdMeta {
    MdMeta::from_front_matter(
        format!("/x/{}", filename),
        filename.to_string(),
        Frontmatter {
            id: id.map(|s| s.to_string()),
            subject: subject.to_string(),
            from: "S <s@example.com>".to_string(),
            to: String::new(),
            date: Some(" 2024-01-15 ".to_string()),
            labels: Vec::new(),
            label_ids: Vec::new(),
        },
        "Body.".to_string(),
    )
}

#[test]
fn keys_are_label_scoped() {
    assert_eq!(make_uid("Alpha", "1786999a"), "Alpha/1786999a");
    assert_ne!(make_uid("Alpha", "1786999a"), make_uid("Beta", "1786999a"));
    assert_eq!(fallback_uid("Alpha", "1786999a", "email.html"), "Alpha/1786999a#email.html");
}

#[test]
fn stems_drop_only_the_last_extension() {
    assert_eq!(stem_of("a.b.html"), "a.b");
    assert_eq!(stem_of("email"), "email");
    assert_eq!(stem_of(".hidden"), "");
    assert_eq!(stem_of("x."), "x");
}

#[test]
fn lookup_prefers_key_then_location() {
    let rows = vec![
        stored("Alpha/111", "Alpha", "d1", "a.html", true, false),
        stored("Alpha/222", "Alpha", "d2", "b.html", false, true),
    ];
    let state = ExistingState::from_rows(&rows);
    // By key.
    assert_eq!(state.lookup(&email("Alpha/111", "Alpha", "elsewhere", "z.html")), (true, false));
    // By location, when the key changed.
    assert_eq!(state.lookup(&email("Alpha/new-id", "Alpha", "d2", "b.html")), (false, true));
    // Neither: same directory and file under another label.
    assert_eq!(state.lookup(&email("Beta/new-id", "Beta", "d2", "b.html")), (false, false));
    // Empty state restores nothing.
    assert_eq!(ExistingState::new().lookup(&email("Alpha/111", "Alpha", "d1", "a.html")), (false, false));
}

#[test]
fn later_rows_win_for_the_same_location() {
    let rows = vec![
        stored("Alpha/1", "Alpha", "d", "a.html", true, true),
        stored("Alpha/2", "Alpha", "d", "a.html", false, true),
    ];
    let state = ExistingState::from_rows(&rows);
    assert_eq!(state.lookup(&email("Alpha/3", "Alpha", "d", "a.html")), (false, true));
}

#[test]
fn rows_carry_restored_state_as_flags() {
    let state = ExistingState::from_rows(&vec![stored("Q/1", "Q", "d", "t.txt", true, false)]);
    let mut e = email("Q/1", "Q", "d", "t.txt");
    e.body_format = BodyFormat::Text;
    e.date = Some("2024".to_string());
    let row = email_row(&e, &state);
    assert_eq!(row.id, "Q/1");
    assert_eq!(row.body_format, "text");
    assert_eq!(row.is_read, 1);
    assert_eq!(row.is_bookmarked, 0);
    assert_eq!(row.date, Some("2024".to_string()));
    assert_eq!(BodyFormat::Html.as_str(), "html");
}

#[test]
fn sidecars_match_by_front_matter_then_file_name_then_pairing() {
    let mds = vec![meta("a_1786999a3f2b1c4d.md", None, "A"), meta("b.md", Some("1786999abc9d0e1f"), "B")];
    // Front-matter id equal to the stem wins.
    assert_eq!(resolve_body("1786999abc9d0e1f.html", &mds, false, "dir", 2), (Some(1), "1786999abc9d0e1f".to_string()));
    // File name embedding the stem.
    assert_eq!(resolve_body("1786999a3f2b1c4d.html", &mds, false, "dir", 2), (Some(0), "1786999a3f2b1c4d".to_string()));
    // Nothing matches: directory name, suffixed when there are siblings.
    assert_eq!(resolve_body("email.html", &mds, false, "dir", 2), (None, "dir-email".to_string()));
    assert_eq!(resolve_body("email.html", &mds, false, "dir", 1), (None, "dir".to_string()));
    // One body beside one sidecar pairs up.
    let one = vec![meta("post.md", Some("  abc  "), "P")];
    assert_eq!(resolve_body("email.html", &one, true, "dir", 1), (Some(0), "abc".to_string()));
}

#[test]
fn front_matter_ids_are_trimmed_and_blank_ones_dropped() {
    assert_eq!(meta("p.md", Some("  x  "), "S").fm_id, Some("x".to_string()));
    assert_eq!(meta("p.md", Some("   "), "S").fm_id, None);
    assert_eq!(meta("p.md", None, "S").date, Some("2024-01-15".to_string()));
}

#[test]
fn files_are_classified_case_insensitively_and_sorted() {
    let names: Vec<String> = ["b.HTML", "a.html", "x.txt", "post.MD", "img.png", "c.Txt"]
        .iter()
        .map(|s| s.to_string())
        .collect();
    let f = classify_files(&names);
    assert_eq!(f.html, vec!["a.html".to_string(), "b.HTML".to_string()]);
    assert_eq!(f.txt, vec!["c.Txt".to_string(), "x.txt".to_string()]);
    assert_eq!(f.md, vec!["post.MD".to_string()]);
    assert!(f.has_body());
}

#[test]
fn walk_order_skips_hidden_names_and_sorts() {
    let names: Vec<String> = ["zeta", ".git", "Alpha", "alpha", "beta"].iter().map(|s| s.to_string()).collect();
    assert_eq!(
        visible_sorted(&names),
        vec!["Alpha".to_string(), "alpha".to_string(), "beta".to_string(), "zeta".to_string()]
    );
    let words: Vec<String> = ["b", "a", "b", "ab", ""].iter().map(|s| s.to_string()).collect();
    assert_eq!(
        sort_strings(&words),
        vec!["".to_string(), "a".to_string(), "ab".to_string(), "b".to_string(), "b".to_string()]
    );
}

#[test]
fn truncation_keeps_short_bodies_and_cuts_long_ones_at_2000_bytes() {
    assert_eq!(truncate_body("short".to_string()), "short");
    let exact = "é".repeat(1000);
    assert_eq!(truncate_body(exact.clone()), exact);
    let long = "a".repeat(2500);
    assert_eq!(truncate_body(long).len(), 2000);
    let straddle = format!("{}\u{201c}tail", "a".repeat(1999));
    assert_eq!(truncate_body(straddle), "a".repeat(1999));
}

#[test]
fn trimming_removes_unicode_white_space() {
    assert_eq!(trim_str("\u{3000}\t x y \u{a0}\n"), "x y");
    assert_eq!(trim_str("   "), "");
}

#[test]
fn progress_reports_follow_the_phases() {
    let p = IndexProgress::scanning();
    assert_eq!((p.current, p.total, p.label.as_str(), p.phase.as_str()), (0, 0, "", "scanning"));
    let p = IndexProgress::indexing(500, 1200, "Alpha".to_string());
    assert_eq!((p.current, p.total, p.label.as_str(), p.phase.as_str()), (500, 1200, "Alpha", "indexing"));
    let p = IndexProgress::done(1200);
    assert_eq!((p.current, p.total, p.label.as_str(), p.phase.as_str()), (1200, 1200, "", "done"));
}

#[test]
fn timestamps_are_decimal_seconds() {
    assert_eq!(timestamp_text(0), "0");
    assert_eq!(timestamp_text(1700000000), "1700000000");
    assert_eq!(timestamp_text(u64::MAX), "18446744073709551615");
    assert_eq!(seconds_text(Some(42)), "42");
    assert_eq!(seconds_text(None), "0");
    let now = chrono_now();
    assert!(!now.is_empty() && now.chars().all(|c| c.is_ascii_digit()));
}

#[test]
fn reset_batch_drops_and_recreates_the_search_index() {
    assert_eq!(
        reset_index_sql(),
        format!("DROP TABLE IF EXISTS emails_fts;\nDELETE FROM emails;\n{}", FTS_TABLE_SQL)
    );
}

#[test]
fn sibling_bodies_never_share_a_fallback_id() {
    let mds: Vec<MdMeta> = Vec::new();
    let a = resolve_body("email.html", &mds, false, "1786999a", 2);
    let b = resolve_body("email2.html", &mds, false, "1786999a", 2);
    let c = resolve_body("1786999a3f2b1c4d.html", &mds, false, "1786999a", 2);
    assert_eq!(a.1, "1786999a-email");
    assert_eq!(b.1, "1786999a-email2");
    assert_eq!(c.1, "1786999a3f2b1c4d");
    assert_ne!(a.1, b.1);
    assert_ne!(a.1, c.1);
}

#[test]
fn rows_of_other_labels_do_not_change_restored_state() {
    let own = vec![
        stored("Alpha/111", "Alpha", "d1", "a.html", true, false),
        stored("Alpha/222", "Alpha", "d2", "b.html", false, true),
    ];
    let mixed = vec![
        stored("Beta/111", "Beta", "d1", "a.html", false, true),
        stored("Alpha/111", "Alpha", "d1", "a.html", true, false),
        stored("Beta/222", "Beta", "d2", "b.html", true, true),
        stored("Alpha/222", "Alpha", "d2", "b.html", false, true),
    ];
    let a = ExistingState::from_rows(&own);
    let b = ExistingState::from_rows(&mixed);
    for e in [
        email("Alpha/111", "Alpha", "zz", "z.html"),
        email("Alpha/new", "Alpha", "d2", "b.html"),
        email("Alpha/new", "Alpha", "d1", "a.html"),
        email("Alpha/none", "Alpha", "d3", "c.html"),
    ] {
        assert_eq!(a.lookup(&e), b.lookup(&e));
    }
}
