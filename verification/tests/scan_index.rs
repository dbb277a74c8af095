use newsletter_archive::frontmatter::{scalar_as_string, split_frontmatter, Frontmatter, YamlScalar};
use newsletter_archive::index::email_row;
use newsletter_archive::scan::{
    classify_files, looks_like_message_id, truncate_body, BodyFormat, MdMeta, ParsedEmail,
};
use newsletter_archive::schema::{reset_index_sql, EMAILS_INDEX_SQL, EMAILS_TABLE_SQL, FTS_TABLE_SQL};
use newsletter_archive::state::{ExistingState, StoredState};
use newsletter_archive::walk::{scan_tree, DirListing, LabelListing};
use rusqlite::{Connection, ToSql};
use std::collections::HashSet;

// --- Fixtures ------------------------------------------------------------------

/// A newsletters tree held in memory: label -> directory -> (file name, content).
struct Tree {
    dirs: Vec<(String, String, Vec<(String, String)>)>,
}

impl Tree {
    fn new(_tag: &str) -> Self {
        Tree { dirs: Vec::new() }
    }

    fn email_dir(&mut self, label: &str, dir_name: &str, files: &[(&str, String)]) {
        self.dirs.push((
            label.to_string(),
            dir_name.to_string(),
            files.iter().map(|(n, c)| (n.to_string(), c.clone())).collect(),
        ));
    }

    /// What a walk of the tree on disk reads: names, and the parsed sidecars.
    fn listing(&self) -> Vec<LabelListing> {
        let mut labels: Vec<LabelListing> = Vec::new();
        for (label, dir, files) in &self.dirs {
            let entries: Vec<String> = files.iter().map(|(n, _)| n.clone()).collect();
            let classified = classify_files(&entries);
            let sidecars: Vec<MdMeta> = classified
                .md
                .iter()
                .map(|name| {
                    let content = &files.iter().find(|(n, _)| n == name).unwrap().1;
                    parse_md(&format!("{}/{}/{}", label, dir, name), name, content)
                })
                .collect();
            let listing = DirListing { name: dir.clone(), entries, sidecars };
            match labels.iter_mut().find(|l| &l.name == label) {
                Some(l) => l.dirs.push(listing),
                None => labels.push(LabelListing { name: label.clone(), dirs: vec![listing] }),
            }
        }
        labels
    }
}

fn scan(tree: &Tree) -> Vec<ParsedEmail> {
    scan_tree(&tree.listing())
}

fn scalar(v: Option<&serde_yaml::Value>) -> YamlScalar {
    match v {
        None => YamlScalar::Missing,
        Some(serde_yaml::Value::Null) => YamlScalar::Null,
        Some(serde_yaml::Value::String(s)) => YamlScalar::Text(s.clone()),
        Some(serde_yaml::Value::Number(n)) => YamlScalar::Number(n.to_string()),
        Some(other) => YamlScalar::Rendered(serde_yaml::to_string(other).unwrap_or_default()),
    }
}

fn text_field(m: &serde_yaml::Mapping, key: &str) -> String {
    m.get(key).and_then(|v| v.as_str()).unwrap_or("").to_string()
}

fn list_field(m: &serde_yaml::Mapping, key: &str) -> Vec<String> {
    match m.get(key).and_then(|v| v.as_sequence()) {
        Some(items) => items.iter().filter_map(|v| v.as_str().map(|s| s.to_string())).collect(),
        None => Vec::new(),
    }
}

fn yaml_frontmatter(yaml: &str) -> Option<Frontmatter> {
    let value: serde_yaml::Value = serde_yaml::from_str(yaml).ok()?;
    let m = value.as_mapping()?;
    Some(Frontmatter {
        id: scalar_as_string(scalar(m.get("id"))),
        subject: text_field(m, "subject"),
        from: text_field(m, "from"),
        to: text_field(m, "to"),
        date: scalar_as_string(scalar(m.get("date"))),
        labels: list_field(m, "labels"),
        label_ids: list_field(m, "label_ids"),
    })
}

fn parse_md(path: &str, filename: &str, content: &str) -> MdMeta {
    match split_frontmatter(content) {
        Ok(parts) => match yaml_frontmatter(&parts.yaml) {
            Some(fm) => MdMeta::from_front_matter(path.to_string(), filename.to_string(), fm, parts.body),
            None => MdMeta::empty(path.to_string(), filename.to_string()),
        },
        Err(_) => MdMeta::empty(path.to_string(), filename.to_string()),
    }
}

/// A .md sidecar in the shape gmail-ingestor emits (quoted id)
fn md_with_id(id: &str, subject: &str) -> String {
    format!(
        "---\nid: \"{id}\"\nsubject: \"{subject}\"\nfrom: \"Sender <s@example.com>\"\nto: \"\"\ndate: 2024-01-15 10:00:00\nlabels: [\"INBOX\"]\n---\nBody text for {subject}.\n"
    )
}

/// A legacy sidecar with no `id:` field at all
fn md_without_id(subject: &str) -> String {
    format!(
        "---\nsubject: \"{subject}\"\nfrom: \"Sender <s@example.com>\"\ndate: 2024-01-15 10:00:00\n---\nBody text for {subject}.\n"
    )
}

/// In-memory database built from the schema constants
fn test_conn() -> Connection {
    let conn = Connection::open_in_memory().unwrap();
    conn.execute_batch(EMAILS_TABLE_SQL).unwrap();
    conn.execute_batch(EMAILS_INDEX_SQL).unwrap();
    conn.execute_batch(FTS_TABLE_SQL).unwrap();
    conn
}

/// One batch of rows, inserted as the indexer inserts them.
fn insert_chunk(conn: &Connection, chunk: &[ParsedEmail], existing: &ExistingState) -> Result<usize, String> {
    conn.execute_batch("BEGIN TRANSACTION;").map_err(|e| e.to_string())?;
    let mut inserted = 0usize;
    for email in chunk {
        let row = email_row(email, existing);
        let result = conn.execute(
            "INSERT INTO emails (id, label, dir_name, message_id, subject, from_addr, body, date, body_filename, body_format, md_filename, is_read, is_bookmarked)
             VALUES (?1, ?2, ?3, ?4, ?5, ?6, ?7, ?8, ?9, ?10, ?11, ?12, ?13)",
            &[&row.id as &dyn ToSql, &row.label, &row.dir_name, &row.message_id, &row.subject, &row.from_addr, &row.body, &row.date, &row.body_filename, &row.body_format, &row.md_filename, &row.is_read, &row.is_bookmarked][..],
        );
        if result.is_err() {
            continue;
        }
        let rowid = conn.last_insert_rowid();
        conn.execute(
            "INSERT INTO emails_fts (rowid, subject, body, from_addr, label) VALUES (?1, ?2, ?3, ?4, ?5)",
            &[&rowid as &dyn ToSql, &row.subject, &row.body, &row.from_addr, &row.label][..],
        )
        .map_err(|e| e.to_string())?;
        inserted += 1;
    }
    conn.execute_batch("COMMIT;").map_err(|e| e.to_string())?;
    Ok(inserted)
}

fn load_state(conn: &Connection) -> ExistingState {
    let mut stmt = conn
        .prepare("SELECT id, label, dir_name, body_filename, is_read, is_bookmarked FROM emails")
        .unwrap();
    let rows: Vec<StoredState> = stmt
        .query_map([], |row| {
            Ok(StoredState {
                uid: row.get(0)?,
                label: row.get(1)?,
                dir_name: row.get(2)?,
                body_filename: row.get(3)?,
                is_read: row.get(4)?,
                is_bookmarked: row.get(5)?,
            })
        })
        .unwrap()
        .flatten()
        .collect();
    ExistingState::from_rows(&rows)
}

fn reset_index_tables(conn: &Connection) {
    conn.execute_batch(&reset_index_sql()).unwrap();
}

fn find<'a>(emails: &'a [ParsedEmail], label: &str) -> &'a ParsedEmail {
    emails.iter().find(|e| e.label == label).expect("email for label")
}

// --- Colliding directory names across labels --------------------------------------

#[test]
fn colliding_dir_names_across_labels_index_as_separate_emails() {
    let mut tree = Tree::new("collision");
    tree.email_dir("Alpha", "1786999a", &[
        ("1786999a3f2b1c4d.html", "<p>Alpha body</p>".to_string()),
        ("alpha-post_1786999a3f2b1c4d.md", md_with_id("1786999a3f2b1c4d", "Alpha Subject")),
    ]);
    tree.email_dir("Beta", "1786999a", &[
        ("1786999abc9d0e1f.html", "<p>Beta body</p>".to_string()),
        ("beta-post_1786999abc9d0e1f.md", md_with_id("1786999abc9d0e1f", "Beta Subject")),
    ]);

    let emails = scan(&tree);
    assert_eq!(emails.len(), 2, "both colliding directories must be indexed");

    let alpha = find(&emails, "Alpha");
    let beta = find(&emails, "Beta");
    assert_ne!(alpha.uid, beta.uid, "keys must differ across labels");
    assert_eq!(alpha.uid, "Alpha/1786999a3f2b1c4d");
    assert_eq!(beta.uid, "Beta/1786999abc9d0e1f");
    assert_eq!(alpha.subject, "Alpha Subject");
    assert_eq!(beta.subject, "Beta Subject");
    assert_eq!(alpha.dir_name, "1786999a");
    assert_eq!(beta.dir_name, "1786999a");

    let conn = test_conn();
    let inserted = insert_chunk(&conn, &emails, &ExistingState::default()).unwrap();
    assert_eq!(inserted, 2);

    let count: i64 = conn.query_row("SELECT COUNT(*) FROM emails", [], |r| r.get(0)).unwrap();
    assert_eq!(count, 2, "neither row may overwrite the other");

    let subject: String = conn
        .query_row("SELECT subject FROM emails WHERE label = 'Beta'", [], |r| r.get(0))
        .unwrap();
    assert_eq!(subject, "Beta Subject", "Beta must not carry Alpha's headline");
}

#[test]
fn colliding_dir_names_stay_distinct_without_front_matter_ids() {
    let mut tree = Tree::new("collision-nofm");
    tree.email_dir("Alpha", "1786999a", &[
        ("email.html", "<p>Alpha body</p>".to_string()),
        ("post.md", md_without_id("Alpha Subject")),
    ]);
    tree.email_dir("Beta", "1786999a", &[
        ("email.html", "<p>Beta body</p>".to_string()),
        ("post.md", md_without_id("Beta Subject")),
    ]);

    let emails = scan(&tree);
    assert_eq!(emails.len(), 2);
    assert_eq!(find(&emails, "Alpha").uid, "Alpha/1786999a");
    assert_eq!(find(&emails, "Beta").uid, "Beta/1786999a");

    let conn = test_conn();
    assert_eq!(insert_chunk(&conn, &emails, &ExistingState::default()).unwrap(), 2);
}

#[test]
fn user_state_does_not_bleed_between_labels() {
    let mut tree = Tree::new("state-bleed");
    tree.email_dir("Alpha", "1786999a", &[
        ("email.html", "<p>Alpha body</p>".to_string()),
        ("post.md", md_without_id("Alpha Subject")),
    ]);
    tree.email_dir("Beta", "1786999a", &[
        ("email.html", "<p>Beta body</p>".to_string()),
        ("post.md", md_without_id("Beta Subject")),
    ]);
    let emails = scan(&tree);

    let conn = test_conn();
    insert_chunk(&conn, &emails, &ExistingState::default()).unwrap();
    conn.execute("UPDATE emails SET is_read = 1, is_bookmarked = 1 WHERE label = 'Alpha'", [])
        .unwrap();

    let state = load_state(&conn);
    assert_eq!(state.lookup(find(&emails, "Alpha")), (true, true));
    assert_eq!(
        state.lookup(find(&emails, "Beta")),
        (false, false),
        "Beta shares a directory name with Alpha but must keep its own state"
    );

    reset_index_tables(&conn);
    insert_chunk(&conn, &emails, &state).unwrap();

    let beta: (bool, bool) = conn
        .query_row("SELECT is_read, is_bookmarked FROM emails WHERE label = 'Beta'", [], |r| {
            Ok((r.get(0)?, r.get(1)?))
        })
        .unwrap();
    assert_eq!(beta, (false, false), "state bled across labels on re-index");

    let alpha: (bool, bool) = conn
        .query_row("SELECT is_read, is_bookmarked FROM emails WHERE label = 'Alpha'", [], |r| {
            Ok((r.get(0)?, r.get(1)?))
        })
        .unwrap();
    assert_eq!(alpha, (true, true), "the owner's state must be preserved");
}

// --- HTML selection -------------------------------------------------------------

#[test]
fn multiple_html_files_in_one_dir_are_all_indexed() {
    let mut tree = Tree::new("multi-html");
    tree.email_dir("Alpha", "1786999a", &[
        ("1786999a3f2b1c4d.html", "<p>first</p>".to_string()),
        ("1786999abc9d0e1f.html", "<p>second</p>".to_string()),
        ("first-post_1786999a3f2b1c4d.md", md_with_id("1786999a3f2b1c4d", "First Subject")),
        ("second-post_1786999abc9d0e1f.md", md_with_id("1786999abc9d0e1f", "Second Subject")),
    ]);

    let emails = scan(&tree);
    assert_eq!(emails.len(), 2, "no email may be silently discarded");

    let first = emails.iter().find(|e| e.message_id == "1786999a3f2b1c4d").unwrap();
    let second = emails.iter().find(|e| e.message_id == "1786999abc9d0e1f").unwrap();
    assert_eq!(first.subject, "First Subject");
    assert_eq!(second.subject, "Second Subject");
    assert_eq!(first.body_filename, "1786999a3f2b1c4d.html");
    assert_eq!(second.body_filename, "1786999abc9d0e1f.html");

    let conn = test_conn();
    assert_eq!(insert_chunk(&conn, &emails, &ExistingState::default()).unwrap(), 2);
}

#[test]
fn html_selection_is_sorted_and_stable() {
    let mut tree = Tree::new("determinism");
    tree.email_dir("Alpha", "somedir", &[
        ("c.html", "<p>c</p>".to_string()),
        ("a.html", "<p>a</p>".to_string()),
        ("b.html", "<p>b</p>".to_string()),
    ]);

    let first_pass = scan(&tree);
    let second_pass = scan(&tree);

    let names: Vec<&str> = first_pass.iter().map(|e| e.body_filename.as_str()).collect();
    assert_eq!(names, vec!["a.html", "b.html", "c.html"], "files must be sorted");

    let uids: Vec<&str> = first_pass.iter().map(|e| e.uid.as_str()).collect();
    let uids_again: Vec<&str> = second_pass.iter().map(|e| e.uid.as_str()).collect();
    assert_eq!(uids, uids_again, "repeated scans must produce identical keys");

    // Non-ID stems still key uniquely within the label.
    assert_eq!(uids.iter().collect::<HashSet<_>>().len(), 3);
}

#[test]
fn labels_and_dirs_are_walked_in_sorted_order() {
    let mut tree = Tree::new("sorted-walk");
    for (label, dir) in [("Zulu", "bbb"), ("Alpha", "zzz"), ("Alpha", "aaa")] {
        tree.email_dir(label, dir, &[("email.html", "<p>x</p>".to_string())]);
    }
    let emails = scan(&tree);
    let seen: Vec<(&str, &str)> = emails
        .iter()
        .map(|e| (e.label.as_str(), e.dir_name.as_str()))
        .collect();
    assert_eq!(seen, vec![("Alpha", "aaa"), ("Alpha", "zzz"), ("Zulu", "bbb")]);
}

#[test]
fn listing_order_does_not_change_the_scan() {
    let mut tree = Tree::new("listing-order");
    tree.email_dir("Beta", "1786999a", &[
        ("1786999abc9d0e1f.html", "<p>2</p>".to_string()),
        ("1786999a3f2b1c4d.html", "<p>1</p>".to_string()),
        ("1786999a3f2b1c4d.txt", "1".to_string()),
        ("newsletter_1786999a3f2b1c4d.md", md_with_id("1786999a3f2b1c4d", "One")),
    ]);
    tree.email_dir("Alpha", "email", &[
        ("email.txt", "plain".to_string()),
        ("email.md", md_without_id("Plain")),
    ]);
    tree.email_dir("Alpha", "aaa", &[("email.html", "<p>x</p>".to_string())]);

    let listing = tree.listing();
    // The same tree as another file system might list it: every level reversed.
    let mut reversed: Vec<LabelListing> = Vec::new();
    for label in tree.listing().into_iter().rev() {
        let dirs = label
            .dirs
            .into_iter()
            .rev()
            .map(|d| DirListing {
                name: d.name,
                entries: d.entries.into_iter().rev().collect(),
                sidecars: d.sidecars,
            })
            .collect();
        reversed.push(LabelListing { name: label.name, dirs });
    }

    let key = |e: &ParsedEmail| (e.uid.clone(), e.label.clone(), e.dir_name.clone(), e.body_filename.clone(), e.subject.clone());
    let first: Vec<_> = scan_tree(&listing).iter().map(key).collect();
    let second: Vec<_> = scan_tree(&reversed).iter().map(key).collect();
    assert_eq!(first, second);
    assert_eq!(first.len(), 4);
    assert_eq!(first[0].0, "Alpha/aaa");
    assert_eq!(first[1].0, "Alpha/email");
    assert_eq!(first[1].4, "Plain");
    assert_eq!(first[2].0, "Beta/1786999a3f2b1c4d");
    assert_eq!(first[3].0, "Beta/1786999abc9d0e1f");
}

#[test]
fn a_taken_key_falls_back_to_the_location_key() {
    // Two directories whose sidecars claim the same message: the second email keeps
    // its own row under its physical location instead of overwriting the first.
    let mut tree = Tree::new("duplicate-key");
    tree.email_dir("Alpha", "aaa", &[
        ("email.html", "<p>1</p>".to_string()),
        ("email.md", md_with_id("1786999a3f2b1c4d", "First")),
    ]);
    tree.email_dir("Alpha", "bbb", &[
        ("email.html", "<p>2</p>".to_string()),
        ("email.md", md_with_id("1786999a3f2b1c4d", "Second")),
    ]);
    let emails = scan(&tree);
    let uids: Vec<&str> = emails.iter().map(|e| e.uid.as_str()).collect();
    assert_eq!(uids, vec!["Alpha/1786999a3f2b1c4d", "Alpha/bbb#email.html"]);
    assert_eq!(emails[1].subject, "Second");
    assert_eq!(emails[1].message_id, "1786999a3f2b1c4d");
}

// --- Identity resolution ----------------------------------------------------------

#[test]
fn uid_prefers_full_message_id_from_front_matter() {
    let mut tree = Tree::new("fm-id");
    tree.email_dir("Alpha", "1786999a", &[
        ("email.html", "<p>body</p>".to_string()),
        ("post_1786999a3f2b1c4d.md", md_with_id("1786999a3f2b1c4d", "Subject")),
    ]);

    let emails = scan(&tree);
    assert_eq!(emails.len(), 1);
    assert_eq!(emails[0].uid, "Alpha/1786999a3f2b1c4d");
    assert_eq!(emails[0].message_id, "1786999a3f2b1c4d");
    assert_eq!(emails[0].dir_name, "1786999a", "path building still needs the directory");
}

#[test]
fn uid_falls_back_to_body_filename_stem() {
    let mut tree = Tree::new("stem-id");
    tree.email_dir("Alpha", "1786999a", &[("1786999a3f2b1c4d.html", "<p>body</p>".to_string())]);

    let emails = scan(&tree);
    assert_eq!(emails.len(), 1, "a body without metadata is still an email");
    assert_eq!(emails[0].uid, "Alpha/1786999a3f2b1c4d");
    assert_eq!(emails[0].subject, "", "no metadata available, but not dropped");
}

#[test]
fn numeric_unquoted_front_matter_id_is_still_read() {
    let mut tree = Tree::new("numeric-id");
    let unquoted = "---\nid: 1637675546614607\nsubject: \"Numeric\"\nfrom: \"S <s@example.com>\"\n---\nBody.\n";
    tree.email_dir("Alpha", "somedir", &[
        ("email.html", "<p>body</p>".to_string()),
        ("post.md", unquoted.to_string()),
    ]);

    let emails = scan(&tree);
    assert_eq!(emails[0].message_id, "1637675546614607");
    assert_eq!(emails[0].uid, "Alpha/1637675546614607");
}

#[test]
fn directory_without_any_body_is_skipped() {
    let mut tree = Tree::new("no-body");
    tree.email_dir("Alpha", "empty", &[("post.md", md_without_id("Orphan"))]);
    tree.email_dir("Alpha", "real", &[
        ("email.html", "<p>body</p>".to_string()),
        ("post.md", md_without_id("Real")),
    ]);

    let emails = scan(&tree);
    assert_eq!(emails.len(), 1);
    assert_eq!(emails[0].dir_name, "real");
}

// --- Plain-text newsletters -------------------------------------------------------

#[test]
fn text_only_email_is_indexed() {
    let mut tree = Tree::new("text-only");
    tree.email_dir("Quincy", "198f3e01cfede00e", &[
        ("198f3e01cfede00e.txt", "Plain text newsletter body.".to_string()),
        ("learn-devops_198f3e01cfede00e.md", md_with_id("198f3e01cfede00e", "Learn DevOps")),
    ]);

    let emails = scan(&tree);
    assert_eq!(emails.len(), 1, "a text-only newsletter is still an email");
    assert_eq!(emails[0].body_format, BodyFormat::Text);
    assert_eq!(emails[0].body_filename, "198f3e01cfede00e.txt");
    assert_eq!(emails[0].subject, "Learn DevOps");
    assert_eq!(emails[0].uid, "Quincy/198f3e01cfede00e");
    assert!(!emails[0].body_text.is_empty(), "body must still be indexed for search");

    let conn = test_conn();
    assert_eq!(insert_chunk(&conn, &emails, &ExistingState::default()).unwrap(), 1);
    let format: String = conn.query_row("SELECT body_format FROM emails", [], |r| r.get(0)).unwrap();
    assert_eq!(format, "text");
}

#[test]
fn text_alternative_beside_html_is_not_double_indexed() {
    let mut tree = Tree::new("txt-alternative");
    tree.email_dir("Alpha", "19aa81c5f42e4d56", &[
        ("19aa81c5f42e4d56.html", "<p>html body</p>".to_string()),
        ("19aa81c5f42e4d56.txt", "same body as plain text".to_string()),
        ("post_19aa81c5f42e4d56.md", md_with_id("19aa81c5f42e4d56", "Subject")),
    ]);
    tree.email_dir("Alpha", "1786999a", &[
        ("email.html", "<p>html body</p>".to_string()),
        ("email.txt", "same body as plain text".to_string()),
        ("post.md", md_without_id("Legacy Subject")),
    ]);

    let emails = scan(&tree);
    assert_eq!(emails.len(), 2, "each directory holds one email, not two");
    assert!(emails.iter().all(|e| e.body_format == BodyFormat::Html));
}

#[test]
fn text_body_for_message_without_html_is_promoted() {
    let mut tree = Tree::new("txt-uncovered");
    tree.email_dir("Alpha", "1786999a", &[
        ("1786999a3f2b1c4d.html", "<p>first, with html</p>".to_string()),
        ("1786999a3f2b1c4d.txt", "first, as text".to_string()),
        ("1786999abc9d0e1f.txt", "second, text only".to_string()),
        ("first_1786999a3f2b1c4d.md", md_with_id("1786999a3f2b1c4d", "First Subject")),
        ("second_1786999abc9d0e1f.md", md_with_id("1786999abc9d0e1f", "Second Subject")),
    ]);

    let emails = scan(&tree);
    assert_eq!(emails.len(), 2, "the HTML-less message must not be dropped");

    let first = emails.iter().find(|e| e.message_id == "1786999a3f2b1c4d").unwrap();
    let second = emails.iter().find(|e| e.message_id == "1786999abc9d0e1f").unwrap();
    assert_eq!(first.body_format, BodyFormat::Html, "prefer HTML when the message has it");
    assert_eq!(first.body_filename, "1786999a3f2b1c4d.html");
    assert_eq!(second.body_format, BodyFormat::Text);
    assert_eq!(second.subject, "Second Subject");

    let conn = test_conn();
    assert_eq!(insert_chunk(&conn, &emails, &ExistingState::default()).unwrap(), 2);
}

#[test]
fn text_matching_the_html_message_id_is_not_promoted() {
    let mut tree = Tree::new("txt-covered-by-fm");
    tree.email_dir("Alpha", "1786999a", &[
        ("email.html", "<p>body</p>".to_string()),
        ("1786999a3f2b1c4d.txt", "same body as text".to_string()),
        ("post.md", md_with_id("1786999a3f2b1c4d", "Subject")),
    ]);

    let emails = scan(&tree);
    assert_eq!(emails.len(), 1, "front matter identifies both files as one message");
    assert_eq!(emails[0].body_format, BodyFormat::Html);
}

#[test]
fn text_only_email_state_survives_reindex() {
    let mut tree = Tree::new("text-state");
    tree.email_dir("Quincy", "198f3e01cfede00e", &[
        ("198f3e01cfede00e.txt", "Plain text.".to_string()),
        ("post_198f3e01cfede00e.md", md_with_id("198f3e01cfede00e", "Subject")),
    ]);
    let emails = scan(&tree);

    let conn = test_conn();
    insert_chunk(&conn, &emails, &ExistingState::default()).unwrap();
    conn.execute("UPDATE emails SET is_bookmarked = 1", []).unwrap();

    let state = load_state(&conn);
    reset_index_tables(&conn);
    insert_chunk(&conn, &emails, &state).unwrap();

    let bookmarked: bool = conn.query_row("SELECT is_bookmarked FROM emails", [], |r| r.get(0)).unwrap();
    assert!(bookmarked, "bookmark on a text-only email must survive re-indexing");
}

#[test]
fn hidden_directories_are_ignored() {
    let mut tree = Tree::new("hidden");
    tree.email_dir(".git", "objects", &[("email.html", "<p>x</p>".to_string())]);
    tree.email_dir("Alpha", ".cache", &[("email.html", "<p>x</p>".to_string())]);
    tree.email_dir("Alpha", "real", &[("email.html", "<p>x</p>".to_string())]);

    let emails = scan(&tree);
    assert_eq!(emails.len(), 1);
    assert_eq!(emails[0].dir_name, "real");
}

// --- FTS alignment ----------------------------------------------------------------

#[test]
fn fts_rows_align_with_their_emails() {
    let mut tree = Tree::new("fts-align");
    tree.email_dir("Alpha", "1786999a", &[
        ("email.html", "<p>a</p>".to_string()),
        ("post.md", md_with_id("1786999a3f2b1c4d", "Alpha Unique Headline")),
    ]);
    tree.email_dir("Beta", "1786999a", &[
        ("email.html", "<p>b</p>".to_string()),
        ("post.md", md_with_id("1786999abc9d0e1f", "Beta Unique Headline")),
    ]);

    let emails = scan(&tree);
    let conn = test_conn();
    insert_chunk(&conn, &emails, &ExistingState::default()).unwrap();

    let (label, subject): (String, String) = conn
        .query_row(
            "SELECT e.label, e.subject FROM emails_fts
             JOIN emails e ON emails_fts.rowid = e.rowid
             WHERE emails_fts MATCH 'Beta'",
            [],
            |r| Ok((r.get(0)?, r.get(1)?)),
        )
        .unwrap();
    assert_eq!(label, "Beta");
    assert_eq!(subject, "Beta Unique Headline");
}

// --- Helpers ----------------------------------------------------------------------

#[test]
fn message_id_shape_detection() {
    assert!(looks_like_message_id("1786999a3f2b1c4d"));
    assert!(looks_like_message_id("1786999a"));
    assert!(!looks_like_message_id("email"), "generic names are not identity");
    assert!(!looks_like_message_id("abc"), "too short to be a message ID");
    assert!(!looks_like_message_id("newsletter-2024"));
}

#[test]
fn body_truncation_respects_char_boundaries() {
    // A multi-byte char straddling the 2000-byte cut would panic on a naive slice.
    let body = format!("{}\u{201c}tail", "a".repeat(1999));
    let truncated = truncate_body(body);
    assert!(truncated.len() <= 2000);
    assert!(truncated.is_char_boundary(truncated.len()));
}

// --- Schema -----------------------------------------------------------------------

#[test]
fn identity_index_rejects_duplicate_physical_emails() {
    let conn = test_conn();
    conn.execute(
        "INSERT INTO emails (id, label, dir_name, message_id, body_filename)
         VALUES ('Alpha/aaa', 'Alpha', '1786999a', 'aaa', 'email.html')",
        [],
    )
    .unwrap();

    // Same label + directory + file is the same physical email.
    let err = conn.execute(
        "INSERT INTO emails (id, label, dir_name, message_id, body_filename)
         VALUES ('Alpha/bbb', 'Alpha', '1786999a', 'bbb', 'email.html')",
        [],
    );
    assert!(err.is_err(), "duplicate (label, dir_name, body_filename) must be rejected");

    // The same directory name under a different label is a different email entirely.
    conn.execute(
        "INSERT INTO emails (id, label, dir_name, message_id, body_filename)
         VALUES ('Beta/bbb', 'Beta', '1786999a', 'bbb', 'email.html')",
        [],
    )
    .unwrap();
    let count: i64 = conn.query_row("SELECT COUNT(*) FROM emails", [], |r| r.get(0)).unwrap();
    assert_eq!(count, 2);
}

#[test]
fn rows_without_a_body_file_are_refused() {
    let conn = test_conn();
    let err = conn.execute(
        "INSERT INTO emails (id, label, dir_name, message_id) VALUES ('Alpha/aaa', 'Alpha', 'd', 'aaa')",
        [],
    );
    assert!(err.is_err(), "body_filename has no default");
    conn.execute(
        "INSERT INTO emails (id, label, dir_name, message_id, body_filename) VALUES ('Alpha/aaa', 'Alpha', 'd', 'aaa', 'a.html')",
        [],
    )
    .unwrap();
    let format: String = conn.query_row("SELECT body_format FROM emails", [], |r| r.get(0)).unwrap();
    assert_eq!(format, "html");
}
