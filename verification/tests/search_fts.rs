use newsletter_archive::search::sanitize_fts_query;
use rusqlite::{Connection, ToSql};

struct Hit {
    id: String,
    label: String,
    from_addr: String,
    snippet: String,
}

/// An in-memory database with emails + FTS5 tables and sample data
fn create_test_db() -> Connection {
    let conn = Connection::open_in_memory().unwrap();
    conn.execute_batch(
        "
        CREATE TABLE emails (
            id TEXT PRIMARY KEY,
            label TEXT NOT NULL,
            subject TEXT NOT NULL DEFAULT '',
            from_addr TEXT NOT NULL DEFAULT '',
            body TEXT NOT NULL DEFAULT '',
            date TEXT,
            html_filename TEXT NOT NULL,
            md_filename TEXT,
            is_read INTEGER NOT NULL DEFAULT 0,
            is_bookmarked INTEGER NOT NULL DEFAULT 0
        );

        CREATE VIRTUAL TABLE emails_fts USING fts5(
            subject, body, from_addr, label,
            content='emails', content_rowid='rowid',
            tokenize='porter unicode61'
        );
    ",
    )
    .unwrap();

    let samples = vec![
        ("id001", "tech-digest", "Rust async patterns", "Tech Weekly <tech@example.com>",
         "Learn about async/await patterns in Rust including futures and tokio runtime.", "2024-01-15", false, false),
        ("id002", "design-weekly", "Modern CSS Grid layouts", "Design News <design@example.com>",
         "CSS Grid provides powerful two-dimensional layout capabilities for web design.", "2024-01-20", true, false),
        ("id003", "tech-digest", "Python data science tools", "Tech Weekly <tech@example.com>",
         "Exploring pandas, numpy, and matplotlib for data analysis.", "2024-02-01", false, true),
        ("id004", "startup-news", "AI fundraising trends", "Startup Radar <hello@startup.com>",
         "Venture capital investment in artificial intelligence startups has doubled.", "2024-02-10", false, false),
    ];

    for (id, label, subject, from_addr, body, date, is_read, is_bookmarked) in &samples {
        conn.execute(
            "INSERT INTO emails (id, label, subject, from_addr, body, date, html_filename, is_read, is_bookmarked)
             VALUES (?1, ?2, ?3, ?4, ?5, ?6, 'email.html', ?7, ?8)",
            &[&id as &dyn ToSql, &label, &subject, &from_addr, &body, &date, &(*is_read as i32), &(*is_bookmarked as i32)][..],
        )
        .unwrap();
        let rowid: i64 = conn
            .query_row("SELECT rowid FROM emails WHERE id = ?1", &[&id as &dyn ToSql][..], |row| row.get(0))
            .unwrap();
        conn.execute(
            "INSERT INTO emails_fts (rowid, subject, body, from_addr, label) VALUES (?1, ?2, ?3, ?4, ?5)",
            &[&rowid as &dyn ToSql, &subject, &body, &from_addr, &label][..],
        )
        .unwrap();
    }
    conn
}

fn run_search(conn: &Connection, query: &str, limit: i64) -> Vec<Hit> {
    let fts_query = sanitize_fts_query(query);
    if fts_query.is_empty() {
        return vec![];
    }
    let sql = "
        SELECT e.id, e.label, e.from_addr,
               snippet(emails_fts, 1, '<mark>', '</mark>', '...', 40) as snip
        FROM emails_fts
        JOIN emails e ON emails_fts.rowid = e.rowid
        WHERE emails_fts MATCH ?1
        ORDER BY rank
        LIMIT ?2
    ";
    let mut stmt = conn.prepare(sql).unwrap();
    stmt.query_map(&[&fts_query as &dyn ToSql, &limit][..], |row| {
        Ok(Hit { id: row.get(0)?, label: row.get(1)?, from_addr: row.get(2)?, snippet: row.get(3)? })
    })
    .unwrap()
    .collect::<Result<Vec<_>, _>>()
    .unwrap()
}

#[test]
fn test_search_returns_results() {
    let conn = create_test_db();
    let results = run_search(&conn, "rust", 50);
    assert!(!results.is_empty(), "Search for 'rust' should return results");
    assert_eq!(results[0].id, "id001");
    assert!(!results[0].from_addr.is_empty());
}

#[test]
fn test_search_snippet_highlighting() {
    let conn = create_test_db();
    let results = run_search(&conn, "async", 50);
    assert!(!results.is_empty());
    assert!(results[0].snippet.contains("<mark>"), "Snippet should contain <mark> tags: {}", results[0].snippet);
}

#[test]
fn test_search_matches_subject() {
    let conn = create_test_db();
    let results = run_search(&conn, "CSS Grid", 50);
    assert!(!results.is_empty(), "Should match text in subject");
    assert_eq!(results[0].id, "id002");
}

#[test]
fn test_search_matches_body() {
    let conn = create_test_db();
    let results = run_search(&conn, "pandas", 50);
    assert!(!results.is_empty(), "Should match text only in body");
    assert_eq!(results[0].id, "id003");
}

#[test]
fn test_search_matches_from_addr() {
    let conn = create_test_db();
    let results = run_search(&conn, "Startup Radar", 50);
    assert!(!results.is_empty(), "Should match sender name");
    assert_eq!(results[0].id, "id004");
}

#[test]
fn test_search_matches_label() {
    let conn = create_test_db();
    let results = run_search(&conn, "startup news", 50);
    assert!(!results.is_empty(), "Should match label name tokens");
    assert_eq!(results[0].label, "startup-news");
}

#[test]
fn test_search_empty_query() {
    let conn = create_test_db();
    let results = run_search(&conn, "", 50);
    assert!(results.is_empty(), "Empty query should return no results");

    let results = run_search(&conn, "   ", 50);
    assert!(results.is_empty(), "Whitespace query should return no results");
}

#[test]
fn test_search_no_results() {
    let conn = create_test_db();
    let results = run_search(&conn, "xyznonexistent", 50);
    assert!(results.is_empty(), "Non-matching query should return no results");
}
