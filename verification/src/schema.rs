//! The SQLite schema of the index. Kept in one place so that the migration, the
//! re-index path and the tests cannot drift apart.
use vstd::prelude::*;
use crate::text::{chars_of, extend_chars, string_of};

verus! {

/// Schema for the `emails` table.
///
/// `id` is a label-scoped composite key, `"<label>/<message_id>"`, not the on-disk
/// directory name; `dir_name` is the directory, used to rebuild the path to the
/// body; `message_id` is the full Gmail message ID. Keep them separate.
pub const EMAILS_TABLE_SQL: &'static str = "
    CREATE TABLE IF NOT EXISTS emails (
        id TEXT PRIMARY KEY,
        label TEXT NOT NULL,
        dir_name TEXT NOT NULL DEFAULT '',
        message_id TEXT NOT NULL DEFAULT '',
        subject TEXT NOT NULL DEFAULT '',
        from_addr TEXT NOT NULL DEFAULT '',
        body TEXT NOT NULL DEFAULT '',
        date TEXT,
        body_filename TEXT NOT NULL,
        body_format TEXT NOT NULL DEFAULT 'html',
        md_filename TEXT,
        is_read INTEGER NOT NULL DEFAULT 0,
        is_bookmarked INTEGER NOT NULL DEFAULT 0
    );
";

/// Indexes for the `emails` table. `idx_emails_identity` guards against indexing
/// one physical body file twice; it is created after the `dir_name` backfill.
pub const EMAILS_INDEX_SQL: &'static str = "
    CREATE INDEX IF NOT EXISTS idx_emails_label_date
        ON emails(label, date DESC);

    CREATE INDEX IF NOT EXISTS idx_emails_bookmarked
        ON emails(is_bookmarked) WHERE is_bookmarked = 1;

    CREATE UNIQUE INDEX IF NOT EXISTS idx_emails_identity
        ON emails(label, dir_name, body_filename);
";

/// Schema for the FTS5 external-content index. Without `IF NOT EXISTS`: callers
/// check first, and the re-index path drops and recreates it.
pub const FTS_TABLE_SQL: &'static str = "
    CREATE VIRTUAL TABLE emails_fts USING fts5(
        subject, body, from_addr, label,
        content='emails', content_rowid='rowid',
        tokenize='porter unicode61'
    );
";

/// The statements that clear the index ahead of a full re-scan: the FTS5 table is
/// dropped and recreated (an external-content table cannot be emptied with
/// `DELETE`), and the emails are deleted.
pub open spec fn reset_statements() -> Seq<char> {
    "DROP TABLE IF EXISTS emails_fts;\nDELETE FROM emails;\n"@ + FTS_TABLE_SQL@
}

/// The batch that drops and recreates the derived index tables.
pub fn reset_index_sql() -> (r: String)
    ensures
        r@ == reset_statements(),
{
    let mut out = chars_of("DROP TABLE IF EXISTS emails_fts;\nDELETE FROM emails;\n");
    extend_chars(&mut out, &chars_of(FTS_TABLE_SQL));
    string_of(&out)
}

} // verus!
