//! Writing the scan result into the index: the row each email becomes, the
//! progress reported along the way, and the time stamp of the last index run.
use vstd::prelude::*;
use crate::scan::ParsedEmail;
use crate::state::{restored, ExistingState};
use crate::text::{chars_of, string_of};

verus! {

/// Progress report sent to the frontend during indexing.
pub struct IndexProgress {
    pub current: usize,
    pub total: usize,
    pub label: String,
    /// `"scanning"`, `"indexing"` or `"done"`.
    pub phase: String,
}

impl IndexProgress {
    /// Reported once, before the directories are walked.
    pub fn scanning() -> (p: IndexProgress)
        ensures
            p.current == 0,
            p.total == 0,
            p.label@.len() == 0,
            p.phase@ == "scanning"@,
    {
        IndexProgress { current: 0, total: 0, label: String::new(), phase: String::from_str("scanning") }
    }

    /// Reported after each batch: how many emails are in, out of how many, and the
    /// label of the batch's first email.
    pub fn indexing(current: usize, total: usize, label: String) -> (p: IndexProgress)
        ensures
            p.current == current,
            p.total == total,
            p.label@ == label@,
            p.phase@ == "indexing"@,
    {
        IndexProgress { current, total, label, phase: String::from_str("indexing") }
    }

    /// Reported when the index is complete.
    pub fn done(total: usize) -> (p: IndexProgress)
        ensures
            p.current == total,
            p.total == total,
            p.label@.len() == 0,
            p.phase@ == "done"@,
    {
        IndexProgress { current: total, total, label: String::new(), phase: String::from_str("done") }
    }
}

/// How many emails are inserted per transaction.
pub const BATCH_SIZE: usize = 500;

/// The values of one `emails` row.
pub struct EmailRow {
    pub id: String,
    pub label: String,
    pub dir_name: String,
    pub message_id: String,
    pub subject: String,
    pub from_addr: String,
    pub body: String,
    pub date: Option<String>,
    pub body_filename: String,
    pub body_format: String,
    pub md_filename: String,
    pub is_read: i32,
    pub is_bookmarked: i32,
}

pub open spec fn flag(b: bool) -> i32 {
    if b {
        1
    } else {
        0
    }
}

/// The row a scanned email becomes, with its read/bookmark state restored from
/// before the re-index.
pub fn email_row(email: &ParsedEmail, existing: &ExistingState) -> (r: EmailRow)
    ensures
        r.id@ == email.uid@,
        r.label@ == email.label@,
        r.dir_name@ == email.dir_name@,
        r.message_id@ == email.message_id@,
        r.subject@ == email.subject@,
        r.from_addr@ == email.from_addr@,
        r.body@ == email.body_text@,
        crate::scan::opt_text(r.date) == crate::scan::opt_text(email.date),
        r.body_filename@ == email.body_filename@,
        r.body_format@ == email.body_format.name(),
        r.md_filename@ == email.md_filename@,
        ({
            let st = restored(
                existing.uid_map(),
                existing.location_map(),
                email.uid@,
                (email.label@, email.dir_name@, email.body_filename@),
            );
            r.is_read == flag(st.0) && r.is_bookmarked == flag(st.1)
        }),
{
    let (is_read, is_bookmarked) = existing.lookup(email);
    let date = match &email.date {
        Some(d) => Some(d.clone()),
        None => None,
    };
    EmailRow {
        id: email.uid.clone(),
        label: email.label.clone(),
        dir_name: email.dir_name.clone(),
        message_id: email.message_id.clone(),
        subject: email.subject.clone(),
        from_addr: email.from_addr.clone(),
        body: email.body_text.clone(),
        date,
        body_filename: email.body_filename.clone(),
        body_format: String::from_str(email.body_format.as_str()),
        md_filename: email.md_filename.clone(),
        is_read: if is_read { 1 } else { 0 },
        is_bookmarked: if is_bookmarked { 1 } else { 0 },
    }
}

/// The decimal digit for `d`.
pub open spec fn digit(d: nat) -> char {
    ((48 + d) as u32) as char
}

/// The decimal text of `n`, without leading zeros.
pub open spec fn decimal(n: nat) -> Seq<char>
    decreases n,
{
    if n < 10 {
        seq![digit(n)]
    } else {
        decimal(n / 10) + seq![digit(n % 10)]
    }
}

fn push_decimal(n: u64, out: &mut Vec<char>)
    ensures
        final(out)@ == old(out)@ + decimal(n as nat),
    decreases n,
{
    if n >= 10 {
        push_decimal(n / 10, out);
    }
    let d: u8 = (n % 10) as u8;
    let c = (d + 48) as char;
    assert(c == digit((n % 10) as nat));
    out.push(c);
}

/// The decimal text of a count of seconds.
pub fn timestamp_text(secs: u64) -> (r: String)
    ensures
        r@ == decimal(secs as nat),
{
    let mut out: Vec<char> = Vec::new();
    push_decimal(secs, &mut out);
    string_of(&out)
}

/// The system clock's time, `std::time::SystemTime`.
#[verifier::external_type_specification]
#[verifier::external_body]
pub struct ExSystemTime(std::time::SystemTime);

/// The error `SystemTime::duration_since` gives for a time before its argument.
#[verifier::external_type_specification]
#[verifier::external_body]
pub struct ExSystemTimeError(std::time::SystemTimeError);

/// `SystemTime::now`: the current time of the system clock. Nothing is stated of it.
#[verifier::external_body]
fn system_now() -> std::time::SystemTime {
    std::time::SystemTime::now()
}

/// `SystemTime::duration_since(UNIX_EPOCH)`: how long after the Unix epoch `t` is, or
/// an error when the clock is set before it. Nothing is stated of the value.
#[verifier::external_body]
fn since_unix_epoch(t: &std::time::SystemTime) -> std::result::Result<std::time::Duration, std::time::SystemTimeError> {
    t.duration_since(std::time::SystemTime::UNIX_EPOCH)
}

/// `Duration::as_secs`: the whole seconds of a duration. A `Duration` is opaque here,
/// so nothing is stated of the count.
#[verifier::external_body]
fn whole_secs(d: &std::time::Duration) -> u64 {
    d.as_secs()
}

/// The text stored for a clock reading: its decimal seconds since the Unix epoch,
/// or `0` when the clock is set before the epoch (`None`).
pub fn seconds_text(secs: Option<u64>) -> (r: String)
    ensures
        r@ == decimal(
            match secs {
                Some(x) => x as nat,
                None => 0,
            },
        ),
{
    match secs {
        Some(x) => timestamp_text(x),
        None => timestamp_text(0),
    }
}

/// The current time as decimal seconds since the Unix epoch (zero when the clock is
/// set before the epoch), stored as `last_indexed`.
pub fn chrono_now() -> (r: String)
    ensures
        exists|t: u64| r@ == decimal(t as nat),
{
    let now = system_now();
    let secs: Option<u64> = match since_unix_epoch(&now) {
        Ok(d) => Some(whole_secs(&d)),
        Err(_) => None,
    };
    seconds_text(secs)
}

} // verus!
