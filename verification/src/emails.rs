//! Browsing: the list queries the email list runs, and how a body reaches the
//! viewer. A plain-text body is escaped and wrapped in a minimal HTML document here,
//! because the result goes straight into an iframe `srcdoc`.
use vstd::prelude::*;
use crate::scan::opt_text;
use crate::text::{chars_of, extend_chars, string_of};

verus! {

/// Label with email count and unread count.
pub struct LabelInfo {
    pub name: String,
    pub count: i64,
    pub unread_count: i64,
}

/// Email summary for the list view (no body).
pub struct EmailSummary {
    pub id: String,
    pub label: String,
    pub subject: String,
    pub from_addr: String,
    pub date: Option<String>,
    pub is_read: bool,
    pub is_bookmarked: bool,
}

/// The HTML text of one character.
pub open spec fn escape_char(c: char) -> Seq<char> {
    if c == '&' {
        seq!['&', 'a', 'm', 'p', ';']
    } else if c == '<' {
        seq!['&', 'l', 't', ';']
    } else if c == '>' {
        seq!['&', 'g', 't', ';']
    } else {
        seq![c]
    }
}

/// `s` escaped for an HTML text node: `&`, `<` and `>` become entities.
pub open spec fn escape(s: Seq<char>) -> Seq<char>
    decreases s.len(),
{
    if s.len() == 0 {
        seq![]
    } else {
        escape(s.drop_last()) + escape_char(s.last())
    }
}

/// Escapes text for interpolation into an HTML text node.
pub fn escape_html(text: &str) -> (r: String)
    ensures
        r@ == escape(text@),
{
    let v = chars_of(text);
    let mut out: Vec<char> = Vec::new();
    let mut i: usize = 0;
    while i < v.len()
        invariant
            0 <= i <= v.len(),
            v@ == text@,
            out@ == escape(v@.take(i as int)),
        decreases v.len() - i,
    {
        let c = v[i];
        let ghost before = out@;
        assert(v@.take(i + 1).drop_last() =~= v@.take(i as int));
        assert(v@.take(i + 1).last() == c);
        if c == '&' {
            out.push('&');
            out.push('a');
            out.push('m');
            out.push('p');
            out.push(';');
        } else if c == '<' {
            out.push('&');
            out.push('l');
            out.push('t');
            out.push(';');
        } else if c == '>' {
            out.push('&');
            out.push('g');
            out.push('t');
            out.push(';');
        } else {
            out.push(c);
        }
        assert(out@ =~= before + escape_char(c));
        i = i + 1;
    }
    assert(v@.take(v@.len() as int) =~= v@);
    string_of(&out)
}

/// The document head a plain-text body is wrapped in: layout only, no colours, so
/// the viewer's colour scheme decides how it reads.
pub open spec fn text_page_head() -> Seq<char> {
    "<!DOCTYPE html>\n<html><head><meta charset=\"utf-8\"><style>\n\
     body { margin: 0; padding: 32px 40px; }\n\
     pre.plaintext {\n\
     margin: 0; max-width: 78ch;\n\
     font-family: ui-monospace, SFMono-Regular, \"SF Mono\", Menlo, Consolas, monospace;\n\
     font-size: 13px; line-height: 1.65;\n\
     white-space: pre-wrap; overflow-wrap: anywhere;\n\
     }\n</style></head><body><pre class=\"plaintext\">"@
}

/// The end of the document a plain-text body is wrapped in.
pub open spec fn text_page_tail() -> Seq<char> {
    "</pre></body></html>"@
}

/// Wraps a plain-text email body in a minimal HTML document for the viewer.
pub fn render_text_body(text: &str) -> (r: String)
    ensures
        r@ == text_page_head() + escape(text@) + text_page_tail(),
{
    let head = chars_of(
        "<!DOCTYPE html>\n<html><head><meta charset=\"utf-8\"><style>\n\
         body { margin: 0; padding: 32px 40px; }\n\
         pre.plaintext {\n\
         margin: 0; max-width: 78ch;\n\
         font-family: ui-monospace, SFMono-Regular, \"SF Mono\", Menlo, Consolas, monospace;\n\
         font-size: 13px; line-height: 1.65;\n\
         white-space: pre-wrap; overflow-wrap: anywhere;\n\
         }\n</style></head><body><pre class=\"plaintext\">",
    );
    let tail = chars_of("</pre></body></html>");
    let escaped = escape_html(text);
    let mut out = head;
    let ev = chars_of(escaped.as_str());
    extend_chars(&mut out, &ev);
    extend_chars(&mut out, &tail);
    string_of(&out)
}

/// What the viewer shows for a body: a text body wrapped, anything else as stored.
pub open spec fn presented(body_format: Seq<char>, content: Seq<char>) -> Seq<char> {
    if body_format == "text"@ {
        text_page_head() + escape(content) + text_page_tail()
    } else {
        content
    }
}

/// The document handed to the viewer for a body of the given format.
pub fn present_body(body_format: &String, content: String) -> (r: String)
    ensures
        r@ == presented(body_format@, content@),
{
    let text_format = String::from_str("text");
    if *body_format == text_format {
        render_text_body(content.as_str())
    } else {
        content
    }
}

/// The extra condition a list filter adds: unread or bookmarked emails only.
pub open spec fn filter_condition(filter: Option<Seq<char>>) -> Seq<char> {
    match filter {
        Some(f) => if f == "unread"@ {
            " AND is_read = 0"@
        } else if f == "bookmarked"@ {
            " AND is_bookmarked = 1"@
        } else {
            seq![]
        },
        None => seq![],
    }
}

/// The order a list sort asks for: oldest first, by subject, or newest first.
pub open spec fn sort_order(sort: Option<Seq<char>>) -> Seq<char> {
    match sort {
        Some(s) => if s == "date_asc"@ {
            "date ASC NULLS LAST"@
        } else if s == "subject"@ {
            "subject COLLATE NOCASE ASC"@
        } else {
            "date DESC NULLS LAST"@
        },
        None => "date DESC NULLS LAST"@,
    }
}

fn filter_condition_exec(filter: &Option<String>) -> (r: String)
    ensures
        r@ == filter_condition(opt_text(*filter)),
{
    match filter {
        Some(f) => {
            if *f == String::from_str("unread") {
                String::from_str(" AND is_read = 0")
            } else if *f == String::from_str("bookmarked") {
                String::from_str(" AND is_bookmarked = 1")
            } else {
                String::new()
            }
        },
        None => String::new(),
    }
}

fn sort_order_exec(sort: &Option<String>) -> (r: String)
    ensures
        r@ == sort_order(opt_text(*sort)),
{
    match sort {
        Some(s) => {
            if *s == String::from_str("date_asc") {
                String::from_str("date ASC NULLS LAST")
            } else if *s == String::from_str("subject") {
                String::from_str("subject COLLATE NOCASE ASC")
            } else {
                String::from_str("date DESC NULLS LAST")
            }
        },
        None => String::from_str("date DESC NULLS LAST"),
    }
}

/// The query for one page of a label's emails: `?1` is the label, `?2` the limit,
/// `?3` the offset.
pub open spec fn email_list_query(sort: Option<Seq<char>>, filter: Option<Seq<char>>) -> Seq<char> {
    "SELECT id, label, subject, from_addr, date, is_read, is_bookmarked\n         FROM emails\n         WHERE label = ?1"@
        + filter_condition(filter) + "\n         ORDER BY "@ + sort_order(sort)
        + "\n         LIMIT ?2 OFFSET ?3"@
}

/// Builds the paginated list query for a label, with its sort and filter.
pub fn email_list_sql(sort: &Option<String>, filter: &Option<String>) -> (r: String)
    ensures
        r@ == email_list_query(opt_text(*sort), opt_text(*filter)),
{
    let mut out = chars_of(
        "SELECT id, label, subject, from_addr, date, is_read, is_bookmarked\n         FROM emails\n         WHERE label = ?1",
    );
    let cond = filter_condition_exec(filter);
    extend_chars(&mut out, &chars_of(cond.as_str()));
    extend_chars(&mut out, &chars_of("\n         ORDER BY "));
    let order = sort_order_exec(sort);
    extend_chars(&mut out, &chars_of(order.as_str()));
    extend_chars(&mut out, &chars_of("\n         LIMIT ?2 OFFSET ?3"));
    string_of(&out)
}

/// The query counting a label's emails under a filter: `?1` is the label.
pub open spec fn email_count_query(filter: Option<Seq<char>>) -> Seq<char> {
    "SELECT COUNT(*) FROM emails WHERE label = ?1"@ + filter_condition(filter)
}

/// Builds the count query for a label, with its filter.
pub fn email_count_sql(filter: &Option<String>) -> (r: String)
    ensures
        r@ == email_count_query(opt_text(*filter)),
{
    let mut out = chars_of("SELECT COUNT(*) FROM emails WHERE label = ?1");
    let cond = filter_condition_exec(filter);
    extend_chars(&mut out, &chars_of(cond.as_str()));
    string_of(&out)
}

} // verus!
