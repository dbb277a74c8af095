use newsletter_archive::frontmatter::{
    normalize_date, scalar_as_string, split_frontmatter, Frontmatter, YamlScalar,
};

fn scalar(v: Option<&serde_yaml::Value>) -> YamlScalar {
    match v {
        None => YamlScalar::Missing,
        Some(serde_yaml::Value::Null) => YamlScalar::Null,
        Some(serde_yaml::Value::String(s)) => YamlScalar::Text(s.clone()),
        Some(serde_yaml::Value::Number(n)) => YamlScalar::Number(n.to_string()),
        Some(other) => YamlScalar::Rendered(serde_yaml::to_string(other).unwrap_or_default()),
    }
}

fn text_field(m: &serde_yaml::Mapping, key: &str) -> String {
    m.get(key).and_then(|v| v.as_str()).unwrap_or("").to_string()
}

/// Front matter and body of a markdown document, as the application reads them.
fn parse_frontmatter(content: &str) -> Result<(Frontmatter, String), String> {
    let parts = split_frontmatter(content)?;
    let value: serde_yaml::Value =
        serde_yaml::from_str(&parts.yaml).map_err(|e| format!("YAML parse error: {}", e))?;
    let m = value.as_mapping().cloned().unwrap_or_default();
    Ok((
        Frontmatter {
            id: scalar_as_string(scalar(m.get("id"))),
            subject: text_field(&m, "subject"),
            from: text_field(&m, "from"),
            to: text_field(&m, "to"),
            date: scalar_as_string(scalar(m.get("date"))),
            labels: Vec::new(),
            label_ids: Vec::new(),
        },
        parts.body,
    ))
}

#[test]
fn test_parse_frontmatter() {
    let content = r#"---
subject: "Test Subject"
from: "Sender <test@example.com>"
to: ""
date: 2021-05-11 16:34:38
labels: ["Test", "INBOX"]
label_ids: ["Label_123", "INBOX"]
---
This is the body text of the email.
More content here.
"#;
    let (fm, body) = parse_frontmatter(content).unwrap();
    assert_eq!(fm.subject, "Test Subject");
    assert_eq!(fm.from, "Sender <test@example.com>");
    assert!(fm.date.is_some());
    assert!(body.contains("body text"));
}

#[test]
fn test_no_frontmatter() {
    let content = "Just plain text without frontmatter";
    assert!(parse_frontmatter(content).is_err());
}

#[test]
fn split_gives_yaml_and_trimmed_body() {
    let parts = split_frontmatter("\u{feff}---\na: 1\n---\n\n  body  \n").unwrap();
    assert_eq!(parts.yaml, "\na: 1");
    assert_eq!(parts.body, "body");
}

#[test]
fn split_reports_each_missing_delimiter() {
    match split_frontmatter("no dashes") {
        Err(e) => assert_eq!(e, "No frontmatter delimiter found"),
        Ok(_) => panic!("expected an error"),
    }
    match split_frontmatter("---\na: 1\nno closing line") {
        Err(e) => assert_eq!(e, "No closing frontmatter delimiter"),
        Ok(_) => panic!("expected an error"),
    }
}

#[test]
fn split_stops_at_the_first_closing_line() {
    let parts = split_frontmatter("---\na: 1\n---\nbody\n---\nmore").unwrap();
    assert_eq!(parts.yaml, "\na: 1");
    assert_eq!(parts.body, "body\n---\nmore");
}

#[test]
fn lenient_scalars_become_text() {
    assert_eq!(scalar_as_string(YamlScalar::Missing), None);
    assert_eq!(scalar_as_string(YamlScalar::Null), None);
    assert_eq!(scalar_as_string(YamlScalar::Text(String::new())), None);
    assert_eq!(scalar_as_string(YamlScalar::Text(" x ".to_string())), Some(" x ".to_string()));
    assert_eq!(
        scalar_as_string(YamlScalar::Number("1637675546614607".to_string())),
        Some("1637675546614607".to_string())
    );
    assert_eq!(scalar_as_string(YamlScalar::Rendered("null\n".to_string())), None);
    assert_eq!(scalar_as_string(YamlScalar::Rendered("~\n".to_string())), None);
    assert_eq!(scalar_as_string(YamlScalar::Rendered("  \n".to_string())), None);
    assert_eq!(scalar_as_string(YamlScalar::Rendered("true\n".to_string())), Some("true".to_string()));
    assert_eq!(
        scalar_as_string(YamlScalar::Rendered("'2021-05-11 16:34:38'\n".to_string())),
        Some("2021-05-11 16:34:38".to_string())
    );
    assert_eq!(scalar_as_string(YamlScalar::Rendered("\"'x'\"".to_string())), Some("'x'".to_string()));
}

#[test]
fn dates_are_trimmed_and_blank_dates_dropped() {
    assert_eq!(normalize_date("  2024-01-15 10:00:00 \n"), Some("2024-01-15 10:00:00".to_string()));
    assert_eq!(normalize_date(" \t "), None);
    assert_eq!(normalize_date(""), None);
}
