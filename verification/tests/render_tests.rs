use loghunter::render::render_match;
use loghunter::scan::MatchEvent;

fn event(name: &str, preview: &str) -> MatchEvent {
    MatchEvent { display_name: name.to_string(), preview: preview.to_string() }
}

#[test]
fn renders_plain_record() {
    let r = render_match(&event(
        "log-2023-05-01.zip > zip:a.log",
        "2023-05-01 ERROR disk full",
    ));
    assert_eq!(
        r,
        "{\"type\": \"match\", \"filename\": \"log-2023-05-01.zip > zip:a.log\", \
         \"matches_preview\": \"2023-05-01 ERROR disk full\"}"
    );
}

#[test]
fn escapes_json_specials() {
    let r = render_match(&event("a\"b", "c\\d"));
    assert_eq!(
        r,
        "{\"type\": \"match\", \"filename\": \"a\\\"b\", \"matches_preview\": \"c\\\\d\"}"
    );
}

#[test]
fn escapes_control_characters() {
    let r = render_match(&event("x", "a\tb\u{1}c"));
    assert_eq!(
        r,
        "{\"type\": \"match\", \"filename\": \"x\", \"matches_preview\": \"a\\tb\\u0001c\"}"
    );
}

#[test]
fn rendered_record_is_valid_json() {
    let r = render_match(&event("file \"x\"", "tab\there"));
    let v: serde_json::Value = serde_json::from_str(&r).unwrap();
    assert_eq!(v["type"], "match");
    assert_eq!(v["filename"], "file \"x\"");
    assert_eq!(v["matches_preview"], "tab\there");
}
