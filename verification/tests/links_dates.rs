use loghunter::dates::{parse_date, Date};
use loghunter::links::extract;

fn date(y: u32, m: u32, d: u32) -> Date {
    Date { year: y, month: m, day: d }
}

fn chars(s: &str) -> Vec<char> {
    s.chars().collect()
}

#[test]
fn parse_date_accepts_well_formed() {
    assert_eq!(parse_date(&chars("2023-05-01")), Some(date(2023, 5, 1)));
    assert_eq!(parse_date(&chars("2024-02-29")), Some(date(2024, 2, 29)));
    assert_eq!(parse_date(&chars("0001-01-01")), Some(date(1, 1, 1)));
}

#[test]
fn parse_date_rejects_malformed() {
    assert_eq!(parse_date(&chars("2023-13-01")), None);
    assert_eq!(parse_date(&chars("2023-02-29")), None);
    assert_eq!(parse_date(&chars("2023-04-31")), None);
    assert_eq!(parse_date(&chars("2023-00-10")), None);
    assert_eq!(parse_date(&chars("2023-05-1")), None);
    assert_eq!(parse_date(&chars("2023/05/01")), None);
    assert_eq!(parse_date(&chars("")), None);
}

#[test]
fn extract_keeps_dated_link_in_range() {
    let html = r#"<html><body><a href="log-2023-05-01.zip">x</a></body></html>"#;
    let r = extract(html, &date(2023, 4, 1), &date(2023, 6, 1));
    assert_eq!(r, vec!["log-2023-05-01.zip".to_string()]);
}

#[test]
fn extract_includes_boundary_dates() {
    let html = r#"<a href="log-2023-04-01.zip">a</a><a href="log-2023-06-01.zip">b</a><a href="log-2023-03-31.zip">c</a><a href="log-2023-06-02.zip">d</a>"#;
    let r = extract(html, &date(2023, 4, 1), &date(2023, 6, 1));
    assert_eq!(
        r,
        vec!["log-2023-04-01.zip".to_string(), "log-2023-06-01.zip".to_string()]
    );
}

#[test]
fn extract_excludes_out_of_range() {
    let html = r#"<a href="log-2023-05-01.zip">x</a>"#;
    let r = extract(html, &date(2023, 6, 1), &date(2023, 12, 31));
    assert!(r.is_empty());
}

#[test]
fn extract_excludes_short_and_query_links() {
    let html = r#"<a href="?C=N;O=D">sort</a><a href="x.gz">short</a><a href="?log-2023-05-01.zip">query</a><a href="log-2023-05-01.zip">good</a>"#;
    let r = extract(html, &date(2023, 1, 1), &date(2023, 12, 31));
    assert_eq!(r, vec!["log-2023-05-01.zip".to_string()]);
}

#[test]
fn extract_excludes_undated_and_malformed() {
    let html = r#"<a href="readme.html">no date</a><a href="log-2023-13-05.zip">bad month</a>"#;
    let r = extract(html, &date(2023, 1, 1), &date(2023, 12, 31));
    assert!(r.is_empty());
}

#[test]
fn extract_uses_first_embedded_date() {
    let html = r#"<a href="x2023-01-01y2023-06-15.zip">two dates</a>"#;
    let in_range_for_first = extract(html, &date(2023, 1, 1), &date(2023, 1, 2));
    assert_eq!(in_range_for_first.len(), 1);
    let in_range_for_second = extract(html, &date(2023, 6, 1), &date(2023, 6, 30));
    assert!(in_range_for_second.is_empty());
}

#[test]
fn extract_on_unparseable_html_is_empty() {
    let r = extract("%%% not <html", &date(2023, 1, 1), &date(2023, 12, 31));
    assert!(r.is_empty());
}
