//! Link discovery: the hyperlink targets of an HTML index page, filtered to
//! those that carry an embedded `YYYY-MM-DD` date inside a requested range.

use vstd::prelude::*;

use crate::dates::{date_le, embedded_date, Date};
use crate::scan::chars_vec;

verus! {

/// The `href` targets of the hyperlink elements of an HTML document, in
/// document order; what the HTML parser finds depends on the text alone.
pub uninterp spec fn hrefs_of(html: Seq<char>) -> Seq<Seq<char>>;

pub open spec fn str_views(s: Seq<String>) -> Seq<Seq<char>> {
    s.map_values(|x: String| x@)
}

/// Relies on scraper's Html::parse_document, Selector::parse and the select
/// iterator: the href attribute of each `a` element of the parsed document,
/// in document order.
#[verifier::external_body]
fn html_hrefs(html: &str) -> (r: Vec<String>)
    ensures
        str_views(r@) == hrefs_of(html@),
{
    let doc = scraper::Html::parse_document(html);
    let sel = scraper::Selector::parse("a").unwrap();
    let mut out = Vec::new();
    for el in doc.select(&sel) {
        if let Some(h) = el.value().attr("href") {
            out.push(h.to_string());
        }
    }
    out
}

/// A link is kept when its target is at least five characters long, is not a
/// query/control link, and its embedded date lies inside [start, end],
/// inclusive on both ends.
pub open spec fn keeps_link(h: Seq<char>, start: Date, end: Date) -> bool {
    &&& h.len() >= 5
    &&& h[0] != '?'
    &&& match embedded_date(h) {
        Some(d) => date_le(start, d) && date_le(d, end),
        None => false,
    }
}

/// Decides whether one candidate target is kept.
pub fn keep_link(h: &String, start: &Date, end: &Date) -> (r: bool)
    ensures
        r == keeps_link(h@, *start, *end),
{
    let cv = chars_vec(h.as_str());
    if cv.len() < 5 {
        return false;
    }
    if cv[0] == '?' {
        return false;
    }
    match crate::dates::extract_embedded_date(&cv) {
        Some(d) => start.le(&d) && d.le(end),
        None => false,
    }
}

/// The kept link targets of a document, in document order.
pub open spec fn extract_model(html: Seq<char>, start: Date, end: Date) -> Seq<Seq<char>> {
    hrefs_of(html).filter(|h: Seq<char>| keeps_link(h, start, end))
}

/// Parses an HTML index and returns every hyperlink target whose embedded
/// date falls inside [start, end], in document order. Targets shorter than
/// five characters, query links, undated targets and targets whose first
/// dated substring is not a well-formed date are dropped.
pub fn extract(html: &str, start: &Date, end: &Date) -> (r: Vec<String>)
    ensures
        str_views(r@) == extract_model(html@, *start, *end),
{
    let hrefs = html_hrefs(html);
    let mut out: Vec<String> = Vec::new();
    let mut i: usize = 0;
    let n = hrefs.len();
    let ghost pred = |h: Seq<char>| keeps_link(h, *start, *end);
    proof {
        reveal(Seq::filter);
    }
    while i < n
        invariant
            n == hrefs@.len(),
            i <= n,
            str_views(hrefs@) == hrefs_of(html@),
            pred == (|h: Seq<char>| keeps_link(h, *start, *end)),
            str_views(out@) == str_views(hrefs@).take(i as int).filter(pred),
        decreases n - i,
    {
        let h = &hrefs[i];
        let ghost old_out = out@;
        let keep = keep_link(h, start, end);
        if keep {
            out.push(h.clone());
        }
        proof {
            reveal(Seq::filter);
            let whole = str_views(hrefs@);
            assert(whole.take(i + 1).drop_last() =~= whole.take(i as int));
            assert(whole.take(i + 1).last() == h@);
            if keep {
                assert(str_views(out@) =~= str_views(old_out) + seq![h@]);
                assert(whole.take(i + 1).filter(pred) == whole.take(i as int).filter(pred).push(
                    h@,
                ));
                assert(str_views(old_out) + seq![h@] =~= str_views(old_out).push(h@));
            } else {
                assert(whole.take(i + 1).filter(pred) == whole.take(i as int).filter(pred));
            }
        }
        i = i + 1;
    }
    proof {
        assert(str_views(hrefs@).take(n as int) =~= str_views(hrefs@));
    }
    out
}

/// A link whose embedded date lies strictly outside [start, end] is never
/// kept; one whose target is long enough, is no query link, and carries an
/// embedded date inside the range, inclusive at both ends, is always kept.
pub proof fn lemma_date_range_filter(h: Seq<char>, start: Date, end: Date)
    ensures
        (match embedded_date(h) {
            Some(d) => !(date_le(start, d) && date_le(d, end)),
            None => true,
        }) ==> !keeps_link(h, start, end),
        (h.len() >= 5 && h[0] != '?' && match embedded_date(h) {
            Some(d) => date_le(start, d) && date_le(d, end),
            None => false,
        }) ==> keeps_link(h, start, end),
{
}

/// A target shorter than five characters, or one that starts with `?`, is
/// never kept, whatever date it carries.
pub proof fn lemma_short_or_query_excluded(h: Seq<char>, start: Date, end: Date)
    ensures
        h.len() < 5 ==> !keeps_link(h, start, end),
        h.len() > 0 && h[0] == '?' ==> !keeps_link(h, start, end),
{
}

/// Every kept document link appears in the extractor's result, and
/// everything in the result is a kept link: the extractor includes a link
/// exactly when `keeps_link` holds of it.
pub proof fn lemma_extract_membership(html: Seq<char>, start: Date, end: Date, i: int)
    ensures
        0 <= i < hrefs_of(html).len() && keeps_link(hrefs_of(html)[i], start, end)
            ==> extract_model(html, start, end).contains(hrefs_of(html)[i]),
        0 <= i < extract_model(html, start, end).len() ==> keeps_link(
            extract_model(html, start, end)[i],
            start,
            end,
        ) && hrefs_of(html).contains(extract_model(html, start, end)[i]),
{
    let pred = |h: Seq<char>| keeps_link(h, start, end);
    let hrefs = hrefs_of(html);
    if 0 <= i < hrefs.len() && pred(hrefs[i]) {
        hrefs.lemma_filter_contains(pred, i);
    }
    if 0 <= i < hrefs.filter(pred).len() {
        hrefs.lemma_filter_pred(pred, i);
        assert(hrefs.filter(pred).contains(hrefs.filter(pred)[i]));
        hrefs.lemma_filter_contains_rev(pred, hrefs.filter(pred)[i]);
    }
}

} // verus!
