//! Byte-pattern scanning with line-boundary extraction: every occurrence of a
//! fixed pattern is walked in position order, the enclosing line of each
//! accepted occurrence is decoded, truncated and escaped, and at most one
//! event is reported per line, capped at 100 events per buffer.

use vstd::prelude::*;
use vstd::slice::slice_subrange;

verus! {

/// The pattern occurs in `data` at position `i`.
pub open spec fn is_match_at(data: Seq<u8>, pat: Seq<u8>, i: int) -> bool {
    0 <= i && i + pat.len() <= data.len() && data.subrange(i, i + pat.len()) == pat
}

/// The start of the line containing position `i`: one past the nearest
/// newline before `i`, or 0 when there is none.
pub open spec fn line_start(data: Seq<u8>, i: int) -> int
    decreases i,
{
    if i <= 0 {
        0
    } else if data[i - 1] == 10 {
        i
    } else {
        line_start(data, i - 1)
    }
}

/// The end of the line containing position `i`: the nearest newline at or
/// after `i`, or the buffer length when there is none.
pub open spec fn line_end(data: Seq<u8>, i: int) -> int
    decreases data.len() - i,
{
    if i < 0 || i >= data.len() {
        data.len() as int
    } else if data[i] == 10 {
        i
    } else {
        line_end(data, i + 1)
    }
}

/// How far the search position advances past a found occurrence: the pattern
/// length, or one position for an empty pattern.
pub open spec fn step_of(pat: Seq<u8>) -> int {
    if pat.len() == 0 {
        1
    } else {
        pat.len() as int
    }
}

/// The positions of the accepted occurrences, walking the buffer from `pos`:
/// an occurrence inside an already-reported line (before `last_end`) is
/// skipped, and the walk stops after the 100th acceptance.
pub open spec fn scan_from(
    data: Seq<u8>,
    pat: Seq<u8>,
    pos: int,
    last_end: int,
    count: int,
) -> Seq<int>
    decreases data.len() + 1 - pos,
{
    if pos < 0 || pos > data.len() {
        Seq::empty()
    } else if is_match_at(data, pat, pos) {
        if pos < last_end {
            scan_from(data, pat, pos + step_of(pat), last_end, count)
        } else if count >= 100 {
            Seq::empty()
        } else {
            seq![pos] + scan_from(data, pat, pos + step_of(pat), line_end(data, pos), count + 1)
        }
    } else {
        scan_from(data, pat, pos + 1, last_end, count)
    }
}

/// The accepted occurrence positions for a whole buffer.
pub open spec fn scan_model(data: Seq<u8>, pat: Seq<u8>) -> Seq<int> {
    scan_from(data, pat, 0, 0, 0)
}

pub open spec fn all_ascii(b: Seq<u8>) -> bool {
    forall|i: int| 0 <= i < b.len() ==> b[i] < 128
}

pub open spec fn ascii_chars(b: Seq<u8>) -> Seq<char> {
    b.map_values(|x: u8| x as char)
}

/// What `String::from_utf8_lossy` yields on bytes that are not valid UTF-8;
/// it depends on the bytes alone.
pub uninterp spec fn lossy_of(b: Seq<u8>) -> Seq<char>;

/// The text decoded from a line's bytes: valid UTF-8 decodes to its own
/// characters, anything else decodes lossily.
pub open spec fn decoded_of(b: Seq<u8>) -> Seq<char> {
    if vstd::utf8::valid_utf8(b) {
        vstd::utf8::decode_utf8(b)
    } else {
        lossy_of(b)
    }
}

/// Pure ASCII bytes are valid UTF-8 and decode to themselves, byte by byte.
pub proof fn lemma_ascii_decodes(b: Seq<u8>)
    requires
        all_ascii(b),
    ensures
        vstd::utf8::valid_utf8(b),
        vstd::utf8::decode_utf8(b) == ascii_chars(b),
{
    let chars = ascii_chars(b);
    assert(vstd::utf8::is_ascii_chars(chars)) by {
        assert forall|i| 0 <= i < chars.len() implies '\0' <= #[trigger] chars[i] <= '\u{7f}' by {
            assert(chars[i] == b[i] as char);
        }
    }
    vstd::utf8::is_ascii_chars_encode_utf8(chars);
    assert(vstd::utf8::encode_utf8(chars) =~= b) by {
        assert forall|i: int| 0 <= i < b.len() implies vstd::utf8::encode_utf8(chars)[i]
            == b[i] by {
            assert(chars[i] as u8 == vstd::utf8::encode_utf8(chars)[i]);
            assert(chars[i] == b[i] as char);
        }
    }
    vstd::utf8::encode_utf8_valid_utf8(chars);
    vstd::utf8::encode_utf8_decode_utf8(chars);
}

/// A decoded line clipped to its first 300 characters.
pub open spec fn clip300(s: Seq<char>) -> Seq<char> {
    if s.len() <= 300 {
        s
    } else {
        s.take(300)
    }
}

/// Escaping of one character: a double quote or a backslash is preceded by
/// a backslash, everything else stays.
pub open spec fn escape_char(c: char) -> Seq<char> {
    if c == '"' {
        seq!['\\', '"']
    } else if c == '\\' {
        seq!['\\', '\\']
    } else {
        seq![c]
    }
}

pub open spec fn escape_seq(s: Seq<char>) -> Seq<char>
    decreases s.len(),
{
    if s.len() == 0 {
        Seq::empty()
    } else {
        escape_seq(s.drop_last()) + escape_char(s.last())
    }
}

/// The preview reported for an occurrence at `i`: the enclosing line,
/// decoded, clipped to 300 characters, and escaped.
pub open spec fn preview_of(data: Seq<u8>, i: int) -> Seq<char> {
    escape_seq(clip300(decoded_of(data.subrange(line_start(data, i), line_end(data, i)))))
}

/// One event per accepted occurrence: the fixed display name and the
/// occurrence's preview.
pub open spec fn events_from(
    data: Seq<u8>,
    pat: Seq<u8>,
    name: Seq<char>,
    pos: int,
    last_end: int,
    count: int,
) -> Seq<(Seq<char>, Seq<char>)> {
    scan_from(data, pat, pos, last_end, count).map_values(|i: int| (name, preview_of(data, i)))
}

pub open spec fn scan_events(data: Seq<u8>, pat: Seq<u8>, name: Seq<char>) -> Seq<
    (Seq<char>, Seq<char>),
> {
    events_from(data, pat, name, 0, 0, 0)
}

/// A single reported match: the display name of the scanned entry and the
/// escaped, length-capped text of the line holding the match.
pub struct MatchEvent {
    pub display_name: String,
    pub preview: String,
}

pub open spec fn event_views(s: Seq<MatchEvent>) -> Seq<(Seq<char>, Seq<char>)> {
    s.map_values(|e: MatchEvent| (e.display_name@, e.preview@))
}

/// Relies on memchr::memmem::find: the index of the first occurrence of
/// `needle` in `haystack`, or `None` when there is none.
pub assume_specification[ memchr::memmem::find ](haystack: &[u8], needle: &[u8]) -> (r: Option<
    usize,
>)
    ensures
        match r {
            Some(i) => is_match_at(haystack@, needle@, i as int) && forall|j: int|
                0 <= j < i ==> !is_match_at(haystack@, needle@, j),
            None => forall|j: int| !is_match_at(haystack@, needle@, j),
        },
;

/// Relies on memchr::memchr: the index of the first occurrence of the byte
/// `needle` in `haystack`, or `None` when there is none.
pub assume_specification[ memchr::memchr ](needle: u8, haystack: &[u8]) -> (r: Option<usize>)
    ensures
        match r {
            Some(i) => i < haystack@.len() && haystack@[i as int] == needle && forall|j: int|
                0 <= j < i ==> haystack@[j] != needle,
            None => forall|j: int| 0 <= j < haystack@.len() ==> haystack@[j] != needle,
        },
;

/// Relies on String::from_utf8_lossy: bytes decoded as UTF-8 with invalid
/// sequences replaced; the result depends on the bytes alone, and valid
/// UTF-8 decodes to its own characters.
#[verifier::external_body]
fn lossy_string(b: &[u8]) -> (r: String)
    ensures
        r@ == decoded_of(b@),
        !vstd::utf8::valid_utf8(b@) ==> r@ == lossy_of(b@),
{
    String::from_utf8_lossy(b).into_owned()
}

/// Relies on str::chars: the characters of the string, in order.
#[verifier::external_body]
pub(crate) fn chars_vec(s: &str) -> (r: Vec<char>)
    ensures
        r@ == s@,
{
    s.chars().collect()
}

/// Relies on String's FromIterator impl: the string holding exactly the
/// given characters, in order.
#[verifier::external_body]
pub fn string_from_chars(v: &Vec<char>) -> (r: String)
    ensures
        r@ == v@,
{
    v.iter().collect()
}

pub proof fn lemma_line_start_bounds(data: Seq<u8>, i: int)
    requires
        0 <= i,
    ensures
        0 <= line_start(data, i) <= i,
    decreases i,
{
    if i > 0 && data[i - 1] != 10 {
        lemma_line_start_bounds(data, i - 1);
    }
}

pub proof fn lemma_line_end_bounds(data: Seq<u8>, i: int)
    requires
        0 <= i <= data.len(),
    ensures
        i <= line_end(data, i) <= data.len(),
        line_end(data, i) < data.len() ==> data[line_end(data, i)] == 10,
    decreases data.len() - i,
{
    if i < data.len() && data[i] != 10 {
        lemma_line_end_bounds(data, i + 1);
    }
}

/// Any position strictly after a newline has its line start strictly after
/// that newline.
proof fn lemma_line_start_after(data: Seq<u8>, e: int, j: int)
    requires
        0 <= e < data.len(),
        data[e] == 10,
        e < j <= data.len(),
    ensures
        line_start(data, j) >= e + 1,
    decreases j,
{
    if j - 1 == e {
        assert(line_start(data, j) == j);
    } else if data[j - 1] == 10 {
        assert(line_start(data, j) == j);
    } else {
        lemma_line_start_after(data, e, j - 1);
    }
}

proof fn lemma_line_end_first(data: Seq<u8>, i: int, j: int)
    requires
        0 <= i <= j < data.len(),
        data[j] == 10,
        forall|k: int| i <= k < j ==> data[k] != 10,
    ensures
        line_end(data, i) == j,
    decreases j - i,
{
    if i < j {
        lemma_line_end_first(data, i + 1, j);
    }
}

proof fn lemma_line_end_none(data: Seq<u8>, i: int)
    requires
        0 <= i <= data.len(),
        forall|k: int| i <= k < data.len() ==> data[k] != 10,
    ensures
        line_end(data, i) == data.len(),
    decreases data.len() - i,
{
    if i < data.len() {
        lemma_line_end_none(data, i + 1);
    }
}

/// The start of the line containing position `i`, walking backwards to the
/// nearest newline.
fn find_line_start(data: &[u8], i: usize) -> (r: usize)
    requires
        i <= data@.len(),
    ensures
        r == line_start(data@, i as int),
        r <= i,
{
    let mut j = i;
    while j > 0
        invariant
            j <= i <= data@.len(),
            line_start(data@, i as int) == line_start(data@, j as int),
        decreases j,
    {
        let b = *vstd::slice::slice_index_get(data, j - 1);
        if b == 10 {
            proof {
                lemma_line_start_bounds(data@, i as int);
            }
            return j;
        }
        j = j - 1;
    }
    proof {
        lemma_line_start_bounds(data@, i as int);
    }
    0
}

/// The end of the line containing position `i`: the nearest newline at or
/// after `i`, found with memchr, or the buffer length.
fn find_line_end(data: &[u8], i: usize) -> (r: usize)
    requires
        i <= data@.len(),
    ensures
        r == line_end(data@, i as int),
        i <= r <= data@.len(),
{
    let n = data.len();
    let tail = slice_subrange(data, i, n);
    match memchr::memchr(10, tail) {
        Some(off) => {
            proof {
                assert(tail@[off as int] == data@[i + off]);
                assert forall|k: int| i <= k < i + off implies data@[k] != 10 by {
                    assert(tail@[k - i] == data@[k]);
                }
                lemma_line_end_first(data@, i as int, i + off);
            }
            i + off
        },
        None => {
            proof {
                assert forall|k: int| i <= k < data@.len() implies data@[k] != 10 by {
                    assert(tail@[k - i] == data@[k]);
                }
                lemma_line_end_none(data@, i as int);
            }
            n
        },
    }
}

/// Escapes a decoded line for embedding: double quotes and backslashes are
/// each preceded by a backslash.
fn escape_chars(v: &Vec<char>) -> (r: Vec<char>)
    ensures
        r@ == escape_seq(v@),
{
    let mut out: Vec<char> = Vec::new();
    let mut i: usize = 0;
    let n = v.len();
    while i < n
        invariant
            n == v@.len(),
            i <= n,
            out@ == escape_seq(v@.take(i as int)),
        decreases n - i,
    {
        let c = v[i];
        if c == '"' {
            out.push('\\');
            out.push('"');
        } else if c == '\\' {
            out.push('\\');
            out.push('\\');
        } else {
            out.push(c);
        }
        proof {
            assert(v@.take(i + 1).drop_last() =~= v@.take(i as int));
            assert(v@.take(i + 1).last() == v@[i as int]);
            assert(out@ =~= escape_seq(v@.take(i as int)) + escape_char(v@[i as int]));
        }
        i = i + 1;
    }
    proof {
        assert(v@.take(n as int) =~= v@);
    }
    out
}

/// Decodes, clips and escapes the bytes of one line.
fn build_preview(data: &[u8], ls: usize, le: usize) -> (r: String)
    requires
        ls <= le <= data@.len(),
    ensures
        r@ == escape_seq(clip300(decoded_of(data@.subrange(ls as int, le as int)))),
{
    let line = slice_subrange(data, ls, le);
    let text = lossy_string(line);
    let mut cv = chars_vec(text.as_str());
    if cv.len() > 300 {
        cv.truncate(300);
        proof {
            assert(cv@ =~= clip300(decoded_of(line@)));
        }
    }
    let escaped = escape_chars(&cv);
    string_from_chars(&escaped)
}

/// The logical path that marks an undecoded whole buffer; such an entry is
/// shown under the outer filename alone.
pub open spec fn file_sentinel() -> Seq<char> {
    seq!['f', 'i', 'l', 'e']
}

/// The name a match is reported under: the filename alone for a whole-buffer
/// entry, otherwise the filename and the entry's logical path.
pub open spec fn display_name_of(f: Seq<char>, sub: Seq<char>) -> Seq<char> {
    if sub == file_sentinel() {
        f
    } else {
        f + seq![' ', '>', ' '] + sub
    }
}

pub fn display_name(filename: &String, logical_path: &String) -> (r: String)
    ensures
        r@ == display_name_of(filename@, logical_path@),
{
    proof {
        reveal_strlit("file");
        reveal_strlit(" > ");
        assert("file"@ =~= file_sentinel());
        assert(" > "@ =~= seq![' ', '>', ' ']);
    }
    let sentinel = String::from_str("file");
    if *logical_path == sentinel {
        filename.clone()
    } else {
        let mut s = filename.clone();
        s.append(" > ");
        s.append(logical_path.as_str());
        proof {
            assert(s@ =~= filename@ + seq![' ', '>', ' '] + logical_path@);
        }
        s
    }
}

proof fn lemma_scan_skip(data: Seq<u8>, pat: Seq<u8>, pos: int, i: int, last_end: int, count: int)
    requires
        0 <= pos <= i <= data.len() + 1,
        forall|j: int| pos <= j < i ==> !is_match_at(data, pat, j),
    ensures
        scan_from(data, pat, pos, last_end, count) == scan_from(data, pat, i, last_end, count),
    decreases i - pos,
{
    if pos < i {
        assert(!is_match_at(data, pat, pos));
        lemma_scan_skip(data, pat, pos + 1, i, last_end, count);
    }
}

proof fn lemma_scan_none(data: Seq<u8>, pat: Seq<u8>, pos: int, last_end: int, count: int)
    requires
        0 <= pos,
        forall|j: int| pos <= j ==> !is_match_at(data, pat, j),
    ensures
        scan_from(data, pat, pos, last_end, count) == Seq::<int>::empty(),
{
    if pos <= data.len() {
        lemma_scan_skip(data, pat, pos, data.len() as int + 1, last_end, count);
    }
}

proof fn lemma_scan_from_cap(data: Seq<u8>, pat: Seq<u8>, pos: int, last_end: int, count: int)
    requires
        0 <= count <= 100,
    ensures
        scan_from(data, pat, pos, last_end, count).len() <= 100 - count,
    decreases data.len() + 1 - pos,
{
    if pos < 0 || pos > data.len() {
    } else if is_match_at(data, pat, pos) {
        if pos < last_end {
            lemma_scan_from_cap(data, pat, pos + step_of(pat), last_end, count);
        } else if count >= 100 {
        } else {
            lemma_scan_from_cap(data, pat, pos + step_of(pat), line_end(data, pos), count + 1);
        }
    } else {
        lemma_scan_from_cap(data, pat, pos + 1, last_end, count);
    }
}

/// Scanning any buffer accepts at most 100 occurrences.
pub proof fn lemma_match_cap(data: Seq<u8>, pat: Seq<u8>)
    ensures
        scan_model(data, pat).len() <= 100,
{
    lemma_scan_from_cap(data, pat, 0, 0, 0);
}

proof fn lemma_scan_from_lines(data: Seq<u8>, pat: Seq<u8>, pos: int, last_end: int, count: int)
    requires
        pat.len() >= 1,
        0 <= last_end,
    ensures
        forall|k: int|
            0 <= k < scan_from(data, pat, pos, last_end, count).len() ==> is_match_at(
                data,
                pat,
                #[trigger] scan_from(data, pat, pos, last_end, count)[k],
            ),
        forall|k: int|
            0 <= k < scan_from(data, pat, pos, last_end, count).len() ==> #[trigger] scan_from(
                data,
                pat,
                pos,
                last_end,
                count,
            )[k] >= last_end && scan_from(data, pat, pos, last_end, count)[k] >= pos,
        forall|k: int|
            0 <= k < scan_from(data, pat, pos, last_end, count).len() - 1 ==> line_end(
                data,
                #[trigger] scan_from(data, pat, pos, last_end, count)[k],
            ) <= line_start(data, scan_from(data, pat, pos, last_end, count)[k + 1]),
    decreases data.len() + 1 - pos,
{
    let r = scan_from(data, pat, pos, last_end, count);
    if pos < 0 || pos > data.len() {
    } else if is_match_at(data, pat, pos) {
        if pos < last_end {
            lemma_scan_from_lines(data, pat, pos + step_of(pat), last_end, count);
            let r2 = scan_from(data, pat, pos + step_of(pat), last_end, count);
            assert(r == r2);
            assert forall|k: int| 0 <= k < r.len() implies is_match_at(data, pat, #[trigger] r[k])
                && r[k] >= last_end && r[k] >= pos by {
                assert(is_match_at(data, pat, r2[k]) && r2[k] >= last_end && r2[k] >= pos
                    + step_of(pat));
            }
        } else if count >= 100 {
        } else {
            let e = line_end(data, pos);
            lemma_line_end_bounds(data, pos);
            lemma_scan_from_lines(data, pat, pos + step_of(pat), e, count + 1);
            let tail = scan_from(data, pat, pos + step_of(pat), e, count + 1);
            assert(r == seq![pos] + tail);
            assert(data[pos] == pat[0]) by {
                assert(data.subrange(pos, pos + pat.len())[0] == data[pos]);
            }
            assert forall|k: int| 0 <= k < r.len() implies is_match_at(data, pat, #[trigger] r[k])
                && r[k] >= last_end && r[k] >= pos by {
                if k > 0 {
                    assert(r[k] == tail[k - 1]);
                    assert(is_match_at(data, pat, tail[k - 1]));
                    assert(tail[k - 1] >= e && tail[k - 1] >= pos + step_of(pat));
                }
            }
            if e == data.len() {
                assert(tail.len() == 0) by {
                    if tail.len() > 0 {
                        assert(is_match_at(data, pat, tail[0]));
                        assert(tail[0] >= e);
                    }
                }
            } else {
                assert(data[e] == 10);
                // every later acceptance lies strictly past this line's end:
                // a pattern starting with a newline matches here at `pos`
                // itself (so `e == pos`, and the walk has stepped past it),
                // and any other pattern cannot match on the newline at `e`
                assert forall|k: int| 0 <= k < tail.len() implies line_start(
                    data,
                    #[trigger] tail[k],
                ) > e by {
                    let j = tail[k];
                    assert(is_match_at(data, pat, j));
                    assert(j >= e && j >= pos + step_of(pat));
                    if j == e {
                        assert(data.subrange(j, j + pat.len())[0] == data[j]);
                        assert(data[pos] == 10);
                        assert(e == pos);
                        assert(false);
                    }
                    lemma_line_start_after(data, e, j);
                }
            }
            assert forall|k: int| 0 <= k < r.len() - 1 implies line_end(data, #[trigger] r[k])
                <= line_start(data, r[k + 1]) by {
                if k == 0 {
                    assert(r[1] == tail[0]);
                    assert(line_start(data, tail[0]) > e);
                } else {
                    assert(r[k] == tail[k - 1] && r[k + 1] == tail[k]);
                }
            }
        }
    } else {
        lemma_scan_from_lines(data, pat, pos + 1, last_end, count);
        let r2 = scan_from(data, pat, pos + 1, last_end, count);
        assert(r == r2);
        assert forall|k: int| 0 <= k < r.len() implies is_match_at(data, pat, #[trigger] r[k])
            && r[k] >= last_end && r[k] >= pos by {
            assert(is_match_at(data, pat, r2[k]) && r2[k] >= last_end && r2[k] >= pos + 1);
        }
    }
}

/// For a nonempty pattern, no two reported events cover overlapping line
/// regions: each event's line starts at or after the previous event's line
/// end.
pub proof fn lemma_no_line_overlap(data: Seq<u8>, pat: Seq<u8>)
    requires
        pat.len() >= 1,
    ensures
        forall|k: int|
            0 <= k < scan_model(data, pat).len() - 1 ==> line_end(
                data,
                #[trigger] scan_model(data, pat)[k],
            ) <= line_start(data, scan_model(data, pat)[k + 1]),
{
    lemma_scan_from_lines(data, pat, 0, 0, 0);
}

/// A buffer holding exactly one occurrence of the pattern yields exactly
/// that occurrence.
pub proof fn lemma_unique_match_single_event(data: Seq<u8>, pat: Seq<u8>, i: int)
    requires
        is_match_at(data, pat, i),
        forall|j: int| j != i ==> !is_match_at(data, pat, j),
    ensures
        scan_model(data, pat) == seq![i],
{
    lemma_scan_skip(data, pat, 0, i, 0, 0);
    lemma_scan_none(data, pat, i + step_of(pat), line_end(data, i), 1);
    assert(scan_model(data, pat) =~= seq![i]);
}

/// On a valid-UTF-8 line of at most 300 characters the preview is exactly
/// the line's own characters, quote/backslash-escaped.
pub proof fn lemma_utf8_preview(data: Seq<u8>, i: int)
    requires
        0 <= i <= data.len(),
        vstd::utf8::valid_utf8(data.subrange(line_start(data, i), line_end(data, i))),
        vstd::utf8::decode_utf8(data.subrange(line_start(data, i), line_end(data, i))).len()
            <= 300,
    ensures
        preview_of(data, i) == escape_seq(
            vstd::utf8::decode_utf8(data.subrange(line_start(data, i), line_end(data, i))),
        ),
{
    lemma_line_start_bounds(data, i);
    lemma_line_end_bounds(data, i);
}

/// Round trip: a buffer holding the pattern exactly once, on a valid-UTF-8
/// line of at most 300 characters, yields exactly one event whose preview is
/// that line with quotes and backslashes escaped.
pub proof fn lemma_single_match_round_trip(data: Seq<u8>, pat: Seq<u8>, name: Seq<char>, i: int)
    requires
        is_match_at(data, pat, i),
        forall|j: int| j != i ==> !is_match_at(data, pat, j),
        vstd::utf8::valid_utf8(data.subrange(line_start(data, i), line_end(data, i))),
        vstd::utf8::decode_utf8(data.subrange(line_start(data, i), line_end(data, i))).len()
            <= 300,
    ensures
        scan_events(data, pat, name) == seq![
            (
                name,
                escape_seq(
                    vstd::utf8::decode_utf8(
                        data.subrange(line_start(data, i), line_end(data, i)),
                    ),
                ),
            ),
        ],
{
    lemma_unique_match_single_event(data, pat, i);
    lemma_utf8_preview(data, i);
    assert(scan_events(data, pat, name) =~= seq![(name, preview_of(data, i))]);
}

/// Scans one buffer for the pattern and reports one event per accepted
/// occurrence: occurrences are walked in position order, at most one per
/// line, at most 100 per buffer, each carrying the given display name and
/// the escaped, length-capped text of its line.
pub fn scan_buffer(data: &[u8], pat: &[u8], name: &str) -> (events: Vec<MatchEvent>)
    ensures
        event_views(events@) == scan_events(data@, pat@, name@),
{
    let n = data.len();
    let plen = pat.len();
    let mut events: Vec<MatchEvent> = Vec::new();
    let mut pos: usize = 0;
    let mut last_end: usize = 0;
    let mut count: usize = 0;
    proof {
        assert(event_views(events@) + scan_events(data@, pat@, name@) =~= scan_events(
            data@,
            pat@,
            name@,
        ));
    }
    loop
        invariant
            n == data@.len(),
            plen == pat@.len(),
            pos <= n,
            last_end <= n,
            count <= 100,
            event_views(events@) + events_from(
                data@,
                pat@,
                name@,
                pos as int,
                last_end as int,
                count as int,
            ) == scan_events(data@, pat@, name@),
        decreases n - pos,
    {
        let tail = slice_subrange(data, pos, n);
        let found = memchr::memmem::find(tail, pat);
        match found {
            None => {
                proof {
                    assert forall|j: int| pos <= j implies !is_match_at(data@, pat@, j) by {
                        if is_match_at(data@, pat@, j) {
                            assert(tail@.subrange(j - pos, j - pos + plen) =~= data@.subrange(
                                j,
                                j + plen,
                            ));
                            assert(is_match_at(tail@, pat@, j - pos));
                        }
                    }
                    lemma_scan_none(data@, pat@, pos as int, last_end as int, count as int);
                    assert(event_views(events@) + events_from(
                        data@,
                        pat@,
                        name@,
                        pos as int,
                        last_end as int,
                        count as int,
                    ) =~= event_views(events@));
                }
                return events;
            },
            Some(off) => {
                let i = pos + off;
                proof {
                    assert(data@.subrange(i as int, i + plen) =~= tail@.subrange(
                        off as int,
                        off + plen,
                    ));
                    assert(is_match_at(data@, pat@, i as int));
                    assert forall|j: int| pos <= j < i implies !is_match_at(data@, pat@, j) by {
                        if is_match_at(data@, pat@, j) {
                            assert(tail@.subrange(j - pos, j - pos + plen) =~= data@.subrange(
                                j,
                                j + plen,
                            ));
                            assert(is_match_at(tail@, pat@, j - pos));
                        }
                    }
                    lemma_scan_skip(
                        data@,
                        pat@,
                        pos as int,
                        i as int,
                        last_end as int,
                        count as int,
                    );
                }
                if i < last_end {
                    if plen == 0 {
                        pos = i + 1;
                    } else {
                        pos = i + plen;
                    }
                } else if count >= 100 {
                    proof {
                        assert(scan_from(data@, pat@, i as int, last_end as int, count as int)
                            =~= Seq::<int>::empty());
                        assert(event_views(events@) + events_from(
                            data@,
                            pat@,
                            name@,
                            i as int,
                            last_end as int,
                            count as int,
                        ) =~= event_views(events@));
                    }
                    return events;
                } else {
                    let ls = find_line_start(data, i);
                    let le = find_line_end(data, i);
                    let preview = build_preview(data, ls, le);
                    let ghost prev = events@;
                    let ev = MatchEvent { display_name: name.to_owned(), preview };
                    events.push(ev);
                    proof {
                        let ghost i_ = i as int;
                        let ghost rest = scan_from(
                            data@,
                            pat@,
                            i_ + step_of(pat@),
                            le as int,
                            count as int + 1,
                        );
                        assert(scan_from(data@, pat@, i_, last_end as int, count as int) == seq![
                            i_,
                        ] + rest);
                        assert(events_from(
                            data@,
                            pat@,
                            name@,
                            i_,
                            last_end as int,
                            count as int,
                        ) =~= seq![(name@, preview_of(data@, i_))] + events_from(
                            data@,
                            pat@,
                            name@,
                            i_ + step_of(pat@),
                            le as int,
                            count as int + 1,
                        ));
                        assert(event_views(events@) =~= event_views(prev) + seq![
                            (name@, preview_of(data@, i_)),
                        ]);
                    }
                    last_end = le;
                    count = count + 1;
                    if plen == 0 {
                        if i >= n {
                            proof {
                                assert(events_from(
                                    data@,
                                    pat@,
                                    name@,
                                    i as int + 1,
                                    last_end as int,
                                    count as int,
                                ) =~= Seq::<(Seq<char>, Seq<char>)>::empty());
                            }
                            return events;
                        }
                        pos = i + 1;
                    } else {
                        pos = i + plen;
                    }
                }
            },
        }
    }
}

} // verus!
