//! Rendering of match events as self-contained structured records: one JSON
//! object per line, with the string fields escaped by the JSON rules.

use vstd::prelude::*;

use crate::scan::MatchEvent;

verus! {

/// The lowercase hexadecimal digit for a value below sixteen.
pub open spec fn hex_digit(n: int) -> char {
    if n < 10 {
        (48 + n) as char
    } else {
        (87 + n) as char
    }
}

/// JSON string escaping of one character: quote and backslash are
/// backslash-escaped, the named control characters use their short escapes,
/// other control characters use `\u00XX`, and everything else stays.
pub open spec fn json_escape_char(c: char) -> Seq<char> {
    if c == '"' {
        seq!['\\', '"']
    } else if c == '\\' {
        seq!['\\', '\\']
    } else if c == '\u{8}' {
        seq!['\\', 'b']
    } else if c == '\t' {
        seq!['\\', 't']
    } else if c == '\n' {
        seq!['\\', 'n']
    } else if c == '\u{c}' {
        seq!['\\', 'f']
    } else if c == '\r' {
        seq!['\\', 'r']
    } else if (c as u32) < 32 {
        seq!['\\', 'u', '0', '0', hex_digit(c as int / 16), hex_digit(c as int % 16)]
    } else {
        seq![c]
    }
}

pub open spec fn json_escape(s: Seq<char>) -> Seq<char>
    decreases s.len(),
{
    if s.len() == 0 {
        Seq::empty()
    } else {
        json_escape(s.drop_last()) + json_escape_char(s.last())
    }
}

/// The record emitted for one match: its display name and preview as a JSON
/// object of type `match`.
pub open spec fn match_record_json(name: Seq<char>, preview: Seq<char>) -> Seq<char> {
    "{\"type\": \"match\", \"filename\": \""@ + json_escape(name)
        + "\", \"matches_preview\": \""@ + json_escape(preview) + "\"}"@
}

/// Appends the JSON escaping of one character.
fn push_escaped(out: &mut Vec<char>, c: char)
    ensures
        final(out)@ == old(out)@ + json_escape_char(c),
{
    let ghost prev = out@;
    if c == '"' {
        out.push('\\');
        out.push('"');
    } else if c == '\\' {
        out.push('\\');
        out.push('\\');
    } else if c == '\u{8}' {
        out.push('\\');
        out.push('b');
    } else if c == '\t' {
        out.push('\\');
        out.push('t');
    } else if c == '\n' {
        out.push('\\');
        out.push('n');
    } else if c == '\u{c}' {
        out.push('\\');
        out.push('f');
    } else if c == '\r' {
        out.push('\\');
        out.push('r');
    } else if (c as u32) < 32 {
        let n = c as u32;
        let hi = if n / 16 < 10 {
            (48 + n / 16) as u8 as char
        } else {
            (87 + n / 16) as u8 as char
        };
        let lo = if n % 16 < 10 {
            (48 + n % 16) as u8 as char
        } else {
            (87 + n % 16) as u8 as char
        };
        out.push('\\');
        out.push('u');
        out.push('0');
        out.push('0');
        out.push(hi);
        out.push(lo);
        assert(hi == hex_digit(n as int / 16) && lo == hex_digit(n as int % 16));
    } else {
        out.push(c);
    }
    assert(out@ =~= prev + json_escape_char(c));
}

/// Escapes a whole string by the JSON rules.
fn json_escape_string(s: &String) -> (r: Vec<char>)
    ensures
        r@ == json_escape(s@),
{
    let cv = crate::scan::chars_vec(s.as_str());
    let mut out: Vec<char> = Vec::new();
    let n = cv.len();
    let mut i: usize = 0;
    while i < n
        invariant
            n == cv@.len(),
            cv@ == s@,
            i <= n,
            out@ == json_escape(cv@.take(i as int)),
        decreases n - i,
    {
        push_escaped(&mut out, cv[i]);
        proof {
            assert(cv@.take(i + 1).drop_last() =~= cv@.take(i as int));
            assert(cv@.take(i + 1).last() == cv@[i as int]);
        }
        i = i + 1;
    }
    proof {
        assert(cv@.take(n as int) =~= cv@);
    }
    out
}

/// Renders one match event as its one-line JSON record.
pub fn render_match(ev: &MatchEvent) -> (r: String)
    ensures
        r@ == match_record_json(ev.display_name@, ev.preview@),
{
    let name = crate::scan::string_from_chars(&json_escape_string(&ev.display_name));
    let preview = crate::scan::string_from_chars(&json_escape_string(&ev.preview));
    let mut s = String::from_str("{\"type\": \"match\", \"filename\": \"");
    s.append(name.as_str());
    s.append("\", \"matches_preview\": \"");
    s.append(preview.as_str());
    s.append("\"}");
    s
}

} // verus!
