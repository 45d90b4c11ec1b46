//! The reply sent for a request whose handler panicked.

use vstd::prelude::*;

use crate::text::owned;

verus! {

/// Lower-case hexadecimal digit for `d < 16`.
pub open spec fn hex_digit(d: nat) -> char {
    if d < 10 {
        (d + 48) as char
    } else {
        (d + 87) as char
    }
}

/// How `serde_json` writes `c` inside a JSON string: `"` and `\` escaped
/// with a backslash; backspace, tab, line feed, form feed and carriage
/// return by their short escapes; other characters below U+0020 as
/// `\u00XX` with lower-case hex; everything else as itself.
pub open spec fn json_escape_char(c: char) -> Seq<char> {
    let u = c as u32;
    if c == '"' {
        seq!['\\', '"']
    } else if c == '\\' {
        seq!['\\', '\\']
    } else if u == 0x08 {
        seq!['\\', 'b']
    } else if u == 0x09 {
        seq!['\\', 't']
    } else if u == 0x0a {
        seq!['\\', 'n']
    } else if u == 0x0c {
        seq!['\\', 'f']
    } else if u == 0x0d {
        seq!['\\', 'r']
    } else if u < 0x20 {
        seq!['\\', 'u', '0', '0', hex_digit((u / 16) as nat), hex_digit((u % 16) as nat)]
    } else {
        seq![c]
    }
}

/// The escaped characters of `s`.
pub open spec fn json_escape(s: Seq<char>) -> Seq<char>
    decreases s.len(),
{
    if s.len() == 0 {
        seq![]
    } else {
        json_escape(s.drop_last()) + json_escape_char(s.last())
    }
}

/// `s` as a JSON string literal.
pub open spec fn json_string(s: Seq<char>) -> Seq<char> {
    seq!['"'] + json_escape(s) + seq!['"']
}

/// `serde_json::to_string` on a `str`: writes the string between double
/// quotes, escaping as `json_escape_char` says. Serializing a `str` into
/// the in-memory buffer `to_string` uses cannot fail.
#[verifier::external_body]
fn json_quote(s: &str) -> (r: String)
    ensures
        r@ == json_string(s@),
{
    match serde_json::to_string(s) {
        Ok(quoted) => quoted,
        Err(_) => String::new(),
    }
}

/// The panic message, or a stand-in when the payload carried none.
pub fn panic_details(message: Option<String>) -> (r: String)
    ensures
        r@ == (match message {
            Some(m) => m@,
            None => "Unknown panic message"@,
        }),
{
    match message {
        Some(m) => m,
        None => owned("Unknown panic message"),
    }
}

/// The JSON body describing a panic: an object whose `error` member holds
/// `details` and `kind: "panic"`, members in key order, written compactly.
pub open spec fn panic_body_text(details: Seq<char>) -> Seq<char> {
    "{\"error\":{\"details\":"@ + json_string(details) + ",\"kind\":\"panic\"}}"@
}

pub fn panic_body(details: &str) -> (r: String)
    ensures
        r@ == panic_body_text(details@),
{
    let mut r = owned("{\"error\":{\"details\":");
    let quoted = json_quote(details);
    r.append(quoted.as_str());
    r.append(",\"kind\":\"panic\"}}");
    r
}

/// An HTTP reply as plain values.
#[derive(Debug, Clone)]
pub struct PanicResponse {
    pub status: u16,
    pub content_type: String,
    pub body: String,
}

/// The reply for a panicked request: 500, JSON, with the body above.
pub fn panic_response(details: &str) -> (r: PanicResponse)
    ensures
        r.status == 500,
        r.content_type@ == "application/json"@,
        r.body@ == panic_body_text(details@),
{
    PanicResponse {
        status: 500,
        content_type: owned("application/json"),
        body: panic_body(details),
    }
}

} // verus!

verus! {

/// Text without `"`, `\` or control characters is written into JSON as it is.
pub proof fn lemma_json_escape_plain(s: Seq<char>)
    requires
        forall|i: int|
            0 <= i < s.len() ==> #[trigger] s[i] != '"' && s[i] != '\\' && (s[i] as u32) >= 0x20,
    ensures
        json_escape(s) == s,
    decreases s.len(),
{
    if s.len() > 0 {
        let init = s.drop_last();
        assert forall|i: int| 0 <= i < init.len() implies #[trigger] init[i] != '"' && init[i]
            != '\\' && (init[i] as u32) >= 0x20 by {
            assert(init[i] == s[i]);
        }
        lemma_json_escape_plain(init);
        assert(s.last() == s[s.len() - 1]);
        assert(init + seq![s.last()] =~= s);
    }
}

} // verus!

verus! {

// ---------------------------------------------------------------------------
// Reading a JSON string back (RFC 8259, section 7)
// ---------------------------------------------------------------------------

/// Value of a hexadecimal digit of either case.
pub open spec fn hex_value(c: char) -> Option<nat> {
    let u = c as u32;
    if 48 <= u <= 57 {
        Some((u - 48) as nat)
    } else if 97 <= u <= 102 {
        Some((u - 87) as nat)
    } else if 65 <= u <= 70 {
        Some((u - 55) as nat)
    } else {
        None
    }
}

/// The number the four hexadecimal digits `t[i..i + 4]` write.
pub open spec fn hex4(t: Seq<char>, i: int) -> Option<nat> {
    match (hex_value(t[i]), hex_value(t[i + 1]), hex_value(t[i + 2]), hex_value(t[i + 3])) {
        (Some(a), Some(b), Some(c), Some(d)) => Some(a * 4096 + b * 256 + c * 16 + d),
        _ => None,
    }
}

/// The character the two-character escape `\e` stands for.
pub open spec fn short_escape(e: char) -> Option<char> {
    if e == '"' {
        Some('"')
    } else if e == '\\' {
        Some('\\')
    } else if e == '/' {
        Some('/')
    } else if e == 'b' {
        Some('\u{8}')
    } else if e == 'f' {
        Some('\u{c}')
    } else if e == 'n' {
        Some('\n')
    } else if e == 'r' {
        Some('\r')
    } else if e == 't' {
        Some('\t')
    } else {
        None
    }
}

/// `c` in front of a decoded value, `k` more characters read.
pub open spec fn decoded_after(c: char, k: nat, r: Option<(Seq<char>, nat)>) -> Option<
    (Seq<char>, nat),
> {
    match r {
        Some((v, n)) => Some((seq![c] + v, n + k)),
        None => None,
    }
}

/// Reads the remainder of a JSON string literal, `t` starting just after
/// its opening quote: the decoded value and the number of characters read
/// up to and including the closing quote, or `None` if `t` does not go on
/// with a well-formed string literal (an unescaped control character, an
/// unknown escape, a lone surrogate, or no closing quote).
pub open spec fn json_string_rest(t: Seq<char>) -> Option<(Seq<char>, nat)>
    decreases t.len(),
{
    if t.len() == 0 {
        None
    } else if t[0] == '"' {
        Some((seq![], 1))
    } else if (t[0] as u32) < 0x20 {
        None
    } else if t[0] != '\\' {
        decoded_after(t[0], 1, json_string_rest(t.drop_first()))
    } else if t.len() < 2 {
        None
    } else if short_escape(t[1]) is Some {
        decoded_after(
            short_escape(t[1])->0,
            2,
            json_string_rest(t.subrange(2, t.len() as int)),
        )
    } else if t[1] != 'u' || t.len() < 6 || hex4(t, 2) is None {
        None
    } else if 0xdc00 <= hex4(t, 2)->0 < 0xe000 {
        None
    } else if 0xd800 <= hex4(t, 2)->0 < 0xdc00 {
        if t.len() >= 12 && t[6] == '\\' && t[7] == 'u' && hex4(t, 8) is Some && 0xdc00 <= hex4(
            t,
            8,
        )->0 < 0xe000 {
            decoded_after(
                (0x10000 + (hex4(t, 2)->0 - 0xd800) * 0x400 + (hex4(t, 8)->0 - 0xdc00)) as char,
                12,
                json_string_rest(t.subrange(12, t.len() as int)),
            )
        } else {
            None
        }
    } else {
        decoded_after(
            (hex4(t, 2)->0) as char,
            6,
            json_string_rest(t.subrange(6, t.len() as int)),
        )
    }
}

/// Reads a JSON string literal at the start of `t`: its value and its length.
pub open spec fn json_string_token(t: Seq<char>) -> Option<(Seq<char>, nat)> {
    if t.len() > 0 && t[0] == '"' {
        match json_string_rest(t.drop_first()) {
            Some((v, n)) => Some((v, n + 1)),
            None => None,
        }
    } else {
        None
    }
}

proof fn lemma_json_escape_concat(a: Seq<char>, b: Seq<char>)
    ensures
        json_escape(a + b) == json_escape(a) + json_escape(b),
    decreases b.len(),
{
    if b.len() == 0 {
        assert(a + b =~= a);
        assert(json_escape(a) + json_escape(b) =~= json_escape(a));
    } else {
        assert((a + b).drop_last() =~= a + b.drop_last());
        assert((a + b).last() == b.last());
        lemma_json_escape_concat(a, b.drop_last());
        assert(json_escape(a + b) =~= json_escape(a) + json_escape(b));
    }
}

proof fn lemma_hex_digit_value(d: nat)
    requires
        d < 16,
    ensures
        hex_value(hex_digit(d)) == Some(d),
{
}

proof fn lemma_read_short_escape(c: char, t2: Seq<char>)
    requires
        c == '"' || c == '\\' || c as u32 == 0x08 || c as u32 == 0x09 || c as u32 == 0x0a || c as u32
            == 0x0c || c as u32 == 0x0d,
    ensures
        json_string_rest(json_escape_char(c) + t2) == decoded_after(c, 2, json_string_rest(t2)),
{
    let e = json_escape_char(c);
    let t = e + t2;
    let u = c as u32;
    vstd::utf8::char_u32_cast(c, u);
    assert(e.len() == 2 && e[0] == '\\');
    assert(t[0] == '\\');
    if u == 0x08 {
        assert(t[1] == 'b');
    } else if u == 0x09 {
        assert(t[1] == 't');
    } else if u == 0x0a {
        assert(t[1] == 'n');
    } else if u == 0x0c {
        assert(t[1] == 'f');
    } else if u == 0x0d {
        assert(t[1] == 'r');
    } else {
        assert(t[1] == c);
    }
    assert(short_escape(t[1]) == Some(c));
    assert(t.subrange(2, t.len() as int) =~= t2);
}

proof fn lemma_read_control_escape(c: char, t2: Seq<char>)
    requires
        (c as u32) < 0x20,
        c as u32 != 0x08 && c as u32 != 0x09 && c as u32 != 0x0a && c as u32 != 0x0c && c as u32
            != 0x0d,
    ensures
        json_string_rest(json_escape_char(c) + t2) == decoded_after(c, 6, json_string_rest(t2)),
{
    let e = json_escape_char(c);
    let t = e + t2;
    let u = c as u32;
    lemma_hex_digit_value((u / 16) as nat);
    lemma_hex_digit_value((u % 16) as nat);
    lemma_hex_digit_value(0);
    assert(e.len() == 6);
    assert(t[0] == '\\' && t[1] == 'u' && t[2] == '0' && t[3] == '0');
    assert(t[4] == hex_digit((u / 16) as nat) && t[5] == hex_digit((u % 16) as nat));
    assert(short_escape(t[1]) is None);
    assert(hex4(t, 2) == Some(u as nat));
    assert((u as nat) as char == c) by {
        vstd::utf8::char_u32_cast(c, u);
    }
    assert(t.subrange(6, t.len() as int) =~= t2);
}

proof fn lemma_read_escaped_char(c: char, t2: Seq<char>)
    ensures
        json_string_rest(json_escape_char(c) + t2) == decoded_after(
            c,
            json_escape_char(c).len(),
            json_string_rest(t2),
        ),
{
    let u = c as u32;
    if c == '"' || c == '\\' || u == 0x08 || u == 0x09 || u == 0x0a || u == 0x0c || u == 0x0d {
        lemma_read_short_escape(c, t2);
    } else if u < 0x20 {
        lemma_read_control_escape(c, t2);
    } else {
        let t = json_escape_char(c) + t2;
        assert(t[0] == c);
        assert(t.drop_first() =~= t2);
    }
}

/// Reading back the escaped text of `s` and a closing quote gives `s`,
/// whatever follows the quote.
proof fn lemma_json_string_rest_escape(s: Seq<char>, rest: Seq<char>)
    ensures
        json_string_rest(json_escape(s) + seq!['"'] + rest) == Some(
            (s, json_escape(s).len() + 1),
        ),
    decreases s.len(),
{
    let t = json_escape(s) + seq!['"'] + rest;
    if s.len() == 0 {
        assert(json_escape(s) =~= Seq::<char>::empty());
        assert(t[0] == '"');
        assert(s =~= Seq::<char>::empty());
    } else {
        let c = s[0];
        let s2 = s.drop_first();
        assert(s =~= seq![c] + s2);
        lemma_json_escape_concat(seq![c], s2);
        assert(seq![c].drop_last() == Seq::<char>::empty());
        assert(json_escape(Seq::<char>::empty()) == Seq::<char>::empty());
        assert(seq![c].last() == c);
        assert(json_escape(seq![c]) =~= json_escape_char(c));
        let t2 = json_escape(s2) + seq!['"'] + rest;
        assert(t =~= json_escape_char(c) + t2);
        lemma_json_string_rest_escape(s2, rest);
        lemma_read_escaped_char(c, t2);
    }
}

/// The JSON string literal written for `s` reads back as `s`, and the
/// reading stops at its closing quote, whatever text follows it.
pub proof fn lemma_json_string_round_trip(s: Seq<char>, rest: Seq<char>)
    ensures
        json_string_token(json_string(s) + rest) == Some((s, json_string(s).len())),
{
    let t = json_string(s) + rest;
    assert(t.drop_first() =~= json_escape(s) + seq!['"'] + rest);
    lemma_json_string_rest_escape(s, rest);
}

/// The text of the panic body before the details.
pub open spec fn panic_body_head() -> Seq<char> {
    "{\"error\":{\"details\":"@
}

/// The text of the panic body after the details.
pub open spec fn panic_body_tail() -> Seq<char> {
    ",\"kind\":\"panic\"}}"@
}

/// Reading the `details` member of a panic body gives the details back,
/// quotes, backslashes, control and non-ASCII characters included, and the
/// body goes on with the `kind` member.
pub proof fn lemma_panic_body_details_round_trip(details: Seq<char>)
    ensures
        panic_body_text(details).subrange(0, panic_body_head().len() as int) == panic_body_head(),
        json_string_token(panic_body_text(details).skip(panic_body_head().len() as int)) == Some(
            (details, json_string(details).len()),
        ),
        panic_body_text(details).skip(
            (panic_body_head().len() + json_string(details).len()) as int,
        ) == panic_body_tail(),
{
    let body = panic_body_text(details);
    let h = panic_body_head();
    let q = json_string(details);
    assert(body =~= h + q + panic_body_tail());
    assert(body.subrange(0, h.len() as int) =~= h);
    assert(body.skip(h.len() as int) =~= q + panic_body_tail());
    assert(body.skip((h.len() + q.len()) as int) =~= panic_body_tail());
    lemma_json_string_round_trip(details, panic_body_tail());
}

} // verus!
