//! The wire codec: JSON text for the message vocabulary.
//!
//! Commands arrive as adjacently tagged JSON objects, as the browser
//! client writes them: `{"tag":"SetPoints","content":"5"}`, with the two
//! keys in either order, optional whitespace between tokens, and the
//! standard string escapes including `\uXXXX` with surrogate pairs. Events
//! leave as the same shape, produced compactly in tag-then-content order.
//!
//! Everything works on UTF-8 bytes: [`spec_decode_client_message`] is the
//! accepted grammar, and [`decode_client_message`] is proved to decide it
//! exactly. [`encode_server_message`] is proved to produce exactly
//! [`spec_encode_server_message`].

use vstd::prelude::*;

use crate::error::PlancError;
use crate::numerals::{dec_digits, u64_to_dec};
use crate::protocol::{
    ClientMessage, ClientMessageView, ServerMessage, SessionState, SessionStateView, UserState,
    UserStateView,
};
use vstd::utf8::{decode_utf8, encode_scalar, encode_utf8, is_ascii_chars, is_scalar, valid_utf8};

verus! {

/// A JSON scalar as it may stand under `content`.
pub enum JsonScalar {
    /// A string, as unescaped UTF-8 bytes.
    Str(Seq<u8>),
    /// A boolean literal.
    Bool(bool),
    /// The null literal.
    Null,
}

/// Whether `b` is JSON whitespace.
pub open spec fn is_json_ws(b: u8) -> bool {
    b == 32 || b == 9 || b == 10 || b == 13
}

/// The first position at or after `i` that does not hold whitespace.
pub open spec fn ws_end(s: Seq<u8>, i: int) -> int
    decreases s.len() - i,
{
    if 0 <= i < s.len() && is_json_ws(s[i]) {
        ws_end(s, i + 1)
    } else {
        i
    }
}

/// The value of a hexadecimal digit byte.
pub open spec fn hex_val_of(b: u8) -> Option<u32> {
    if 48 <= b <= 57 {
        Some((b - 48) as u32)
    } else if 97 <= b <= 102 {
        Some((b - 87) as u32)
    } else if 65 <= b <= 70 {
        Some((b - 55) as u32)
    } else {
        None
    }
}

/// Four hexadecimal digits at `i`, as a number.
pub open spec fn parse_hex4(s: Seq<u8>, i: int) -> Option<u32> {
    if 0 <= i && i + 4 <= s.len() {
        match (hex_val_of(s[i]), hex_val_of(s[i + 1]), hex_val_of(s[i + 2]), hex_val_of(
            s[i + 3],
        )) {
            (Some(a), Some(b), Some(c), Some(d)) => Some(
                (a * 4096 + b * 256 + c * 16 + d) as u32,
            ),
            _ => None,
        }
    } else {
        None
    }
}

/// One escape sequence starting at the backslash at `i`: the bytes it
/// stands for and the position after it. A `\uXXXX` high surrogate must
/// be followed by its low half; the pair is one code point.
pub open spec fn parse_escape(s: Seq<u8>, i: int) -> Option<(Seq<u8>, int)> {
    if i + 1 >= s.len() {
        None
    } else {
        let e = s[i + 1];
        if e == 34 {
            Some((seq![34u8], i + 2))
        } else if e == 92 {
            Some((seq![92u8], i + 2))
        } else if e == 47 {
            Some((seq![47u8], i + 2))
        } else if e == 98 {
            Some((seq![8u8], i + 2))
        } else if e == 102 {
            Some((seq![12u8], i + 2))
        } else if e == 110 {
            Some((seq![10u8], i + 2))
        } else if e == 114 {
            Some((seq![13u8], i + 2))
        } else if e == 116 {
            Some((seq![9u8], i + 2))
        } else if e == 117 {
            match parse_hex4(s, i + 2) {
                Some(cp) => {
                    if 0xD800 <= cp < 0xDC00 {
                        if i + 8 <= s.len() && s[i + 6] == 92 && s[i + 7] == 117 {
                            match parse_hex4(s, i + 8) {
                                Some(lo) => {
                                    if 0xDC00 <= lo < 0xE000 {
                                        Some(
                                            (
                                                encode_scalar(
                                                    (0x10000 + (cp - 0xD800) * 0x400 + (lo
                                                        - 0xDC00)) as u32,
                                                ),
                                                i + 12,
                                            ),
                                        )
                                    } else {
                                        None
                                    }
                                },
                                None => None,
                            }
                        } else {
                            None
                        }
                    } else if 0xDC00 <= cp < 0xE000 {
                        None
                    } else {
                        Some((encode_scalar(cp), i + 6))
                    }
                },
                None => None,
            }
        } else {
            None
        }
    }
}

/// The body of a JSON string from position `i` (just after the opening
/// quote): the unescaped bytes and the position after the closing quote.
pub open spec fn parse_str_body(s: Seq<u8>, i: int) -> Option<(Seq<u8>, int)>
    decreases s.len() - i,
{
    if i < 0 || i >= s.len() {
        None
    } else {
        let b = s[i];
        if b == 34 {
            Some((Seq::empty(), i + 1))
        } else if b == 92 {
            match parse_escape(s, i) {
                Some((piece, j)) => {
                    if j <= i {
                        None
                    } else {
                        match parse_str_body(s, j) {
                            Some((rest, k)) => Some((piece + rest, k)),
                            None => None,
                        }
                    }
                },
                None => None,
            }
        } else if b < 32 {
            None
        } else {
            match parse_str_body(s, i + 1) {
                Some((rest, k)) => Some((seq![b] + rest, k)),
                None => None,
            }
        }
    }
}

/// A scalar value at position `i` (no leading whitespace): a string, a
/// boolean or null; anything else is not a legal content value.
pub open spec fn parse_value(s: Seq<u8>, i: int) -> Option<(JsonScalar, int)> {
    if i < 0 || i >= s.len() {
        None
    } else if s[i] == 34 {
        match parse_str_body(s, i + 1) {
            Some((content, k)) => Some((JsonScalar::Str(content), k)),
            None => None,
        }
    } else if s[i] == 116 {
        if i + 4 <= s.len() && s[i + 1] == 114 && s[i + 2] == 117 && s[i + 3] == 101 {
            Some((JsonScalar::Bool(true), i + 4))
        } else {
            None
        }
    } else if s[i] == 102 {
        if i + 5 <= s.len() && s[i + 1] == 97 && s[i + 2] == 108 && s[i + 3] == 115 && s[i + 4]
            == 101 {
            Some((JsonScalar::Bool(false), i + 5))
        } else {
            None
        }
    } else if s[i] == 110 {
        if i + 4 <= s.len() && s[i + 1] == 117 && s[i + 2] == 108 && s[i + 3] == 108 {
            Some((JsonScalar::Null, i + 4))
        } else {
            None
        }
    } else {
        None
    }
}

/// An object key at position `i`: a string followed by a colon, with
/// whitespace allowed around the colon. Yields the key's bytes and the
/// position of the value.
pub open spec fn parse_key(s: Seq<u8>, i: int) -> Option<(Seq<u8>, int)> {
    if 0 <= i < s.len() && s[i] == 34 {
        match parse_str_body(s, i + 1) {
            Some((key, p)) => {
                let q = ws_end(s, p);
                if q < s.len() && s[q] == 58 {
                    Some((key, ws_end(s, q + 1)))
                } else {
                    None
                }
            },
            None => None,
        }
    } else {
        None
    }
}

/// The message named by a tag and its content, if they form one.
pub open spec fn assemble(tag: Seq<u8>, content: Option<JsonScalar>) -> Option<
    ClientMessageView,
> {
    if tag == encode_utf8("NameChange"@) {
        match content {
            Some(JsonScalar::Str(b)) => if valid_utf8(b) {
                Some(ClientMessageView::NameChange(decode_utf8(b)))
            } else {
                None
            },
            _ => None,
        }
    } else if tag == encode_utf8("SetPoints"@) {
        match content {
            Some(JsonScalar::Str(b)) => if valid_utf8(b) {
                Some(ClientMessageView::SetPoints(decode_utf8(b)))
            } else {
                None
            },
            _ => None,
        }
    } else if tag == encode_utf8("KickUser"@) {
        match content {
            Some(JsonScalar::Str(b)) => if valid_utf8(b) {
                Some(ClientMessageView::KickUser(decode_utf8(b)))
            } else {
                None
            },
            _ => None,
        }
    } else if tag == encode_utf8("SetSpectator"@) {
        match content {
            Some(JsonScalar::Bool(x)) => Some(ClientMessageView::SetSpectator(x)),
            _ => None,
        }
    } else if tag == encode_utf8("ResetPoints"@) {
        match content {
            None => Some(ClientMessageView::ResetPoints),
            Some(JsonScalar::Null) => Some(ClientMessageView::ResetPoints),
            _ => None,
        }
    } else if tag == encode_utf8("Whoami"@) {
        match content {
            None => Some(ClientMessageView::Whoami),
            Some(JsonScalar::Null) => Some(ClientMessageView::Whoami),
            _ => None,
        }
    } else if tag == encode_utf8("ClaimSession"@) {
        match content {
            None => Some(ClientMessageView::ClaimSession),
            Some(JsonScalar::Null) => Some(ClientMessageView::ClaimSession),
            _ => None,
        }
    } else {
        None
    }
}

/// What may follow a parsed tag value: the end of the object, or a comma
/// and the content entry and then the end.
pub open spec fn after_tag(s: Seq<u8>, tag: Seq<u8>, p: int) -> Option<ClientMessageView> {
    let q = ws_end(s, p);
    if q < s.len() && s[q] == 125 {
        if ws_end(s, q + 1) == s.len() {
            assemble(tag, None)
        } else {
            None
        }
    } else if q < s.len() && s[q] == 44 {
        match parse_key(s, ws_end(s, q + 1)) {
            Some((k2, p2)) => if k2 == encode_utf8("content"@) {
                match parse_value(s, p2) {
                    Some((v, p3)) => {
                        let e = ws_end(s, p3);
                        if e < s.len() && s[e] == 125 && ws_end(s, e + 1) == s.len() {
                            assemble(tag, Some(v))
                        } else {
                            None
                        }
                    },
                    None => None,
                }
            } else {
                None
            },
            None => None,
        }
    } else {
        None
    }
}

/// What may follow a parsed content value that came first: a comma, the
/// tag entry, and the end of the object.
pub open spec fn after_content(s: Seq<u8>, v: JsonScalar, p: int) -> Option<ClientMessageView> {
    let q = ws_end(s, p);
    if q < s.len() && s[q] == 44 {
        match parse_key(s, ws_end(s, q + 1)) {
            Some((k2, p2)) => if k2 == encode_utf8("tag"@) {
                match parse_value(s, p2) {
                    Some((JsonScalar::Str(tag), p3)) => {
                        let e = ws_end(s, p3);
                        if e < s.len() && s[e] == 125 && ws_end(s, e + 1) == s.len() {
                            assemble(tag, Some(v))
                        } else {
                            None
                        }
                    },
                    _ => None,
                }
            } else {
                None
            },
            None => None,
        }
    } else {
        None
    }
}

/// The accepted command grammar: one object holding a `tag` entry and at
/// most one `content` entry, in either order, nothing after it.
pub open spec fn spec_decode_client_message(s: Seq<u8>) -> Option<ClientMessageView> {
    let i = ws_end(s, 0);
    if i < s.len() && s[i] == 123 {
        match parse_key(s, ws_end(s, i + 1)) {
            Some((k1, p1)) => if k1 == encode_utf8("tag"@) {
                match parse_value(s, p1) {
                    Some((JsonScalar::Str(tag), p2)) => after_tag(s, tag, p2),
                    _ => None,
                }
            } else if k1 == encode_utf8("content"@) {
                match parse_value(s, p1) {
                    Some((v, p2)) => after_content(s, v, p2),
                    None => None,
                }
            } else {
                None
            },
            None => None,
        }
    } else {
        None
    }
}

/// The lowercase hexadecimal digit byte for a value below sixteen.
pub open spec fn hex_digit_byte(d: u32) -> u8 {
    if d < 10 {
        (48 + d) as u8
    } else {
        (87 + d) as u8
    }
}

/// How one byte of string content is written: quote, backslash and the
/// named control characters get a short escape, other control characters a
/// `\u00XX` escape, everything else stands as it is.
pub open spec fn escape_byte(b: u8) -> Seq<u8> {
    if b == 34 {
        seq![92u8, 34u8]
    } else if b == 92 {
        seq![92u8, 92u8]
    } else if b == 8 {
        seq![92u8, 98u8]
    } else if b == 9 {
        seq![92u8, 116u8]
    } else if b == 10 {
        seq![92u8, 110u8]
    } else if b == 12 {
        seq![92u8, 102u8]
    } else if b == 13 {
        seq![92u8, 114u8]
    } else if b < 32 {
        seq![92u8, 117u8, 48u8, 48u8, hex_digit_byte((b >> 4) as u32), hex_digit_byte(
            (b & 15) as u32,
        )]
    } else {
        seq![b]
    }
}

/// String content, escaped byte by byte.
pub open spec fn escape_bytes(s: Seq<u8>) -> Seq<u8>
    decreases s.len(),
{
    if s.len() == 0 {
        Seq::empty()
    } else {
        escape_byte(s[0]) + escape_bytes(s.drop_first())
    }
}

/// A JSON string: the characters' UTF-8 bytes, escaped, in quotes.
pub open spec fn json_string(s: Seq<char>) -> Seq<u8> {
    seq![34u8] + escape_bytes(encode_utf8(s)) + seq![34u8]
}

/// An optional string: a JSON string or `null`.
pub open spec fn json_opt_string(o: Option<Seq<char>>) -> Seq<u8> {
    match o {
        Some(s) => json_string(s),
        None => encode_utf8("null"@),
    }
}

/// A boolean literal.
pub open spec fn json_bool(b: bool) -> Seq<u8> {
    if b {
        encode_utf8("true"@)
    } else {
        encode_utf8("false"@)
    }
}

/// One user as a viewer receives it: name, points and the spectator flag.
/// The staleness and kicked flags are internal and never written.
pub open spec fn json_user(u: UserStateView) -> Seq<u8> {
    encode_utf8("{\"name\":"@) + json_opt_string(u.name) + encode_utf8(",\"points\":"@)
        + json_opt_string(u.points) + encode_utf8(",\"isSpectator\":"@) + json_bool(u.is_spectator)
        + encode_utf8("}"@)
}

/// One user entry: the identifier's numeral as the key.
pub open spec fn json_user_entry(p: (u64, UserStateView)) -> Seq<u8> {
    json_string(dec_digits(p.0 as nat)) + encode_utf8(":"@) + json_user(p.1)
}

/// The user entries, comma-separated.
pub open spec fn json_users(users: Seq<(u64, UserStateView)>) -> Seq<u8>
    decreases users.len(),
{
    if users.len() == 0 {
        Seq::empty()
    } else if users.len() == 1 {
        json_user_entry(users[0])
    } else {
        json_user_entry(users[0]) + encode_utf8(","@) + json_users(users.drop_first())
    }
}

/// The admin entry: the identifier's numeral, or `null`.
pub open spec fn json_admin(o: Option<u64>) -> Seq<u8> {
    match o {
        Some(id) => json_string(dec_digits(id as nat)),
        None => encode_utf8("null"@),
    }
}

/// A state projection as it goes out to a viewer.
pub open spec fn json_state(sv: SessionStateView) -> Seq<u8> {
    encode_utf8("{\"users\":{"@) + json_users(sv.users) + encode_utf8("},\"admin\":"@)
        + json_admin(sv.admin) + encode_utf8("}"@)
}

/// The bytes an event is sent as: compact, tag first.
pub open spec fn spec_encode_server_message(m: ServerMessage) -> Seq<u8> {
    match m {
        ServerMessage::KeepAlive => encode_utf8("{\"tag\":\"KeepAlive\"}"@),
        ServerMessage::Whoami(s) => encode_utf8("{\"tag\":\"Whoami\",\"content\":"@) + json_string(
            s@,
        ) + encode_utf8("}"@),
        ServerMessage::Error(s) => encode_utf8("{\"tag\":\"Error\",\"content\":"@) + json_string(
            s@,
        ) + encode_utf8("}"@),
        ServerMessage::State(st) => encode_utf8("{\"tag\":\"State\",\"content\":"@) + json_state(
            st@,
        ) + encode_utf8("}"@),
    }
}

/// A parsed scalar value.
pub enum ScalarValue {
    Str(Vec<u8>),
    Bool(bool),
    Null,
}

impl View for ScalarValue {
    type V = JsonScalar;

    open spec fn view(&self) -> JsonScalar {
        match self {
            ScalarValue::Str(v) => JsonScalar::Str(v@),
            ScalarValue::Bool(b) => JsonScalar::Bool(*b),
            ScalarValue::Null => JsonScalar::Null,
        }
    }
}

/// Relies on `String::from_utf8`: it accepts exactly the valid UTF-8 byte
/// sequences and the returned string holds exactly the given bytes, read
/// as characters.
#[verifier::external_body]
fn string_from_utf8(v: Vec<u8>) -> (r: Option<String>)
    ensures
        r is Some <==> valid_utf8(v@),
        r matches Some(s) ==> s@ == decode_utf8(v@),
{
    String::from_utf8(v).ok()
}

/// Whether two byte slices hold the same bytes.
fn bytes_eq(a: &[u8], b: &[u8]) -> (r: bool)
    ensures
        r == (a@ == b@),
{
    if a.len() != b.len() {
        return false;
    }
    let n = a.len();
    let mut i: usize = 0;
    while i < n
        invariant
            0 <= i <= n,
            n == a@.len() == b@.len(),
            forall|k: int| 0 <= k < i ==> a@[k] == b@[k],
        decreases n - i,
    {
        if a[i] != b[i] {
            return false;
        }
        i = i + 1;
    }
    proof {
        assert(a@ =~= b@);
    }
    true
}

/// The first position at or after `i` without whitespace.
fn skip_ws(s: &[u8], i: usize) -> (r: usize)
    requires
        i <= s@.len(),
    ensures
        r == ws_end(s@, i as int),
        i <= r <= s@.len(),
{
    let mut cur = i;
    while cur < s.len() && (s[cur] == 32 || s[cur] == 9 || s[cur] == 10 || s[cur] == 13)
        invariant
            i <= cur <= s@.len(),
            ws_end(s@, i as int) == ws_end(s@, cur as int),
        decreases s@.len() - cur,
    {
        cur = cur + 1;
    }
    cur
}

/// Four hexadecimal digits at `i`.
fn hex4(s: &[u8], i: usize) -> (r: Option<u32>)
    ensures
        r == parse_hex4(s@, i as int),
        r matches Some(cp) ==> cp < 0x10000,
{
    if i >= s.len() || s.len() - i < 4 {
        return None;
    }
    let a = match hex_digit(s[i]) {
        Some(x) => x,
        None => {
            return None;
        },
    };
    let b = match hex_digit(s[i + 1]) {
        Some(x) => x,
        None => {
            return None;
        },
    };
    let c = match hex_digit(s[i + 2]) {
        Some(x) => x,
        None => {
            return None;
        },
    };
    let d = match hex_digit(s[i + 3]) {
        Some(x) => x,
        None => {
            return None;
        },
    };
    Some(a * 4096 + b * 256 + c * 16 + d)
}

/// The value of one hexadecimal digit byte.
fn hex_digit(b: u8) -> (r: Option<u32>)
    ensures
        r == hex_val_of(b),
        r matches Some(x) ==> x < 16,
{
    if 48 <= b && b <= 57 {
        Some((b - 48) as u32)
    } else if 97 <= b && b <= 102 {
        Some((b - 87) as u32)
    } else if 65 <= b && b <= 70 {
        Some((b - 55) as u32)
    } else {
        None
    }
}

/// Appends the UTF-8 encoding of the scalar `cp`.
fn push_scalar_utf8(out: &mut Vec<u8>, cp: u32)
    requires
        is_scalar(cp),
    ensures
        final(out)@ == old(out)@ + encode_scalar(cp),
{
    if cp < 0x80 {
        out.push((cp & 0x7F) as u8);
        proof {
            assert(final(out)@ =~= old(out)@ + encode_scalar(cp));
        }
    } else if cp < 0x800 {
        out.push(0xC0 | ((cp >> 6) & 0x1F) as u8);
        out.push(0x80 | (cp & 0x3F) as u8);
        proof {
            assert(final(out)@ =~= old(out)@ + encode_scalar(cp));
        }
    } else if cp < 0x10000 {
        out.push(0xE0 | ((cp >> 12) & 0x0F) as u8);
        out.push(0x80 | ((cp >> 6) & 0x3F) as u8);
        out.push(0x80 | (cp & 0x3F) as u8);
        proof {
            assert(final(out)@ =~= old(out)@ + encode_scalar(cp));
        }
    } else {
        out.push(0xF0 | ((cp >> 18) & 0x7) as u8);
        out.push(0x80 | ((cp >> 12) & 0x3F) as u8);
        out.push(0x80 | ((cp >> 6) & 0x3F) as u8);
        out.push(0x80 | (cp & 0x3F) as u8);
        proof {
            assert(final(out)@ =~= old(out)@ + encode_scalar(cp));
        }
    }
}

/// A parsed string body ends after its opening position and within the
/// input.
proof fn lemma_parse_str_body_bounds(s: Seq<u8>, i: int)
    ensures
        parse_str_body(s, i) matches Some((c, e)) ==> i < e <= s.len(),
    decreases s.len() - i,
{
    if 0 <= i < s.len() {
        let b = s[i];
        if b == 92 {
            if parse_escape(s, i) is Some {
                let (piece, j) = parse_escape(s, i)->Some_0;
                if i < j <= s.len() {
                    lemma_parse_str_body_bounds(s, j);
                }
            }
        } else if b != 34 && b >= 32 {
            lemma_parse_str_body_bounds(s, i + 1);
        }
    }
}

/// The body of a JSON string from `i`, just after the opening quote.
#[verifier::rlimit(60)]
fn parse_string_body(s: &[u8], i: usize) -> (r: Option<(Vec<u8>, usize)>)
    requires
        i <= s@.len(),
    ensures
        match parse_str_body(s@, i as int) {
            Some((content, end)) => r matches Some((v, e)) && v@ == content && e == end && i < e
                <= s@.len(),
            None => r is None,
        },
{
    let mut out: Vec<u8> = Vec::new();
    let mut cur = i;
    proof {
        lemma_parse_str_body_bounds(s@, i as int);
        if parse_str_body(s@, i as int) is Some {
            let (rest, _e) = parse_str_body(s@, i as int)->Some_0;
            assert(Seq::<u8>::empty() + rest =~= rest);
        }
    }
    loop
        invariant
            i <= cur <= s@.len(),
            match parse_str_body(s@, cur as int) {
                Some((rest, e)) => parse_str_body(s@, i as int) matches Some((all, e2)) && all
                    == out@ + rest && e2 == e && cur < e <= s@.len(),
                None => parse_str_body(s@, i as int) is None,
            },
        decreases s@.len() - cur,
    {
        if cur >= s.len() {
            return None;
        }
        let b = s[cur];
        if b == 34 {
            proof {
                assert(out@ + Seq::<u8>::empty() =~= out@);
            }
            return Some((out, cur + 1));
        }
        if b == 92 {
            let ghost pre = out@;
            let ghost c0 = cur as int;
            if cur + 1 >= s.len() {
                return None;
            }
            let e = s[cur + 1];
            let next: usize;
            if e == 34 {
                out.push(34);
                next = cur + 2;
            } else if e == 92 {
                out.push(92);
                next = cur + 2;
            } else if e == 47 {
                out.push(47);
                next = cur + 2;
            } else if e == 98 {
                out.push(8);
                next = cur + 2;
            } else if e == 102 {
                out.push(12);
                next = cur + 2;
            } else if e == 110 {
                out.push(10);
                next = cur + 2;
            } else if e == 114 {
                out.push(13);
                next = cur + 2;
            } else if e == 116 {
                out.push(9);
                next = cur + 2;
            } else if e == 117 {
                let cp = match hex4(s, cur + 2) {
                    Some(cp) => cp,
                    None => {
                        return None;
                    },
                };
                if 0xD800 <= cp && cp < 0xDC00 {
                    if !(s.len() - cur >= 8 && s[cur + 6] == 92 && s[cur + 7] == 117) {
                        return None;
                    }
                    let lo = match hex4(s, cur + 8) {
                        Some(lo) => lo,
                        None => {
                            return None;
                        },
                    };
                    if !(0xDC00 <= lo && lo < 0xE000) {
                        return None;
                    }
                    let combined = 0x10000 + (cp - 0xD800) * 0x400 + (lo - 0xDC00);
                    push_scalar_utf8(&mut out, combined);
                    next = cur + 12;
                } else if 0xDC00 <= cp && cp < 0xE000 {
                    return None;
                } else {
                    push_scalar_utf8(&mut out, cp);
                    next = cur + 6;
                }
            } else {
                return None;
            }
            proof {
                let (piece, j) = parse_escape(s@, c0)->Some_0;
                assert(out@ == pre + piece);
                assert(j == next as int);
                lemma_parse_str_body_bounds(s@, next as int);
                if parse_str_body(s@, next as int) is Some {
                    let (rest, _e) = parse_str_body(s@, next as int)->Some_0;
                    assert(pre + piece + rest =~= pre + (piece + rest));
                }
            }
            cur = next;
        } else if b < 32 {
            return None;
        } else {
            let ghost pre = out@;
            out.push(b);
            proof {
                lemma_parse_str_body_bounds(s@, cur + 1);
                if parse_str_body(s@, cur + 1) is Some {
                    let (rest, _e) = parse_str_body(s@, cur + 1)->Some_0;
                    assert(pre + seq![b] + rest =~= pre + (seq![b] + rest));
                }
            }
            cur = cur + 1;
        }
    }
}

/// A scalar value at `i`, with no leading whitespace.
fn parse_value_at(s: &[u8], i: usize) -> (r: Option<(ScalarValue, usize)>)
    requires
        i <= s@.len(),
    ensures
        match parse_value(s@, i as int) {
            Some((v, end)) => r matches Some((rv, e)) && rv@ == v && e == end && i < e <= s@.len(),
            None => r is None,
        },
{
    if i >= s.len() {
        return None;
    }
    let b = s[i];
    if b == 34 {
        match parse_string_body(s, i + 1) {
            Some((v, e)) => Some((ScalarValue::Str(v), e)),
            None => None,
        }
    } else if b == 116 {
        if s.len() - i >= 4 && s[i + 1] == 114 && s[i + 2] == 117 && s[i + 3] == 101 {
            Some((ScalarValue::Bool(true), i + 4))
        } else {
            None
        }
    } else if b == 102 {
        if s.len() - i >= 5 && s[i + 1] == 97 && s[i + 2] == 108 && s[i + 3] == 115 && s[i + 4]
            == 101 {
            Some((ScalarValue::Bool(false), i + 5))
        } else {
            None
        }
    } else if b == 110 {
        if s.len() - i >= 4 && s[i + 1] == 117 && s[i + 2] == 108 && s[i + 3] == 108 {
            Some((ScalarValue::Null, i + 4))
        } else {
            None
        }
    } else {
        None
    }
}

/// An object key at `i`: a string, a colon, and the position of the value.
fn parse_key_at(s: &[u8], i: usize) -> (r: Option<(Vec<u8>, usize)>)
    requires
        i <= s@.len(),
    ensures
        match parse_key(s@, i as int) {
            Some((key, end)) => r matches Some((v, e)) && v@ == key && e == end && e <= s@.len(),
            None => r is None,
        },
{
    if i >= s.len() || s[i] != 34 {
        return None;
    }
    let (key, p) = match parse_string_body(s, i + 1) {
        Some(x) => x,
        None => {
            return None;
        },
    };
    let q = skip_ws(s, p);
    if q < s.len() && s[q] == 58 {
        Some((key, skip_ws(s, q + 1)))
    } else {
        None
    }
}

/// Builds the message a tag and content name, if they name one.
fn assemble_message(tag: Vec<u8>, content: Option<ScalarValue>) -> (r: Result<
    ClientMessage,
    PlancError,
>)
    ensures
        match assemble(
            tag@,
            match content {
                Some(c) => Some(c@),
                None => None,
            },
        ) {
            Some(v) => r matches Ok(m) && m@ == v,
            None => r == Err::<ClientMessage, PlancError>(PlancError::InvalidMessage),
        },
{
    if bytes_eq(tag.as_slice(), "NameChange".as_bytes()) {
        match content {
            Some(ScalarValue::Str(b)) => match string_from_utf8(b) {
                Some(t) => Ok(ClientMessage::NameChange(t)),
                None => Err(PlancError::InvalidMessage),
            },
            _ => Err(PlancError::InvalidMessage),
        }
    } else if bytes_eq(tag.as_slice(), "SetPoints".as_bytes()) {
        match content {
            Some(ScalarValue::Str(b)) => match string_from_utf8(b) {
                Some(t) => Ok(ClientMessage::SetPoints(t)),
                None => Err(PlancError::InvalidMessage),
            },
            _ => Err(PlancError::InvalidMessage),
        }
    } else if bytes_eq(tag.as_slice(), "KickUser".as_bytes()) {
        match content {
            Some(ScalarValue::Str(b)) => match string_from_utf8(b) {
                Some(t) => Ok(ClientMessage::KickUser(t)),
                None => Err(PlancError::InvalidMessage),
            },
            _ => Err(PlancError::InvalidMessage),
        }
    } else if bytes_eq(tag.as_slice(), "SetSpectator".as_bytes()) {
        match content {
            Some(ScalarValue::Bool(x)) => Ok(ClientMessage::SetSpectator(x)),
            _ => Err(PlancError::InvalidMessage),
        }
    } else if bytes_eq(tag.as_slice(), "ResetPoints".as_bytes()) {
        match content {
            None => Ok(ClientMessage::ResetPoints),
            Some(ScalarValue::Null) => Ok(ClientMessage::ResetPoints),
            _ => Err(PlancError::InvalidMessage),
        }
    } else if bytes_eq(tag.as_slice(), "Whoami".as_bytes()) {
        match content {
            None => Ok(ClientMessage::Whoami),
            Some(ScalarValue::Null) => Ok(ClientMessage::Whoami),
            _ => Err(PlancError::InvalidMessage),
        }
    } else if bytes_eq(tag.as_slice(), "ClaimSession".as_bytes()) {
        match content {
            None => Ok(ClientMessage::ClaimSession),
            Some(ScalarValue::Null) => Ok(ClientMessage::ClaimSession),
            _ => Err(PlancError::InvalidMessage),
        }
    } else {
        Err(PlancError::InvalidMessage)
    }
}

/// Decodes one command from the bytes of one text frame; exactly the
/// inputs of [`spec_decode_client_message`]'s grammar are accepted.
pub fn decode_client_message(s: &[u8]) -> (r: Result<ClientMessage, PlancError>)
    ensures
        match spec_decode_client_message(s@) {
            Some(v) => r matches Ok(m) && m@ == v,
            None => r == Err::<ClientMessage, PlancError>(PlancError::InvalidMessage),
        },
{
    let i = skip_ws(s, 0);
    if !(i < s.len() && s[i] == 123) {
        return Err(PlancError::InvalidMessage);
    }
    let (k1, p1) = match parse_key_at(s, skip_ws(s, i + 1)) {
        Some(x) => x,
        None => {
            return Err(PlancError::InvalidMessage);
        },
    };
    if bytes_eq(k1.as_slice(), "tag".as_bytes()) {
        let (tag, p2) = match parse_value_at(s, p1) {
            Some((ScalarValue::Str(t), p2)) => (t, p2),
            _ => {
                return Err(PlancError::InvalidMessage);
            },
        };
        let q = skip_ws(s, p2);
        if q < s.len() && s[q] == 125 {
            if skip_ws(s, q + 1) == s.len() {
                assemble_message(tag, None)
            } else {
                Err(PlancError::InvalidMessage)
            }
        } else if q < s.len() && s[q] == 44 {
            let (k2, p3) = match parse_key_at(s, skip_ws(s, q + 1)) {
                Some(x) => x,
                None => {
                    return Err(PlancError::InvalidMessage);
                },
            };
            if !bytes_eq(k2.as_slice(), "content".as_bytes()) {
                return Err(PlancError::InvalidMessage);
            }
            let (v, p4) = match parse_value_at(s, p3) {
                Some(x) => x,
                None => {
                    return Err(PlancError::InvalidMessage);
                },
            };
            let e = skip_ws(s, p4);
            if e < s.len() && s[e] == 125 && skip_ws(s, e + 1) == s.len() {
                assemble_message(tag, Some(v))
            } else {
                Err(PlancError::InvalidMessage)
            }
        } else {
            Err(PlancError::InvalidMessage)
        }
    } else if bytes_eq(k1.as_slice(), "content".as_bytes()) {
        let (v, p2) = match parse_value_at(s, p1) {
            Some(x) => x,
            None => {
                return Err(PlancError::InvalidMessage);
            },
        };
        let q = skip_ws(s, p2);
        if !(q < s.len() && s[q] == 44) {
            return Err(PlancError::InvalidMessage);
        }
        let (k2, p3) = match parse_key_at(s, skip_ws(s, q + 1)) {
            Some(x) => x,
            None => {
                return Err(PlancError::InvalidMessage);
            },
        };
        if !bytes_eq(k2.as_slice(), "tag".as_bytes()) {
            return Err(PlancError::InvalidMessage);
        }
        let (tag, p4) = match parse_value_at(s, p3) {
            Some((ScalarValue::Str(t), p4)) => (t, p4),
            _ => {
                return Err(PlancError::InvalidMessage);
            },
        };
        let e = skip_ws(s, p4);
        if e < s.len() && s[e] == 125 && skip_ws(s, e + 1) == s.len() {
            assemble_message(tag, Some(v))
        } else {
            Err(PlancError::InvalidMessage)
        }
    } else {
        Err(PlancError::InvalidMessage)
    }
}

/// The canonical bytes of a command with a content entry: compact, tag
/// first, as the browser client writes it.
pub open spec fn canonical_fields(tag: Seq<char>, content: Seq<u8>) -> Seq<u8> {
    fields_head(tag) + content + seq![125u8]
}

/// Everything of [`canonical_fields`] before the content value.
pub open spec fn fields_head(tag: Seq<char>) -> Seq<u8> {
    seq![123u8] + json_string("tag"@) + seq![58u8] + json_string(tag) + seq![44u8] + json_string(
        "content"@,
    ) + seq![58u8]
}

/// The canonical bytes of a command without content.
pub open spec fn canonical_bare(tag: Seq<char>) -> Seq<u8> {
    seq![123u8] + json_string("tag"@) + seq![58u8] + json_string(tag) + seq![125u8]
}

/// The canonical encoding of one command.
pub open spec fn canonical_client_bytes(v: ClientMessageView) -> Seq<u8> {
    match v {
        ClientMessageView::NameChange(s) => canonical_fields("NameChange"@, json_string(s)),
        ClientMessageView::SetPoints(s) => canonical_fields("SetPoints"@, json_string(s)),
        ClientMessageView::KickUser(s) => canonical_fields("KickUser"@, json_string(s)),
        ClientMessageView::SetSpectator(b) => canonical_fields("SetSpectator"@, json_bool(b)),
        ClientMessageView::ResetPoints => canonical_bare("ResetPoints"@),
        ClientMessageView::Whoami => canonical_bare("Whoami"@),
        ClientMessageView::ClaimSession => canonical_bare("ClaimSession"@),
    }
}

/// Escaping distributes over appending one byte.
proof fn lemma_escape_bytes_push(t: Seq<u8>, x: u8)
    ensures
        escape_bytes(t.push(x)) == escape_bytes(t) + escape_byte(x),
    decreases t.len(),
{
    if t.len() == 0 {
        assert(t.push(x)[0] == x);
        assert(t.push(x).drop_first() =~= Seq::<u8>::empty());
        assert(escape_bytes(Seq::<u8>::empty()) =~= Seq::<u8>::empty());
        assert(escape_byte(x) + Seq::<u8>::empty() =~= Seq::<u8>::empty() + escape_byte(x));
    } else {
        assert(t.push(x)[0] == t[0]);
        assert(t.push(x).drop_first() =~= t.drop_first().push(x));
        lemma_escape_bytes_push(t.drop_first(), x);
        assert(escape_byte(t[0]) + (escape_bytes(t.drop_first()) + escape_byte(x)) =~= (escape_byte(
            t[0],
        ) + escape_bytes(t.drop_first())) + escape_byte(x));
    }
}

/// The user list's encoding grows by a separator and one entry.
proof fn lemma_json_users_push(t: Seq<(u64, UserStateView)>, p: (u64, UserStateView))
    ensures
        json_users(t.push(p)) == if t.len() == 0 {
            json_user_entry(p)
        } else {
            json_users(t) + encode_utf8(","@) + json_user_entry(p)
        },
    decreases t.len(),
{
    if t.len() == 0 {
        assert(t.push(p)[0] == p);
    } else if t.len() == 1 {
        assert(t.push(p)[0] == t[0]);
        assert(t.push(p).drop_first() =~= t.drop_first().push(p));
        assert(t.drop_first().push(p) =~= seq![p]);
        assert(json_users(seq![p]) == json_user_entry(p));
    } else {
        assert(t.push(p)[0] == t[0]);
        assert(t.push(p).drop_first() =~= t.drop_first().push(p));
        lemma_json_users_push(t.drop_first(), p);
        assert(json_user_entry(t[0]) + encode_utf8(","@) + (json_users(t.drop_first())
            + encode_utf8(","@) + json_user_entry(p)) =~= (json_user_entry(t[0]) + encode_utf8(
            ","@,
        ) + json_users(t.drop_first())) + encode_utf8(","@) + json_user_entry(p));
    }
}

/// A hexadecimal digit byte reads back as its value.
proof fn lemma_hex_digit_roundtrip(d: u32)
    requires
        d < 16,
    ensures
        hex_val_of(hex_digit_byte(d)) == Some(d),
{
}

/// Escaped string content, followed by the closing quote, parses back to
/// the content unchanged, whatever follows the quote.
#[verifier::rlimit(60)]
proof fn lemma_parse_escaped(t: Seq<u8>, i: int, b: Seq<u8>, tail: Seq<u8>)
    requires
        0 <= i <= t.len(),
        t.skip(i) == escape_bytes(b) + seq![34u8] + tail,
    ensures
        parse_str_body(t, i) == Some((b, i + escape_bytes(b).len() + 1)),
    decreases b.len(),
{
    assert(forall|j: int| 0 <= j < t.len() - i ==> (#[trigger] t.skip(i)[j]) == t[i + j]);
    if b.len() == 0 {
        assert(escape_bytes(b) =~= Seq::<u8>::empty());
        assert(t.skip(i).len() == t.len() - i);
        assert(t.len() - i == 1 + tail.len());
        assert(t[i] == 34) by {
            assert(t.skip(i)[0] == t[i + 0]);
            assert(t.skip(i)[0] == (escape_bytes(b) + seq![34u8] + tail)[0]);
            assert((escape_bytes(b) + seq![34u8] + tail)[0] == (escape_bytes(b) + seq![34u8])[0]);
            assert((escape_bytes(b) + seq![34u8])[0] == 34u8);
        }
        assert(parse_str_body(t, i) == Some((Seq::<u8>::empty(), i + 1)));
        assert(b =~= Seq::<u8>::empty());
    } else {
        let b0 = b[0];
        let eb = escape_byte(b0);
        let brest = b.drop_first();
        let comp = escape_bytes(b) + seq![34u8] + tail;
        assert(escape_bytes(b) == eb + escape_bytes(brest));
        assert(t.skip(i).len() == t.len() - i);
        assert(t.len() - i == comp.len());
        assert(escape_bytes(b).len() == eb.len() + escape_bytes(brest).len());
        assert forall|j: int| 0 <= j < eb.len() implies t[i + j] == eb[j] by {
            assert(t.skip(i)[j] == t[i + j]);
            assert(comp[j] == (escape_bytes(b) + seq![34u8])[j]);
            assert((escape_bytes(b) + seq![34u8])[j] == escape_bytes(b)[j]);
            assert(escape_bytes(b)[j] == (eb + escape_bytes(brest))[j]);
            assert((eb + escape_bytes(brest))[j] == eb[j]);
        }
        let next = i + eb.len();
        let tgt = escape_bytes(brest) + seq![34u8] + tail;
        let l1 = escape_bytes(brest).len() as int;
        assert(t.skip(next) =~= tgt) by {
            assert(t.skip(next).len() == tgt.len());
            assert forall|j: int| 0 <= j < tgt.len() implies t.skip(next)[j] == tgt[j] by {
                assert(t.skip(next)[j] == t[next + j]);
                assert(t.skip(i)[eb.len() + j] == t[next + j]);
                assert(comp[eb.len() + j] == t.skip(i)[eb.len() + j]);
                if j < l1 {
                    assert(comp[eb.len() + j] == (escape_bytes(b) + seq![34u8])[eb.len() + j]);
                    assert((escape_bytes(b) + seq![34u8])[eb.len() + j] == escape_bytes(b)[eb.len()
                        + j]);
                    assert(escape_bytes(b)[eb.len() + j] == (eb + escape_bytes(brest))[eb.len()
                        + j]);
                    assert((eb + escape_bytes(brest))[eb.len() + j] == escape_bytes(brest)[j]);
                    assert(tgt[j] == (escape_bytes(brest) + seq![34u8])[j]);
                    assert((escape_bytes(brest) + seq![34u8])[j] == escape_bytes(brest)[j]);
                } else if j == l1 {
                    assert(comp[eb.len() + j] == (escape_bytes(b) + seq![34u8])[eb.len() + j]);
                    assert((escape_bytes(b) + seq![34u8])[eb.len() + j] == 34u8);
                    assert(tgt[j] == (escape_bytes(brest) + seq![34u8])[j]);
                    assert((escape_bytes(brest) + seq![34u8])[j] == 34u8);
                } else {
                    assert(comp[eb.len() + j] == tail[eb.len() + j - (escape_bytes(b).len()
                        + 1)]);
                    assert(tgt[j] == tail[j - (l1 + 1)]);
                }
            }
        }
        lemma_parse_escaped(t, next, brest, tail);
        if b0 == 34 || b0 == 92 || b0 == 8 || b0 == 9 || b0 == 10 || b0 == 12 || b0 == 13 {
            assert(t[i] == 92);
            assert(parse_escape(t, i) == Some((seq![b0], i + 2)));
            assert(seq![b0] + brest =~= b);
        } else if b0 < 32 {
            assert(t[i] == 92 && t[i + 1] == 117 && t[i + 2] == 48 && t[i + 3] == 48);
            let hi = (b0 >> 4) as u32;
            let lo = (b0 & 15) as u32;
            assert(hi < 16 && lo < 16) by (bit_vector)
                requires
                    hi == (b0 >> 4) as u32,
                    lo == (b0 & 15) as u32,
            ;
            lemma_hex_digit_roundtrip(hi);
            lemma_hex_digit_roundtrip(lo);
            assert(t[i + 4] == hex_digit_byte(hi) && t[i + 5] == hex_digit_byte(lo));
            let cp = (hi * 16 + lo) as u32;
            assert(parse_hex4(t, i + 2) == Some(cp));
            assert(cp == b0 as u32) by (bit_vector)
                requires
                    hi == (b0 >> 4) as u32,
                    lo == (b0 & 15) as u32,
                    cp == (hi * 16 + lo) as u32,
            ;
            assert(cp < 32);
            assert(parse_escape(t, i) == Some((encode_scalar(cp), i + 6)));
            assert(encode_scalar(cp) =~= seq![b0]) by {
                assert((cp & 0x7F) as u8 == b0) by (bit_vector)
                    requires
                        cp == b0 as u32,
                        b0 < 32,
                ;
            }
            assert(seq![b0] + brest =~= b);
        } else {
            assert(t[i] == b0) by {
                assert(t[i + 0] == eb[0]);
            }
            assert(b0 != 34 && b0 != 92 && b0 >= 32);
            assert(seq![b0] + brest =~= b);
        }
    }
}

/// What [`json_string`] writes, [`parse_str_body`] reads back: the
/// encoder and the decoder agree on the string escaping, whatever bytes
/// follow the string.
pub proof fn lemma_string_codec_inverts(s: Seq<char>, rest: Seq<u8>)
    ensures
        parse_str_body(json_string(s) + rest, 1) == Some(
            (encode_utf8(s), json_string(s).len() as int),
        ),
{
    let t = json_string(s) + rest;
    let b = encode_utf8(s);
    assert(t.skip(1) =~= escape_bytes(b) + seq![34u8] + rest);
    lemma_parse_escaped(t, 1, b, rest);
}

/// A byte within a known remainder of the input.
proof fn lemma_skip_index(t: Seq<u8>, i: int, x: Seq<u8>, tail: Seq<u8>, j: int)
    requires
        0 <= i <= t.len(),
        t.skip(i) == x + tail,
        0 <= j < x.len(),
    ensures
        t[i + j] == x[j],
{
    assert(t.skip(i).len() == t.len() - i);
    assert(t.skip(i)[j] == t[i + j]);
    assert((x + tail)[j] == x[j]);
}

/// Consuming a known head of the remainder leaves the rest.
proof fn lemma_skip_advance(t: Seq<u8>, i: int, x: Seq<u8>, tail: Seq<u8>)
    requires
        0 <= i <= t.len(),
        t.skip(i) == x + tail,
    ensures
        i + x.len() <= t.len(),
        t.skip(i + x.len()) == tail,
{
    assert(t.skip(i).len() == t.len() - i);
    let n = i + x.len() as int;
    assert(t.skip(n).len() == t.len() - n);
    assert forall|j: int| 0 <= j < tail.len() implies t.skip(n)[j] == tail[j] by {
        assert(t.skip(n)[j] == t[n + j]);
        assert(t.skip(i)[x.len() + j] == t[n + j]);
        assert((x + tail)[x.len() + j] == tail[j]);
    }
    assert(t.skip(n) =~= tail);
}

/// A JSON string at a known position of the input parses back to its
/// characters' bytes and ends where the encoder says it ends.
proof fn lemma_parse_json_string_at(t: Seq<u8>, i: int, s: Seq<char>, tail: Seq<u8>)
    requires
        0 <= i <= t.len(),
        t.skip(i) == json_string(s) + tail,
    ensures
        t[i] == 34,
        parse_str_body(t, i + 1) == Some((encode_utf8(s), i + json_string(s).len())),
        i + json_string(s).len() <= t.len(),
        t.skip(i + json_string(s).len()) == tail,
{
    let js = json_string(s);
    let b = encode_utf8(s);
    lemma_skip_index(t, i, js, tail, 0);
    assert(js[0] == 34) by {
        assert((seq![34u8] + escape_bytes(b) + seq![34u8])[0] == (seq![34u8] + escape_bytes(
            b,
        ))[0]);
    }
    assert(t.skip(i) =~= seq![34u8] + (escape_bytes(b) + seq![34u8] + tail)) by {
        assert(js + tail =~= seq![34u8] + (escape_bytes(b) + seq![34u8] + tail));
    }
    lemma_skip_advance(t, i, seq![34u8], escape_bytes(b) + seq![34u8] + tail);
    assert(t.skip(i + 1) == escape_bytes(b) + seq![34u8] + tail);
    lemma_parse_escaped(t, i + 1, b, tail);
    assert(i + 1 + escape_bytes(b).len() + 1 == i + js.len());
    lemma_skip_advance(t, i, js, tail);
}

/// The byte forms of the boolean literals.
proof fn lemma_bool_bytes()
    ensures
        encode_utf8("true"@) =~= seq![116u8, 114u8, 117u8, 101u8],
        encode_utf8("false"@) =~= seq![102u8, 97u8, 108u8, 115u8, 101u8],
{
    reveal_strlit("true");
    reveal_strlit("false");
    assert(is_ascii_chars("true"@));
    assert(is_ascii_chars("false"@));
    vstd::utf8::is_ascii_chars_encode_utf8("true"@);
    vstd::utf8::is_ascii_chars_encode_utf8("false"@);
}

/// The lengths, and where needed the leading bytes, of the tag names:
/// enough to tell any two tags apart.
proof fn lemma_tag_facts()
    ensures
        encode_utf8("NameChange"@).len() == 10,
        encode_utf8("SetPoints"@).len() == 9,
        encode_utf8("KickUser"@).len() == 8,
        encode_utf8("SetSpectator"@).len() == 12,
        encode_utf8("ResetPoints"@).len() == 11,
        encode_utf8("Whoami"@).len() == 6,
        encode_utf8("ClaimSession"@).len() == 12,
        encode_utf8("SetSpectator"@)[0] == 83u8,
        encode_utf8("ClaimSession"@)[0] == 67u8,
{
    reveal_strlit("NameChange");
    reveal_strlit("SetPoints");
    reveal_strlit("KickUser");
    reveal_strlit("SetSpectator");
    reveal_strlit("ResetPoints");
    reveal_strlit("Whoami");
    reveal_strlit("ClaimSession");
    assert(is_ascii_chars("NameChange"@));
    assert(is_ascii_chars("SetPoints"@));
    assert(is_ascii_chars("KickUser"@));
    assert(is_ascii_chars("SetSpectator"@));
    assert(is_ascii_chars("ResetPoints"@));
    assert(is_ascii_chars("Whoami"@));
    assert(is_ascii_chars("ClaimSession"@));
    vstd::utf8::is_ascii_chars_encode_utf8("NameChange"@);
    vstd::utf8::is_ascii_chars_encode_utf8("SetPoints"@);
    vstd::utf8::is_ascii_chars_encode_utf8("KickUser"@);
    vstd::utf8::is_ascii_chars_encode_utf8("SetSpectator"@);
    vstd::utf8::is_ascii_chars_encode_utf8("ResetPoints"@);
    vstd::utf8::is_ascii_chars_encode_utf8("Whoami"@);
    vstd::utf8::is_ascii_chars_encode_utf8("ClaimSession"@);
}

/// Walks the decoder through a canonical object with a content entry:
/// the result is the assembly of the tag and the content's value.
#[verifier::rlimit(60)]
proof fn lemma_decode_fields(tag: Seq<char>, content: Seq<u8>, cv: JsonScalar)
    requires
        content.len() > 0,
        !is_json_ws(content[0]),
        forall|t2: Seq<u8>, i: int|
            0 <= i <= t2.len() && #[trigger] t2.skip(i) == content + seq![125u8] ==> parse_value(
                t2,
                i,
            ) == Some((cv, i + content.len())),
    ensures
        spec_decode_client_message(canonical_fields(tag, content)) == assemble(
            encode_utf8(tag),
            Some(cv),
        ),
{
    let t = canonical_fields(tag, content);
    let jt = json_string("tag"@);
    let jg = json_string(tag);
    let jc = json_string("content"@);
    let rest7 = content + seq![125u8];
    let rest6 = seq![58u8] + rest7;
    let rest5 = jc + rest6;
    let rest4 = seq![44u8] + rest5;
    let rest3 = jg + rest4;
    let rest2 = seq![58u8] + rest3;
    let rest1 = jt + rest2;
    assert(t.skip(0) =~= seq![123u8] + rest1);
    lemma_skip_index(t, 0, seq![123u8], rest1, 0);
    assert(ws_end(t, 0) == 0);
    lemma_skip_advance(t, 0, seq![123u8], rest1);
    lemma_parse_json_string_at(t, 1, "tag"@, rest2);
    assert(ws_end(t, 1) == 1);
    let p = 1 + jt.len() as int;
    lemma_skip_index(t, p, seq![58u8], rest3, 0);
    assert(ws_end(t, p) == p);
    lemma_skip_advance(t, p, seq![58u8], rest3);
    lemma_parse_json_string_at(t, p + 1, tag, rest4);
    assert(ws_end(t, p + 1) == p + 1);
    assert(parse_key(t, 1) == Some((encode_utf8("tag"@), p + 1)));
    assert(parse_value(t, p + 1) == Some(
        (JsonScalar::Str(encode_utf8(tag)), p + 1 + jg.len()),
    ));
    let p2 = p + 1 + jg.len() as int;
    lemma_skip_index(t, p2, seq![44u8], rest5, 0);
    assert(ws_end(t, p2) == p2);
    lemma_skip_advance(t, p2, seq![44u8], rest5);
    lemma_parse_json_string_at(t, p2 + 1, "content"@, rest6);
    assert(ws_end(t, p2 + 1) == p2 + 1);
    let pc = p2 + 1 + jc.len() as int;
    lemma_skip_index(t, pc, seq![58u8], rest7, 0);
    assert(ws_end(t, pc) == pc);
    lemma_skip_advance(t, pc, seq![58u8], rest7);
    assert(parse_key(t, p2 + 1) == Some((encode_utf8("content"@), ws_end(t, pc + 1))));
    let pv = pc + 1;
    lemma_skip_index(t, pv, content, seq![125u8], 0);
    assert(ws_end(t, pv) == pv);
    assert(t.skip(pv) == content + seq![125u8]);
    assert(parse_value(t, pv) == Some((cv, pv + content.len())));
    let pe = pv + content.len() as int;
    lemma_skip_advance(t, pv, content, seq![125u8]);
    assert(t.skip(pe) =~= seq![125u8] + Seq::<u8>::empty());
    lemma_skip_index(t, pe, seq![125u8], Seq::<u8>::empty(), 0);
    assert(ws_end(t, pe) == pe);
    lemma_skip_advance(t, pe, seq![125u8], Seq::<u8>::empty());
    assert(t.len() == pe + 1);
    assert(ws_end(t, pe + 1) == t.len());
    assert(after_tag(t, encode_utf8(tag), p2) == assemble(encode_utf8(tag), Some(cv)));
    assert(spec_decode_client_message(t) == after_tag(t, encode_utf8(tag), p2));
}

/// Walks the decoder through a canonical object without content.
proof fn lemma_decode_bare(tag: Seq<char>)
    ensures
        spec_decode_client_message(canonical_bare(tag)) == assemble(encode_utf8(tag), None),
{
    let t = canonical_bare(tag);
    let jt = json_string("tag"@);
    let jg = json_string(tag);
    let rest3 = seq![125u8];
    let rest2 = seq![58u8] + (jg + rest3);
    let rest1 = jt + rest2;
    assert(t.skip(0) =~= seq![123u8] + rest1);
    lemma_skip_index(t, 0, seq![123u8], rest1, 0);
    assert(ws_end(t, 0) == 0);
    lemma_skip_advance(t, 0, seq![123u8], rest1);
    lemma_parse_json_string_at(t, 1, "tag"@, rest2);
    assert(ws_end(t, 1) == 1);
    let p = 1 + jt.len() as int;
    lemma_skip_index(t, p, seq![58u8], jg + rest3, 0);
    assert(ws_end(t, p) == p);
    lemma_skip_advance(t, p, seq![58u8], jg + rest3);
    lemma_parse_json_string_at(t, p + 1, tag, rest3);
    assert(ws_end(t, p + 1) == p + 1);
    assert(parse_key(t, 1) == Some((encode_utf8("tag"@), p + 1)));
    assert(parse_value(t, p + 1) == Some(
        (JsonScalar::Str(encode_utf8(tag)), p + 1 + jg.len()),
    ));
    let p2 = p + 1 + jg.len() as int;
    assert(t.skip(p2) =~= seq![125u8] + Seq::<u8>::empty());
    lemma_skip_index(t, p2, seq![125u8], Seq::<u8>::empty(), 0);
    assert(ws_end(t, p2) == p2);
    lemma_skip_advance(t, p2, seq![125u8], Seq::<u8>::empty());
    assert(t.len() == p2 + 1);
    assert(ws_end(t, p2 + 1) == t.len());
    assert(after_tag(t, encode_utf8(tag), p2) == assemble(encode_utf8(tag), None));
    assert(spec_decode_client_message(t) == after_tag(t, encode_utf8(tag), p2));
}

/// A JSON string as content parses as its characters' bytes.
proof fn lemma_string_content(s: Seq<char>)
    ensures
        json_string(s).len() > 0,
        !is_json_ws(json_string(s)[0]),
        forall|t2: Seq<u8>, i: int|
            0 <= i <= t2.len() && #[trigger] t2.skip(i) == json_string(s) + seq![125u8]
                ==> parse_value(t2, i) == Some(
                (JsonScalar::Str(encode_utf8(s)), i + json_string(s).len()),
            ),
{
    assert(json_string(s)[0] == 34) by {
        assert((seq![34u8] + escape_bytes(encode_utf8(s)) + seq![34u8])[0] == (seq![34u8]
            + escape_bytes(encode_utf8(s)))[0]);
    }
    assert forall|t2: Seq<u8>, i: int|
        0 <= i <= t2.len() && #[trigger] t2.skip(i) == json_string(s) + seq![125u8]
            implies parse_value(t2, i) == Some(
        (JsonScalar::Str(encode_utf8(s)), i + json_string(s).len()),
    ) by {
        lemma_parse_json_string_at(t2, i, s, seq![125u8]);
        assert(t2.skip(i).len() == t2.len() - i);
        assert(i < t2.len());
    }
}

/// A boolean literal as content parses as its value.
proof fn lemma_bool_content(b: bool)
    ensures
        json_bool(b).len() > 0,
        !is_json_ws(json_bool(b)[0]),
        forall|t2: Seq<u8>, i: int|
            0 <= i <= t2.len() && #[trigger] t2.skip(i) == json_bool(b) + seq![125u8]
                ==> parse_value(t2, i) == Some((JsonScalar::Bool(b), i + json_bool(b).len())),
{
    lemma_bool_bytes();
    assert forall|t2: Seq<u8>, i: int|
        0 <= i <= t2.len() && #[trigger] t2.skip(i) == json_bool(b) + seq![125u8]
            implies parse_value(t2, i) == Some((JsonScalar::Bool(b), i + json_bool(b).len())) by {
        assert(t2.skip(i).len() == t2.len() - i);
        lemma_skip_index(t2, i, json_bool(b), seq![125u8], 0);
        if b {
            lemma_skip_index(t2, i, json_bool(b), seq![125u8], 1);
            lemma_skip_index(t2, i, json_bool(b), seq![125u8], 2);
            lemma_skip_index(t2, i, json_bool(b), seq![125u8], 3);
        } else {
            lemma_skip_index(t2, i, json_bool(b), seq![125u8], 1);
            lemma_skip_index(t2, i, json_bool(b), seq![125u8], 2);
            lemma_skip_index(t2, i, json_bool(b), seq![125u8], 3);
            lemma_skip_index(t2, i, json_bool(b), seq![125u8], 4);
        }
    }
}

/// The canonical encoding of every command — the compact, tag-first shape
/// the browser client writes — decodes back to exactly that command.
pub proof fn lemma_decode_canonical_client(v: ClientMessageView)
    ensures
        spec_decode_client_message(canonical_client_bytes(v)) == Some(v),
{
    lemma_tag_facts();
    match v {
        ClientMessageView::NameChange(s) => {
            lemma_string_content(s);
            lemma_decode_fields("NameChange"@, json_string(s), JsonScalar::Str(encode_utf8(s)));
            vstd::utf8::encode_utf8_valid_utf8(s);
            vstd::utf8::encode_utf8_decode_utf8(s);
        },
        ClientMessageView::SetPoints(s) => {
            lemma_string_content(s);
            lemma_decode_fields("SetPoints"@, json_string(s), JsonScalar::Str(encode_utf8(s)));
            vstd::utf8::encode_utf8_valid_utf8(s);
            vstd::utf8::encode_utf8_decode_utf8(s);
        },
        ClientMessageView::KickUser(s) => {
            lemma_string_content(s);
            lemma_decode_fields("KickUser"@, json_string(s), JsonScalar::Str(encode_utf8(s)));
            vstd::utf8::encode_utf8_valid_utf8(s);
            vstd::utf8::encode_utf8_decode_utf8(s);
        },
        ClientMessageView::SetSpectator(b) => {
            lemma_bool_content(b);
            lemma_decode_fields("SetSpectator"@, json_bool(b), JsonScalar::Bool(b));
        },
        ClientMessageView::ResetPoints => {
            lemma_decode_bare("ResetPoints"@);
        },
        ClientMessageView::Whoami => {
            lemma_decode_bare("Whoami"@);
        },
        ClientMessageView::ClaimSession => {
            lemma_decode_bare("ClaimSession"@);
        },
    }
}

/// Appends the UTF-8 bytes of a fixed piece of text.
fn push_lit(out: &mut Vec<u8>, s: &str)
    ensures
        final(out)@ == old(out)@ + encode_utf8(s@),
{
    out.extend_from_slice(s.as_bytes());
}

/// The lowercase hexadecimal digit byte for `d`.
fn hex_digit_exec(d: u32) -> (r: u8)
    requires
        d < 16,
    ensures
        r == hex_digit_byte(d),
{
    if d < 10 {
        (48 + d) as u8
    } else {
        (87 + (d - 10) + 10) as u8
    }
}

/// Appends a JSON string holding the characters of `s`.
fn push_json_string(out: &mut Vec<u8>, s: &str)
    ensures
        final(out)@ == old(out)@ + json_string(s@),
{
    let ghost start = out@;
    out.push(34);
    let b = s.as_bytes();
    let ghost bs = b@;
    let n = b.len();
    let mut i: usize = 0;
    while i < n
        invariant
            0 <= i <= n,
            n == bs.len(),
            bs == b@,
            out@ == start + seq![34u8] + escape_bytes(bs.take(i as int)),
        decreases n - i,
    {
        let ghost pre = out@;
        let x = b[i];
        if x == 34 {
            out.push(92);
            out.push(34);
        } else if x == 92 {
            out.push(92);
            out.push(92);
        } else if x == 8 {
            out.push(92);
            out.push(98);
        } else if x == 9 {
            out.push(92);
            out.push(116);
        } else if x == 10 {
            out.push(92);
            out.push(110);
        } else if x == 12 {
            out.push(92);
            out.push(102);
        } else if x == 13 {
            out.push(92);
            out.push(114);
        } else if x < 32 {
            proof {
                assert(x >> 4 < 16 && x & 15 < 16) by (bit_vector);
            }
            out.push(92);
            out.push(117);
            out.push(48);
            out.push(48);
            out.push(hex_digit_exec((x >> 4) as u32));
            out.push(hex_digit_exec((x & 15) as u32));
        } else {
            out.push(x);
        }
        proof {
            assert(out@ =~= pre + escape_byte(bs[i as int]));
            assert(bs.take(i + 1) =~= bs.take(i as int).push(bs[i as int]));
            lemma_escape_bytes_push(bs.take(i as int), bs[i as int]);
            assert(out@ =~= start + seq![34u8] + escape_bytes(bs.take(i + 1)));
        }
        i = i + 1;
    }
    out.push(34);
    proof {
        assert(bs.take(n as int) =~= bs);
        assert(bs == encode_utf8(s@));
        assert(final(out)@ =~= old(out)@ + json_string(s@));
    }
}

/// Appends an optional string as a JSON string or `null`.
fn push_opt_string(out: &mut Vec<u8>, o: &Option<String>)
    ensures
        final(out)@ == old(out)@ + json_opt_string(
            match o {
                Some(s) => Some(s@),
                None => None,
            },
        ),
{
    match o {
        Some(s) => push_json_string(out, s.as_str()),
        None => push_lit(out, "null"),
    }
}

/// Appends one user object.
#[verifier::rlimit(60)]
fn push_user(out: &mut Vec<u8>, u: &UserState)
    ensures
        final(out)@ == old(out)@ + json_user(u@),
{
    push_lit(out, "{\"name\":");
    push_opt_string(out, &u.name);
    push_lit(out, ",\"points\":");
    push_opt_string(out, &u.points);
    push_lit(out, ",\"isSpectator\":");
    if u.is_spectator {
        push_lit(out, "true");
    } else {
        push_lit(out, "false");
    }
    push_lit(out, "}");
    proof {
        assert(final(out)@ =~= old(out)@ + json_user(u@));
    }
}

/// Appends one state projection object.
#[verifier::rlimit(60)]
fn push_state(out: &mut Vec<u8>, st: &SessionState)
    ensures
        final(out)@ == old(out)@ + json_state(st@),
{
    let ghost start = out@;
    push_lit(out, "{\"users\":{");
    let ghost users = st@.users;
    let n = st.users.len();
    let mut i: usize = 0;
    while i < n
        invariant
            0 <= i <= n,
            n == users.len(),
            users == st@.users,
            out@ == start + encode_utf8("{\"users\":{"@) + json_users(users.take(i as int)),
        decreases n - i,
    {
        let ghost pre = out@;
        if i > 0 {
            push_lit(out, ",");
        }
        let id = st.users[i].0;
        let ds = u64_to_dec(id);
        push_json_string(out, ds.as_str());
        push_lit(out, ":");
        push_user(out, &st.users[i].1);
        proof {
            assert(users[i as int] == (st.users@[i as int].0, st.users@[i as int].1@));
            assert(users.take(i + 1) =~= users.take(i as int).push(users[i as int]));
            lemma_json_users_push(users.take(i as int), users[i as int]);
            if i == 0 {
                assert(out@ =~= pre + json_user_entry(users[i as int]));
            } else {
                assert(out@ =~= pre + encode_utf8(","@) + json_user_entry(users[i as int]));
            }
            assert(out@ =~= start + encode_utf8("{\"users\":{"@) + json_users(users.take(i + 1)));
        }
        i = i + 1;
    }
    proof {
        assert(users.take(n as int) =~= users);
    }
    push_lit(out, "},\"admin\":");
    match st.admin {
        Some(id) => {
            let ds = u64_to_dec(id);
            push_json_string(out, ds.as_str());
        },
        None => {
            push_lit(out, "null");
        },
    }
    push_lit(out, "}");
    proof {
        assert(final(out)@ =~= old(out)@ + json_state(st@));
    }
}

/// Encodes one event as the text of one frame; the bytes are exactly
/// [`spec_encode_server_message`].
pub fn encode_server_message(msg: &ServerMessage) -> (r: Vec<u8>)
    ensures
        r@ == spec_encode_server_message(*msg),
{
    let mut out: Vec<u8> = Vec::new();
    match msg {
        ServerMessage::KeepAlive => {
            push_lit(&mut out, "{\"tag\":\"KeepAlive\"}");
        },
        ServerMessage::Whoami(s) => {
            push_lit(&mut out, "{\"tag\":\"Whoami\",\"content\":");
            push_json_string(&mut out, s.as_str());
            push_lit(&mut out, "}");
        },
        ServerMessage::Error(s) => {
            push_lit(&mut out, "{\"tag\":\"Error\",\"content\":");
            push_json_string(&mut out, s.as_str());
            push_lit(&mut out, "}");
        },
        ServerMessage::State(st) => {
            push_lit(&mut out, "{\"tag\":\"State\",\"content\":");
            push_state(&mut out, st);
            push_lit(&mut out, "}");
        },
    }
    proof {
        assert(out@ =~= spec_encode_server_message(*msg));
    }
    out
}

} // verus!
