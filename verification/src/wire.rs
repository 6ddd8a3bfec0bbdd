//! The text that crosses the socket.
//!
//! Every frame of the protocol is a small JSON object.  Incoming frames
//! are two-field records (`MessageType`, `ClientId`); outgoing frames are
//! the greeting, the acknowledgement, and the cursor-position report.
//! This module gives the grammar of those objects as spec functions over
//! character sequences, together with executable parsing and rendering
//! functions proved against them.

use vstd::prelude::*;
use vstd::string::StrSliceExecFns;

verus! {

// ---------------------------------------------------------------------
// Characters
// ---------------------------------------------------------------------

/// JSON insignificant whitespace: space, tab, line feed, carriage return.
pub open spec fn is_ws(c: char) -> bool {
    c == ' ' || c == '\t' || c == '\n' || c == '\r'
}

/// Decimal digit.
pub open spec fn is_digit(c: char) -> bool {
    '0' as u32 <= c as u32 && c as u32 <= '9' as u32
}

/// Numeric value of a decimal digit.
pub open spec fn digit_val(c: char) -> int {
    c as u32 - '0' as u32
}

/// Index of the first character at or after `i` that is not whitespace,
/// or the end of the text.
pub open spec fn spec_skip_ws(s: Seq<char>, i: int) -> int
    decreases s.len() - i,
{
    if 0 <= i < s.len() && is_ws(s[i]) {
        spec_skip_ws(s, i + 1)
    } else {
        i
    }
}

/// Index of the first character at or after `i` that is not a digit,
/// or the end of the text.
pub open spec fn spec_skip_digits(s: Seq<char>, i: int) -> int
    decreases s.len() - i,
{
    if 0 <= i < s.len() && is_digit(s[i]) {
        spec_skip_digits(s, i + 1)
    } else {
        i
    }
}

/// Value of the run of digits `s[i..e)`, read in the usual way, the most
/// significant digit first.
pub open spec fn spec_digits_val(s: Seq<char>, i: int, e: int) -> int
    decreases e - i,
{
    if i >= e {
        0
    } else {
        spec_digits_val(s, i, e - 1) * 10 + digit_val(s[e - 1])
    }
}

/// Index of the quote that closes a string whose contents start at `i`,
/// or `None` if the text ends first.  Escapes and control characters are
/// not part of any frame of this protocol, so a backslash or a character
/// below `' '` makes the token unreadable.
pub open spec fn spec_string_end(s: Seq<char>, i: int) -> Option<int>
    decreases s.len() - i,
{
    if !(0 <= i < s.len()) {
        None
    } else if s[i] == '"' {
        Some(i)
    } else if s[i] == '\\' || (s[i] as u32) < 32 {
        None
    } else {
        spec_string_end(s, i + 1)
    }
}

/// Parse a string token whose opening quote stands at `i`: the contents
/// and the position after the closing quote.
pub open spec fn spec_parse_string(s: Seq<char>, i: int) -> Option<(Seq<char>, int)> {
    if 0 <= i < s.len() && s[i] == '"' {
        match spec_string_end(s, i + 1) {
            Some(e) => Some((s.subrange(i + 1, e), e + 1)),
            None => None,
        }
    } else {
        None
    }
}

/// Parse an unsigned decimal token at `i`: one or more digits with no
/// superfluous leading zero, and a value that fits the identifier type.
/// The result is the value and the position after the last digit.
pub open spec fn spec_parse_u32(s: Seq<char>, i: int) -> Option<(u32, int)> {
    if !(0 <= i < s.len() && is_digit(s[i])) {
        None
    } else {
        let e = spec_skip_digits(s, i);
        if s[i] == '0' && e != i + 1 {
            None
        } else if spec_digits_val(s, i, e) > u32::MAX {
            None
        } else {
            Some((spec_digits_val(s, i, e) as u32, e))
        }
    }
}

fn skip_ws(s: &str, i: usize) -> (r: usize)
    requires
        i <= s@.len(),
    ensures
        r == spec_skip_ws(s@, i as int),
        i <= r <= s@.len(),
    decreases s@.len() - i,
{
    let n = s.unicode_len();
    if i < n {
        let c = s.get_char(i);
        if c == ' ' || c == '\t' || c == '\n' || c == '\r' {
            skip_ws(s, i + 1)
        } else {
            i
        }
    } else {
        i
    }
}

fn skip_digits(s: &str, i: usize) -> (r: usize)
    requires
        i <= s@.len(),
    ensures
        r == spec_skip_digits(s@, i as int),
        i <= r <= s@.len(),
    decreases s@.len() - i,
{
    let n = s.unicode_len();
    if i < n {
        let c = s.get_char(i);
        if '0' <= c && c <= '9' {
            skip_digits(s, i + 1)
        } else {
            i
        }
    } else {
        i
    }
}

fn string_end(s: &str, i: usize) -> (r: Option<usize>)
    requires
        i <= s@.len(),
    ensures
        match r {
            Some(e) => spec_string_end(s@, i as int) == Some(e as int) && i <= e < s@.len(),
            None => spec_string_end(s@, i as int) is None,
        },
    decreases s@.len() - i,
{
    let n = s.unicode_len();
    if i >= n {
        None
    } else {
        let c = s.get_char(i);
        if c == '"' {
            Some(i)
        } else if c == '\\' || (c as u32) < 32 {
            None
        } else {
            string_end(s, i + 1)
        }
    }
}

fn parse_string(s: &str, i: usize) -> (r: Option<(String, usize)>)
    requires
        i <= s@.len(),
    ensures
        match r {
            Some(v) => spec_parse_string(s@, i as int) == Some((v.0@, v.1 as int)) && i < v.1
                <= s@.len(),
            None => spec_parse_string(s@, i as int) is None,
        },
{
    let n = s.unicode_len();
    if i < n && s.get_char(i) == '"' {
        match string_end(s, i + 1) {
            Some(e) => {
                let v = s.substring_char(i + 1, e).to_owned();
                Some((v, e + 1))
            },
            None => None,
        }
    } else {
        None
    }
}

/// The value of a digit run only grows as the run is extended to the
/// right, and it is never negative.
proof fn lemma_digits_val_grows(s: Seq<char>, i: int, k: int, e: int)
    requires
        i <= k <= e,
        forall|t: int| i <= t < e ==> is_digit(#[trigger] s[t]),
    ensures
        0 <= spec_digits_val(s, i, k) <= spec_digits_val(s, i, e),
    decreases e - k,
{
    if k == e {
        lemma_digits_val_nonneg(s, i, k);
    } else {
        lemma_digits_val_grows(s, i, k, e - 1);
    }
}

/// A run of digits has a value of at least zero.
proof fn lemma_digits_val_nonneg(s: Seq<char>, i: int, e: int)
    requires
        forall|t: int| i <= t < e ==> is_digit(#[trigger] s[t]),
    ensures
        0 <= spec_digits_val(s, i, e),
    decreases e - i,
{
    if i < e {
        lemma_digits_val_nonneg(s, i, e - 1);
    }
}

fn parse_u32(s: &str, i: usize) -> (r: Option<(u32, usize)>)
    requires
        i <= s@.len(),
    ensures
        match r {
            Some(v) => spec_parse_u32(s@, i as int) == Some((v.0, v.1 as int)) && i < v.1
                <= s@.len(),
            None => spec_parse_u32(s@, i as int) is None,
        },
{
    let e = skip_digits(s, i);
    if e == i {
        proof {
            lemma_skip_digits_lower_bound(s@, i as int + 1);
        }
        return None;
    }
    if s.get_char(i) == '0' && e != i + 1 {
        return None;
    }
    proof {
        lemma_skip_digits_all(s@, i as int);
    }
    let mut k = i;
    let mut val: u64 = 0;
    while k < e
        invariant
            i <= k <= e <= s@.len(),
            e == spec_skip_digits(s@, i as int),
            forall|t: int| i <= t < e ==> is_digit(#[trigger] s@[t]),
            val == spec_digits_val(s@, i as int, k as int),
            val <= u32::MAX,
        decreases e - k,
    {
        let c = s.get_char(k);
        let d: u64 = (c as u32 as u64) - 48;
        let next: u64 = val * 10 + d;
        if next > u32::MAX as u64 {
            proof {
                lemma_digits_val_grows(s@, i as int, k as int + 1, e as int);
            }
            return None;
        }
        val = next;
        k = k + 1;
    }
    Some((val as u32, e))
}

/// The digit scan never moves backwards.
proof fn lemma_skip_digits_lower_bound(s: Seq<char>, i: int)
    ensures
        i <= spec_skip_digits(s, i),
    decreases s.len() - i,
{
    if 0 <= i < s.len() && is_digit(s[i]) {
        lemma_skip_digits_lower_bound(s, i + 1);
    }
}

/// Every character the digit scan moved over is a digit.
proof fn lemma_skip_digits_all(s: Seq<char>, i: int)
    ensures
        forall|t: int| i <= t < spec_skip_digits(s, i) ==> is_digit(#[trigger] s[t]),
    decreases s.len() - i,
{
    if 0 <= i < s.len() && is_digit(s[i]) {
        lemma_skip_digits_all(s, i + 1);
    }
}

// ---------------------------------------------------------------------
// The incoming record
// ---------------------------------------------------------------------

/// A member value of an incoming frame: the records of this protocol
/// carry only strings and unsigned numbers.
pub enum SpecValue {
    Str(Seq<char>),
    Num(u32),
}

/// Parse a member value at `i`: a string token or an unsigned decimal
/// token.
pub open spec fn spec_parse_value(s: Seq<char>, i: int) -> Option<(SpecValue, int)> {
    if 0 <= i < s.len() && s[i] == '"' {
        match spec_parse_string(s, i) {
            Some(v) => Some((SpecValue::Str(v.0), v.1)),
            None => None,
        }
    } else if 0 <= i < s.len() && is_digit(s[i]) {
        match spec_parse_u32(s, i) {
            Some(v) => Some((SpecValue::Num(v.0), v.1)),
            None => None,
        }
    } else {
        None
    }
}

/// Fold one member into the two fields of the record.  `MessageType`
/// must be a string and `ClientId` an unsigned number, each may appear
/// only once, and every other key is ignored.
pub open spec fn spec_record_fields(
    key: Seq<char>,
    val: SpecValue,
    mt: Option<Seq<char>>,
    id: Option<u32>,
) -> Option<(Option<Seq<char>>, Option<u32>)> {
    if key == "MessageType"@ {
        match (val, mt) {
            (SpecValue::Str(v), Option::<Seq<char>>::None) => Some((Some(v), id)),
            _ => None,
        }
    } else if key == "ClientId"@ {
        match (val, id) {
            (SpecValue::Num(v), Option::<u32>::None) => Some((mt, Some(v))),
            _ => None,
        }
    } else {
        Some((mt, id))
    }
}

/// Parse the members of the record object from `i` (just inside the
/// opening brace or just after a comma) to the closing brace: one member
/// per step, members separated by commas.  `mt` and `id` carry the
/// fields seen so far; both must have been seen when the brace closes.
/// The result is the two fields and the position after the brace.
pub open spec fn spec_parse_members(
    s: Seq<char>,
    i: int,
    mt: Option<Seq<char>>,
    id: Option<u32>,
) -> Option<(Seq<char>, u32, int)>
    decreases s.len() - i,
{
    let k = spec_skip_ws(s, i);
    match spec_parse_string(s, k) {
        None => None,
        Some((key, j)) => {
            let c = spec_skip_ws(s, j);
            if !(0 <= c < s.len() && s[c] == ':') {
                None
            } else {
                match spec_parse_value(s, spec_skip_ws(s, c + 1)) {
                    None => None,
                    Some((val, j2)) => match spec_record_fields(key, val, mt, id) {
                        None => None,
                        Some((mt2, id2)) => {
                            let t = spec_skip_ws(s, j2);
                            if 0 <= t < s.len() && s[t] == ',' {
                                if i < t + 1 <= s.len() {
                                    spec_parse_members(s, t + 1, mt2, id2)
                                } else {
                                    None
                                }
                            } else if 0 <= t < s.len() && s[t] == '}' {
                                match (mt2, id2) {
                                    (Some(m), Some(d)) => Some((m, d, t + 1)),
                                    _ => None,
                                }
                            } else {
                                None
                            }
                        },
                    },
                }
            }
        },
    }
}

/// Parse a whole incoming frame: one record object, surrounded by
/// nothing but whitespace, with both fields present.  The result is the
/// message type and the client identifier.
pub open spec fn spec_parse_message(s: Seq<char>) -> Option<(Seq<char>, u32)> {
    let i = spec_skip_ws(s, 0);
    if !(0 <= i < s.len() && s[i] == '{') {
        None
    } else {
        match spec_parse_members(s, i + 1, None, None) {
            None => None,
            Some((mt, id, j)) => {
                if spec_skip_ws(s, j) == s.len() {
                    Some((mt, id))
                } else {
                    None
                }
            },
        }
    }
}

/// An incoming frame, parsed: its message type and the client identifier
/// it carries.
pub struct IncomingMessage {
    pub message_type: String,
    pub client_id: u32,
}

/// The fields already folded, as the spec functions speak of them.
pub open spec fn spec_fields_view(mt: Option<String>, id: Option<u32>) -> (
    Option<Seq<char>>,
    Option<u32>,
) {
    (
        match mt {
            Some(m) => Some(m@),
            None => None,
        },
        id,
    )
}

fn parse_members(s: &str, i: usize, mt: Option<String>, id: Option<u32>) -> (r: Option<
    (String, u32, usize),
>)
    requires
        i <= s@.len(),
    ensures
        match r {
            Some(v) => spec_parse_members(
                s@,
                i as int,
                spec_fields_view(mt, id).0,
                spec_fields_view(mt, id).1,
            ) == Some((v.0@, v.1, v.2 as int)) && v.2 <= s@.len(),
            None => spec_parse_members(
                s@,
                i as int,
                spec_fields_view(mt, id).0,
                spec_fields_view(mt, id).1,
            ) is None,
        },
    decreases s@.len() - i,
{
    let n = s.unicode_len();
    let k = skip_ws(s, i);
    match parse_string(s, k) {
        None => None,
        Some((key, j)) => {
            let c = skip_ws(s, j);
            if !(c < n && s.get_char(c) == ':') {
                None
            } else {
                let v0 = skip_ws(s, c + 1);
                let parsed: Option<(Option<String>, Option<u32>, usize)> = if v0 < n && s.get_char(
                    v0,
                ) == '"' {
                    match parse_string(s, v0) {
                        None => None,
                        Some((sv, j2)) => {
                            if key_is(&key, "MessageType") {
                                match mt {
                                    Some(_) => None,
                                    None => Some((Some(sv), id, j2)),
                                }
                            } else if key_is(&key, "ClientId") {
                                None
                            } else {
                                Some((mt, id, j2))
                            }
                        },
                    }
                } else if v0 < n && char_is_digit(s.get_char(v0)) {
                    match parse_u32(s, v0) {
                        None => None,
                        Some((nv, j2)) => {
                            if key_is(&key, "MessageType") {
                                None
                            } else if key_is(&key, "ClientId") {
                                match id {
                                    Some(_) => None,
                                    None => Some((mt, Some(nv), j2)),
                                }
                            } else {
                                Some((mt, id, j2))
                            }
                        },
                    }
                } else {
                    None
                };
                match parsed {
                    None => None,
                    Some((mt2, id2, j2)) => {
                        let t = skip_ws(s, j2);
                        if t < n && s.get_char(t) == ',' {
                            if i < t + 1 {
                                parse_members(s, t + 1, mt2, id2)
                            } else {
                                None
                            }
                        } else if t < n && s.get_char(t) == '}' {
                            match (mt2, id2) {
                                (Some(m), Some(d)) => Some((m, d, t + 1)),
                                _ => None,
                            }
                        } else {
                            None
                        }
                    },
                }
            }
        },
    }
}

fn char_is_digit(c: char) -> (r: bool)
    ensures
        r == is_digit(c),
{
    '0' <= c && c <= '9'
}

fn key_is(key: &String, lit: &str) -> (r: bool)
    ensures
        r == (key@ == lit@),
{
    let l = String::from_str(lit);
    *key == l
}

/// Read one incoming frame.  The result is the parsed record exactly
/// when the text matches the record grammar; everything else is
/// unreadable.
pub fn parse_message(s: &str) -> (r: Option<IncomingMessage>)
    ensures
        match r {
            Some(msg) => spec_parse_message(s@) == Some((msg.message_type@, msg.client_id)),
            None => spec_parse_message(s@) is None,
        },
{
    let n = s.unicode_len();
    let i = skip_ws(s, 0);
    if !(i < n && s.get_char(i) == '{') {
        return None;
    }
    match parse_members(s, i + 1, None, None) {
        None => None,
        Some((mt, id, j)) => {
            let e = skip_ws(s, j);
            if e == n {
                Some(IncomingMessage { message_type: mt, client_id: id })
            } else {
                None
            }
        },
    }
}

// ---------------------------------------------------------------------
// Outgoing frames
// ---------------------------------------------------------------------

/// The character of a decimal digit.
pub open spec fn digit_char(d: int) -> char {
    if d == 0 {
        '0'
    } else if d == 1 {
        '1'
    } else if d == 2 {
        '2'
    } else if d == 3 {
        '3'
    } else if d == 4 {
        '4'
    } else if d == 5 {
        '5'
    } else if d == 6 {
        '6'
    } else if d == 7 {
        '7'
    } else if d == 8 {
        '8'
    } else {
        '9'
    }
}

/// The decimal digits of `n`, most significant first, with no leading
/// zero.
pub open spec fn spec_dec(n: int) -> Seq<char>
    decreases n,
{
    if n < 10 {
        seq![digit_char(n)]
    } else {
        spec_dec(n / 10).push(digit_char(n % 10))
    }
}

/// Every character the decimal renderer emits is a digit.
proof fn lemma_dec_all_digits(n: int)
    requires
        0 <= n,
    ensures
        forall|t: int| 0 <= t < spec_dec(n).len() ==> is_digit(#[trigger] spec_dec(n)[t]),
    decreases n,
{
    if n < 10 {
        assert(spec_dec(n)[0] == digit_char(n));
        assert(is_digit(digit_char(n)));
    } else {
        assert(0 <= n / 10 < n) by (nonlinear_arith)
            requires
                n >= 10,
        ;
        lemma_dec_all_digits(n / 10);
        let p = spec_dec(n / 10);
        assert(spec_dec(n) == p.push(digit_char(n % 10)));
        assert forall|t: int| 0 <= t < spec_dec(n).len() implies is_digit(
            #[trigger] spec_dec(n)[t],
        ) by {
            if t < p.len() {
                assert(spec_dec(n)[t] == p[t]);
            } else {
                assert(spec_dec(n)[t] == digit_char(n % 10));
                assert(is_digit(digit_char(n % 10)));
            }
        }
    }
}

/// The rendered decimal never starts with a superfluous zero: its first
/// digit is `'0'` only for the number zero itself, whose rendering is
/// the single digit.
proof fn lemma_dec_first(n: int)
    requires
        0 <= n,
    ensures
        spec_dec(n).len() >= 1,
        n > 0 ==> spec_dec(n)[0] != '0',
        n == 0 ==> spec_dec(n) =~= seq!['0'],
    decreases n,
{
    if n >= 10 {
        assert(1 <= n / 10 < n) by (nonlinear_arith)
            requires
                n >= 10,
        ;
        lemma_dec_first(n / 10);
    }
}

/// The value of a digit run depends only on the characters it covers.
proof fn lemma_digits_val_congruence(s1: Seq<char>, s2: Seq<char>, off: int, k: int)
    requires
        0 <= k,
        forall|t: int| 0 <= t < k ==> s1[off + t] == s2[t],
    ensures
        spec_digits_val(s1, off, off + k) == spec_digits_val(s2, 0, k),
    decreases k,
{
    if k > 0 {
        lemma_digits_val_congruence(s1, s2, off, k - 1);
        assert(s1[off + (k - 1)] == s2[k - 1]);
    }
}

/// The digit scan stops exactly at the first non-digit.
proof fn lemma_skip_digits_exact(s: Seq<char>, i: int, e: int)
    requires
        0 <= i <= e <= s.len(),
        forall|t: int| i <= t < e ==> is_digit(#[trigger] s[t]),
        e == s.len() || !is_digit(s[e]),
    ensures
        spec_skip_digits(s, i) == e,
    decreases e - i,
{
    if i < e {
        lemma_skip_digits_exact(s, i + 1, e);
    }
}

/// Reading the rendered digits most significant first rebuilds the
/// number.
proof fn lemma_dec_val(n: int)
    requires
        0 <= n,
    ensures
        spec_digits_val(spec_dec(n), 0, spec_dec(n).len() as int) == n,
    decreases n,
{
    if n < 10 {
        assert(spec_dec(n)[0] == digit_char(n));
        assert(spec_digits_val(spec_dec(n), 0, 1) == spec_digits_val(spec_dec(n), 0, 0) * 10
            + digit_val(spec_dec(n)[0]));
        assert(digit_val(digit_char(n)) == n);
    } else {
        assert(0 <= n / 10 < n) by (nonlinear_arith)
            requires
                n >= 10,
        ;
        let p = spec_dec(n / 10);
        let s = spec_dec(n);
        lemma_dec_val(n / 10);
        lemma_digits_val_congruence(s, p, 0, p.len() as int);
        assert(spec_digits_val(s, 0, s.len() as int) == spec_digits_val(s, 0, p.len() as int) * 10
            + digit_val(s[p.len() as int]));
        assert(n / 10 * 10 + n % 10 == n) by (nonlinear_arith);
    }
}

/// A rendered identifier reads back as that same identifier: the
/// decimal the client emits for `n` parses as an unsigned token whose
/// value is `n` and which consumes the whole rendering.  So two
/// different identifiers never render alike, and the identifier an
/// acknowledgement carries is readable from its text.
pub proof fn lemma_dec_round_trip(n: u32)
    ensures
        spec_parse_u32(spec_dec(n as int), 0) == Some((n, spec_dec(n as int).len() as int)),
{
    let s = spec_dec(n as int);
    lemma_dec_all_digits(n as int);
    lemma_dec_first(n as int);
    lemma_skip_digits_exact(s, 0, s.len() as int);
    lemma_dec_val(n as int);
}

/// The text of an acknowledgement determines the identifier it
/// carries: two identifiers never render the same acknowledgement.
pub proof fn lemma_ack_identifies(a: u32, b: u32)
    requires
        ack_text(a) == ack_text(b),
    ensures
        a == b,
{
    reveal_strlit("}");
    let pre = "{\"messageType\":\"ack\",\"clientId\":"@;
    let da = spec_dec(a as int);
    let db = spec_dec(b as int);
    assert(ack_text(a).len() == pre.len() + da.len() + 1);
    assert(ack_text(b).len() == pre.len() + db.len() + 1);
    assert(da.len() == db.len());
    assert forall|t: int| 0 <= t < da.len() implies da[t] == db[t] by {
        assert(ack_text(a)[pre.len() + t] == da[t]);
        assert(ack_text(b)[pre.len() + t] == db[t]);
    }
    assert(da =~= db);
    lemma_dec_round_trip(a);
    lemma_dec_round_trip(b);
}

/// Text of the greeting frame, sent when the socket opens.
pub open spec fn greeting_text() -> Seq<char> {
    "{\"messageType\":\"salutations\"}"@
}

/// Text of the acknowledgement frame for the identifier `id`.
pub open spec fn ack_text(id: u32) -> Seq<char> {
    "{\"messageType\":\"ack\",\"clientId\":"@ + spec_dec(id as int) + "}"@
}

/// Text of a cursor-position frame: the stored identifier and the two
/// coordinates, each given as a ready number token.
pub open spec fn cursor_text(id: u32, x: Seq<char>, y: Seq<char>) -> Seq<char> {
    "{\"messageType\":\"cursorPosition\",\"clientId\":"@ + spec_dec(id as int) + ",\"x\":"@ + x
        + ",\"y\":"@ + y + "}"@
}

fn digit_string(d: u32) -> (r: &'static str)
    requires
        d < 10,
    ensures
        r@ == seq![digit_char(d as int)],
{
    let r: &'static str = if d == 0 {
        "0"
    } else if d == 1 {
        "1"
    } else if d == 2 {
        "2"
    } else if d == 3 {
        "3"
    } else if d == 4 {
        "4"
    } else if d == 5 {
        "5"
    } else if d == 6 {
        "6"
    } else if d == 7 {
        "7"
    } else if d == 8 {
        "8"
    } else {
        "9"
    };
    proof {
        reveal_strlit("0");
        reveal_strlit("1");
        reveal_strlit("2");
        reveal_strlit("3");
        reveal_strlit("4");
        reveal_strlit("5");
        reveal_strlit("6");
        reveal_strlit("7");
        reveal_strlit("8");
        reveal_strlit("9");
        assert(r@ =~= seq![digit_char(d as int)]);
    }
    r
}

/// Render an identifier in decimal.
pub fn dec_string(n: u32) -> (r: String)
    ensures
        r@ == spec_dec(n as int),
    decreases n,
{
    if n < 10 {
        String::from_str(digit_string(n))
    } else {
        assert(n / 10 < n && 0 <= n / 10) by (nonlinear_arith)
            requires
                n >= 10,
        ;
        let mut s = dec_string(n / 10);
        s.append(digit_string(n % 10));
        proof {
            assert(s@ =~= spec_dec(n as int));
        }
        s
    }
}

/// Render the greeting frame.
pub fn greeting_message() -> (r: String)
    ensures
        r@ == greeting_text(),
{
    String::from_str("{\"messageType\":\"salutations\"}")
}

/// Render the acknowledgement frame for the identifier `id`.
pub fn ack_message(id: u32) -> (r: String)
    ensures
        r@ == ack_text(id),
{
    let mut s = String::from_str("{\"messageType\":\"ack\",\"clientId\":");
    let d = dec_string(id);
    s.append(d.as_str());
    s.append("}");
    proof {
        assert(s@ =~= ack_text(id));
    }
    s
}

/// The canonical text of a welcome frame carrying the identifier `id`,
/// as the server writes it.
pub open spec fn welcome_text(id: u32) -> Seq<char> {
    "{\"MessageType\":\"welcome\",\"ClientId\":"@ + spec_dec(id as int) + "}"@
}

/// The canonical welcome frame carrying `id` parses as a `welcome`
/// record carrying exactly `id`.  Together with the handshake contract
/// this says that a welcome is answered with exactly one
/// acknowledgement, and that the identifier stored and echoed is the
/// one the frame carried, whatever it was.
pub proof fn lemma_welcome_round_trip(id: u32)
    ensures
        spec_parse_message(welcome_text(id)) == Some(("welcome"@, id)),
{
    reveal_strlit("{\"MessageType\":\"welcome\",\"ClientId\":");
    reveal_strlit("MessageType");
    reveal_strlit("welcome");
    reveal_strlit("ClientId");
    reveal_strlit("}");
    let pre = "{\"MessageType\":\"welcome\",\"ClientId\":"@;
    let dec = spec_dec(id as int);
    let el = dec.len() as int;
    let s = welcome_text(id);
    lemma_dec_all_digits(id as int);
    lemma_dec_first(id as int);
    assert(pre.len() == 36);
    assert(s.len() == 37 + el);
    assert forall|t: int| 0 <= t < el implies #[trigger] s[36 + t] == dec[t] by {}
    assert forall|t: int| 36 <= t < 36 + el implies is_digit(#[trigger] s[t]) by {
        assert(s[t] == dec[t - 36]);
        assert(is_digit(dec[t - 36]));
    }
    assert(s[36 + el] == '}');
    // the key "MessageType"
    assert(spec_string_end(s, 13) == Some(13int));
    assert(spec_string_end(s, 12) == Some(13int));
    assert(spec_string_end(s, 11) == Some(13int));
    assert(spec_string_end(s, 10) == Some(13int));
    assert(spec_string_end(s, 9) == Some(13int));
    assert(spec_string_end(s, 8) == Some(13int));
    assert(spec_string_end(s, 7) == Some(13int));
    assert(spec_string_end(s, 6) == Some(13int));
    assert(spec_string_end(s, 5) == Some(13int));
    assert(spec_string_end(s, 4) == Some(13int));
    assert(spec_string_end(s, 3) == Some(13int));
    assert(spec_string_end(s, 2) == Some(13int));
    assert(spec_parse_string(s, 1) == Some((s.subrange(2, 13), 14int)));
    assert(s.subrange(2, 13) =~= "MessageType"@);
    // the value "welcome"
    assert(spec_string_end(s, 23) == Some(23int));
    assert(spec_string_end(s, 22) == Some(23int));
    assert(spec_string_end(s, 21) == Some(23int));
    assert(spec_string_end(s, 20) == Some(23int));
    assert(spec_string_end(s, 19) == Some(23int));
    assert(spec_string_end(s, 18) == Some(23int));
    assert(spec_string_end(s, 17) == Some(23int));
    assert(spec_string_end(s, 16) == Some(23int));
    assert(spec_parse_string(s, 15) == Some((s.subrange(16, 23), 24int)));
    assert(s.subrange(16, 23) =~= "welcome"@);
    // the key "ClientId"
    assert(spec_string_end(s, 34) == Some(34int));
    assert(spec_string_end(s, 33) == Some(34int));
    assert(spec_string_end(s, 32) == Some(34int));
    assert(spec_string_end(s, 31) == Some(34int));
    assert(spec_string_end(s, 30) == Some(34int));
    assert(spec_string_end(s, 29) == Some(34int));
    assert(spec_string_end(s, 28) == Some(34int));
    assert(spec_string_end(s, 27) == Some(34int));
    assert(spec_string_end(s, 26) == Some(34int));
    assert(spec_parse_string(s, 25) == Some((s.subrange(26, 34), 35int)));
    assert(s.subrange(26, 34) =~= "ClientId"@);
    // no whitespace anywhere in the skeleton
    assert(spec_skip_ws(s, 0) == 0);
    assert(spec_skip_ws(s, 1) == 1);
    assert(spec_skip_ws(s, 14) == 14);
    assert(spec_skip_ws(s, 15) == 15);
    assert(spec_skip_ws(s, 24) == 24);
    assert(spec_skip_ws(s, 25) == 25);
    assert(spec_skip_ws(s, 35) == 35);
    assert(spec_skip_ws(s, 36) == 36);
    assert(spec_skip_ws(s, 36 + el) == 36 + el);
    assert(spec_skip_ws(s, 37 + el) == 37 + el);
    // the identifier token
    lemma_skip_digits_exact(s, 36, 36 + el);
    lemma_digits_val_congruence(s, dec, 36, el);
    lemma_dec_val(id as int);
    if s[36] == '0' {
        assert(dec[0] == '0');
        assert(id == 0);
        assert(el == 1);
    }
    assert(spec_parse_u32(s, 36) == Some((id, 36 + el)));
    assert(spec_parse_value(s, 36) == Some((SpecValue::Num(id), 36 + el)));
    assert(spec_parse_value(s, 15) == Some((SpecValue::Str("welcome"@), 24int)));
    // folding the two members
    assert(spec_record_fields("MessageType"@, SpecValue::Str("welcome"@), None, None) == Some(
        (Some("welcome"@), None::<u32>),
    ));
    assert("ClientId"@ != "MessageType"@);
    assert(spec_record_fields("ClientId"@, SpecValue::Num(id), Some("welcome"@), None) == Some(
        (Some("welcome"@), Some(id)),
    ));
    assert(spec_parse_members(s, 25, Some("welcome"@), None) == Some(("welcome"@, id, 37 + el)));
    assert(spec_parse_members(s, 1, None, None) == Some(("welcome"@, id, 37 + el)));
    assert(spec_parse_message(s) == Some(("welcome"@, id)));
}

// ---------------------------------------------------------------------
// Number tokens for the coordinates
// ---------------------------------------------------------------------

/// End of the integer part of a number token starting at `i`: a single
/// zero, or a nonzero digit followed by more digits.
pub open spec fn spec_int_part_end(s: Seq<char>, i: int) -> Option<int> {
    if !(0 <= i < s.len() && is_digit(s[i])) {
        None
    } else if s[i] == '0' {
        Some(i + 1)
    } else {
        Some(spec_skip_digits(s, i))
    }
}

/// End of the optional fraction at `i`: a point followed by at least one
/// digit, or nothing.
pub open spec fn spec_frac_end(s: Seq<char>, i: int) -> Option<int> {
    if 0 <= i < s.len() && s[i] == '.' {
        if i + 1 < s.len() && is_digit(s[i + 1]) {
            Some(spec_skip_digits(s, i + 1))
        } else {
            None
        }
    } else {
        Some(i)
    }
}

/// End of the optional exponent at `i`: `e` or `E`, an optional sign,
/// and at least one digit; or nothing.
pub open spec fn spec_exp_end(s: Seq<char>, i: int) -> Option<int> {
    if 0 <= i < s.len() && (s[i] == 'e' || s[i] == 'E') {
        let j = if i + 1 < s.len() && (s[i + 1] == '+' || s[i + 1] == '-') {
            i + 2
        } else {
            i + 1
        };
        if j < s.len() && is_digit(s[j]) {
            Some(spec_skip_digits(s, j))
        } else {
            None
        }
    } else {
        Some(i)
    }
}

/// A whole JSON number token: an optional minus sign, an integer part,
/// an optional fraction, an optional exponent, and nothing else.
pub open spec fn spec_number_token(s: Seq<char>) -> bool {
    let i = if s.len() > 0 && s[0] == '-' {
        1int
    } else {
        0int
    };
    match spec_int_part_end(s, i) {
        None => false,
        Some(j) => match spec_frac_end(s, j) {
            None => false,
            Some(k) => match spec_exp_end(s, k) {
                None => false,
                Some(e) => e == s.len(),
            },
        },
    }
}

/// Decide whether `s` is a ready number token, fit to stand as a
/// coordinate in a cursor-position frame.
pub fn is_number_token(s: &str) -> (r: bool)
    ensures
        r == spec_number_token(s@),
{
    let n = s.unicode_len();
    let i: usize = if n > 0 && s.get_char(0) == '-' {
        1
    } else {
        0
    };
    if i >= n {
        return false;
    }
    let c0 = s.get_char(i);
    if !('0' <= c0 && c0 <= '9') {
        return false;
    }
    let j: usize = if c0 == '0' {
        i + 1
    } else {
        skip_digits(s, i)
    };
    let k: usize = if j < n && s.get_char(j) == '.' {
        if j + 1 < n && char_is_digit(s.get_char(j + 1)) {
            skip_digits(s, j + 1)
        } else {
            return false;
        }
    } else {
        j
    };
    let e: usize = if k < n && (s.get_char(k) == 'e' || s.get_char(k) == 'E') {
        let t: usize = if k + 1 < n && (s.get_char(k + 1) == '+' || s.get_char(k + 1) == '-') {
            k + 2
        } else {
            k + 1
        };
        if t < n && char_is_digit(s.get_char(t)) {
            skip_digits(s, t)
        } else {
            return false;
        }
    } else {
        k
    };
    e == n
}

/// Render a cursor-position frame carrying the identifier `id` and the
/// coordinates `x` and `y`, or nothing if either coordinate is not a
/// ready number token.
pub fn cursor_message(id: u32, x: &str, y: &str) -> (r: Option<String>)
    ensures
        match r {
            Some(m) => spec_number_token(x@) && spec_number_token(y@) && m@ == cursor_text(
                id,
                x@,
                y@,
            ),
            None => !(spec_number_token(x@) && spec_number_token(y@)),
        },
{
    if !is_number_token(x) || !is_number_token(y) {
        return None;
    }
    let mut s = String::from_str("{\"messageType\":\"cursorPosition\",\"clientId\":");
    let d = dec_string(id);
    s.append(d.as_str());
    s.append(",\"x\":");
    s.append(x);
    s.append(",\"y\":");
    s.append(y);
    s.append("}");
    proof {
        assert(s@ =~= cursor_text(id, x@, y@));
    }
    Some(s)
}

} // verus!
