use vstd::prelude::*;

use crate::chars::is_ascii_digit;
use crate::chars::{copy_chars, same_chars};
use vstd::slice::slice_subrange;

verus! {

/// What `String::from_utf8` makes of a byte sequence: the characters, or
/// `None` where the bytes are not valid UTF-8.
pub uninterp spec fn utf8_decode(b: Seq<u8>) -> Option<Seq<char>>;

/// Every byte is ASCII.
pub open spec fn all_ascii(b: Seq<u8>) -> bool {
    forall|i: int| 0 <= i < b.len() ==> #[trigger] b[i] < 128
}

/// ASCII bytes as characters.
pub open spec fn ascii_chars(b: Seq<u8>) -> Seq<char> {
    b.map_values(|x: u8| x as char)
}

/// Relies on `String::from_utf8`: it accepts exactly the valid UTF-8 byte
/// sequences.
#[verifier::external_body]
pub(crate) fn decode_utf8(b: Vec<u8>) -> (r: Option<Vec<char>>)
    ensures
        r is Some ==> utf8_decode(b@) == Some(r->0@),
        r is None ==> utf8_decode(b@) is None,
{
    String::from_utf8(b).ok().map(|s| s.chars().collect())
}

/// The value of one hexadecimal digit.
pub open spec fn hex_digit(b: u8) -> Option<nat> {
    if 48 <= b <= 57 {
        Some((b - 48) as nat)
    } else if 97 <= b <= 102 {
        Some((b - 87) as nat)
    } else if 65 <= b <= 70 {
        Some((b - 55) as nat)
    } else {
        None
    }
}

/// Four hexadecimal digits read as one byte; `None` where they are not four
/// hexadecimal digits or their value exceeds a byte.
pub open spec fn hex_byte(b: Seq<u8>) -> Option<u8> {
    if b.len() == 4 && hex_digit(b[0]) is Some && hex_digit(b[1]) is Some && hex_digit(b[2]) is Some
        && hex_digit(b[3]) is Some {
        let v = hex_digit(b[0])->0 * 4096 + hex_digit(b[1])->0 * 256 + hex_digit(b[2])->0 * 16
            + hex_digit(b[3])->0;
        if v <= 255 {
            Some(v as u8)
        } else {
            None
        }
    } else {
        None
    }
}

pub(crate) fn hex_digit_value(b: u8) -> (r: Option<u32>)
    ensures
        r matches Some(v) ==> hex_digit(b) == Some(v as nat) && v < 16,
        r is None ==> hex_digit(b) is None,
{
    if 48 <= b && b <= 57 {
        Some((b - 48) as u32)
    } else if 97 <= b && b <= 102 {
        Some((b - 87) as u32)
    } else if 65 <= b && b <= 70 {
        Some((b - 55) as u32)
    } else {
        None
    }
}

/// The byte that a backslash escape stands for: the usual control
/// characters for `b`, `f`, `n`, `r`, `t`, else the escaped byte itself.
pub open spec fn escaped_byte(b: u8) -> u8 {
    if b == 98 {
        8
    } else if b == 102 {
        12
    } else if b == 110 {
        10
    } else if b == 114 {
        13
    } else if b == 116 {
        9
    } else {
        b
    }
}

/// The bytes of a string body with its escapes decoded, starting at `i`;
/// `None` where a `\u` is not followed by four hexadecimal digits that fit a
/// byte, or a backslash ends the body.
pub open spec fn unescape_from(s: Seq<u8>, i: int) -> Option<Seq<u8>>
    decreases s.len() - i,
{
    if i < 0 || i >= s.len() {
        Some(seq![])
    } else if s[i] == 92 {
        if i + 1 >= s.len() {
            None
        } else if s[i + 1] == 117 {
            if i + 6 > s.len() {
                None
            } else {
                match hex_byte(s.subrange(i + 2, i + 6)) {
                    None => None,
                    Some(b) => match unescape_from(s, i + 6) {
                        None => None,
                        Some(rest) => Some(seq![b] + rest),
                    },
                }
            }
        } else {
            match unescape_from(s, i + 2) {
                None => None,
                Some(rest) => Some(seq![escaped_byte(s[i + 1])] + rest),
            }
        }
    } else {
        match unescape_from(s, i + 1) {
            None => None,
            Some(rest) => Some(seq![s[i]] + rest),
        }
    }
}

/// The characters that a string body stands for.
pub open spec fn unescape_spec(s: Seq<u8>) -> Option<Seq<char>> {
    match unescape_from(s, 0) {
        None => None,
        Some(b) => if all_ascii(b) {
            Some(ascii_chars(b))
        } else {
            utf8_decode(b)
        },
    }
}

/// ASCII bytes as characters, one each.
fn ascii_to_chars(b: &Vec<u8>) -> (r: Option<Vec<char>>)
    ensures
        all_ascii(b@) ==> r is Some && r->0@ == ascii_chars(b@),
        !all_ascii(b@) ==> r is None,
{
    let mut out: Vec<char> = Vec::new();
    let mut k: usize = 0;
    while k < b.len()
        invariant
            k <= b@.len(),
            all_ascii(b@.take(k as int)),
            out@ == ascii_chars(b@.take(k as int)),
        decreases b@.len() - k,
    {
        if b[k] >= 128 {
            return None;
        }
        out.push(b[k] as char);
        k += 1;
        assert(out@ =~= ascii_chars(b@.take(k as int)));
        assert(all_ascii(b@.take(k as int)));
    }
    assert(b@.take(k as int) =~= b@);
    Some(out)
}

/// Decodes the escapes of a string body; the bytes are read as ASCII where
/// they all are, else as UTF-8.
pub fn unescape(s: &Vec<u8>) -> (r: Option<Vec<char>>)
    ensures
        r matches Some(v) ==> unescape_spec(s@) == Some(v@),
        r is None ==> unescape_spec(s@) is None,
{
    let mut output: Vec<u8> = Vec::new();
    let mut i: usize = 0;
    while i < s.len()
        invariant
            i <= s@.len(),
            unescape_from(s@, 0) == match unescape_from(s@, i as int) {
                None => None,
                Some(rest) => Some(output@ + rest),
            },
        decreases s@.len() - i,
    {
        let ghost out0 = output@;
        if s[i] == 92 {
            if i + 1 >= s.len() {
                return None;
            }
            if s[i + 1] == 117 {
                if s.len() - i < 6 {
                    return None;
                }
                let h0 = hex_digit_value(s[i + 2]);
                let h1 = hex_digit_value(s[i + 3]);
                let h2 = hex_digit_value(s[i + 4]);
                let h3 = hex_digit_value(s[i + 5]);
                proof {
                    let q = s@.subrange(i + 2, i + 6);
                    assert(q[0] == s@[i + 2] && q[1] == s@[i + 3] && q[2] == s@[i + 4] && q[3] == s@[i + 5]);
                }
                if h0.is_none() || h1.is_none() || h2.is_none() || h3.is_none() {
                    return None;
                }
                let v = h0.unwrap() * 4096 + h1.unwrap() * 256 + h2.unwrap() * 16 + h3.unwrap();
                if v > 255 {
                    return None;
                }
                output.push(v as u8);
                i += 6;
                proof {
                    assert(out0.push(v as u8) + unescape_from(s@, i as int)->0 =~= out0 + (seq![v as u8] + unescape_from(s@, i as int)->0));
                }
            } else {
                let b = s[i + 1];
                let e = if b == 98 {
                    8u8
                } else if b == 102 {
                    12u8
                } else if b == 110 {
                    10u8
                } else if b == 114 {
                    13u8
                } else if b == 116 {
                    9u8
                } else {
                    b
                };
                output.push(e);
                i += 2;
                proof {
                    assert(out0.push(e) + unescape_from(s@, i as int)->0 =~= out0 + (seq![e] + unescape_from(s@, i as int)->0));
                }
            }
        } else {
            output.push(s[i]);
            i += 1;
            proof {
                assert(out0.push(s@[i - 1]) + unescape_from(s@, i as int)->0 =~= out0 + (seq![s@[i - 1]] + unescape_from(s@, i as int)->0));
            }
        }
    }
    proof {
        assert(output@ + seq![] =~= output@);
    }
    match ascii_to_chars(&output) {
        Some(v) => Some(v),
        None => decode_utf8(output),
    }
}

/// A token of the structured grammar, as a value.
pub enum Tok {
    OpenOb,
    CloseOb,
    Str(Seq<char>),
    Int(int),
    Dec(Seq<char>),
    Bool(bool),
    Null,
    OpArr,
    CloseArr,
    Sep,
    Colon,
}

/// A token of the structured grammar. A decimal keeps its text.
pub enum JsonTokens {
    OpenOb,
    CloseOb,
    StringVal(Vec<char>),
    NumVal(i64),
    DecVal(Vec<char>),
    BoolVal(bool),
    Null,
    OpArr,
    CloseArr,
    Separator,
    Ddot,
}

impl View for JsonTokens {
    type V = Tok;

    open spec fn view(&self) -> Tok {
        match self {
            JsonTokens::OpenOb => Tok::OpenOb,
            JsonTokens::CloseOb => Tok::CloseOb,
            JsonTokens::StringVal(v) => Tok::Str(v@),
            JsonTokens::NumVal(n) => Tok::Int(*n as int),
            JsonTokens::DecVal(v) => Tok::Dec(v@),
            JsonTokens::BoolVal(b) => Tok::Bool(*b),
            JsonTokens::Null => Tok::Null,
            JsonTokens::OpArr => Tok::OpArr,
            JsonTokens::CloseArr => Tok::CloseArr,
            JsonTokens::Separator => Tok::Sep,
            JsonTokens::Ddot => Tok::Colon,
        }
    }
}

/// The tokens as values.
pub open spec fn toks(v: Seq<JsonTokens>) -> Seq<Tok> {
    v.map_values(|t: JsonTokens| t@)
}

/// What one step of the tokenizer does at a position.
pub enum Step {
    Fail,
    Skip(int),
    Emit(Tok, int),
}

/// The closing quote of the string opened at `open`, searching from `j`: the
/// first `"` that does not follow a backslash inside the string.
pub open spec fn close_quote(s: Seq<char>, open: int, j: int) -> Option<int>
    decreases s.len() - j,
{
    if j < 0 || j >= s.len() {
        None
    } else if s[j] == '"' && (j == open + 1 || s[j - 1] != '\\') {
        Some(j)
    } else {
        close_quote(s, open, j + 1)
    }
}

/// The end of the run of digits and dots from `j`.
pub open spec fn num_end(s: Seq<char>, j: int) -> int
    decreases s.len() - j,
{
    if 0 <= j < s.len() && (is_ascii_digit(s[j]) || s[j] == '.') {
        num_end(s, j + 1)
    } else {
        j
    }
}

/// The value of a sequence of decimal digits.
pub open spec fn digits_value(ds: Seq<char>) -> nat
    decreases ds.len(),
{
    if ds.len() == 0 {
        0
    } else {
        digits_value(ds.drop_last()) * 10 + (ds.last() as nat - '0' as nat) as nat
    }
}

pub open spec fn all_digits(ds: Seq<char>) -> bool {
    forall|k: int| 0 <= k < ds.len() ==> is_ascii_digit(#[trigger] ds[k])
}

/// The text after an optional leading minus sign.
pub open spec fn unsigned_part(t: Seq<char>) -> Seq<char> {
    if t.len() > 0 && t[0] == '-' {
        t.skip(1)
    } else {
        t
    }
}

/// What `i64`'s `from_str` makes of a number text made of a sign, digits and
/// dots.
pub open spec fn int_text(t: Seq<char>) -> Option<int> {
    let ds = unsigned_part(t);
    if ds.len() == 0 || !all_digits(ds) {
        None
    } else {
        let v = if t[0] == '-' {
            -(digits_value(ds) as int)
        } else {
            digits_value(ds) as int
        };
        if i64::MIN <= v <= i64::MAX {
            Some(v)
        } else {
            None
        }
    }
}

pub open spec fn dot_count(t: Seq<char>) -> nat
    decreases t.len(),
{
    if t.len() == 0 {
        0
    } else {
        dot_count(t.drop_last()) + if t.last() == '.' {
            1nat
        } else {
            0nat
        }
    }
}

/// A number text made of a sign, digits and dots is a decimal that `f64`'s
/// `from_str` accepts: at most one dot and at least one digit.
pub open spec fn dec_text_ok(t: Seq<char>) -> bool {
    dot_count(unsigned_part(t)) <= 1 && dot_count(unsigned_part(t)) < unsigned_part(t).len()
}

/// Characters as the low bytes of their code points.
pub open spec fn low_bytes(cs: Seq<char>) -> Seq<u8> {
    cs.map_values(|c: char| (c as u32) as u8)
}

/// One step of the tokenizer at position `i`.
pub open spec fn json_step(s: Seq<char>, i: int) -> Step {
    let c = s[i];
    if c == '{' {
        Step::Emit(Tok::OpenOb, i + 1)
    } else if c == '}' {
        Step::Emit(Tok::CloseOb, i + 1)
    } else if c == '[' {
        Step::Emit(Tok::OpArr, i + 1)
    } else if c == ']' {
        Step::Emit(Tok::CloseArr, i + 1)
    } else if c == ':' {
        Step::Emit(Tok::Colon, i + 1)
    } else if c == ',' {
        Step::Emit(Tok::Sep, i + 1)
    } else if c == '"' {
        match close_quote(s, i, i + 1) {
            None => Step::Fail,
            Some(j) => match unescape_spec(low_bytes(s.subrange(i + 1, j))) {
                None => Step::Fail,
                Some(t) => Step::Emit(Tok::Str(t), j + 1),
            },
        }
    } else if c == 't' {
        if i + 4 <= s.len() && s.subrange(i + 1, i + 4) == seq!['r', 'u', 'e'] {
            Step::Emit(Tok::Bool(true), i + 4)
        } else {
            Step::Fail
        }
    } else if c == 'n' {
        if i + 4 <= s.len() && s.subrange(i + 1, i + 4) == seq!['u', 'l', 'l'] {
            Step::Emit(Tok::Null, i + 4)
        } else {
            Step::Fail
        }
    } else if c == 'f' {
        if i + 5 <= s.len() && s.subrange(i + 1, i + 5) == seq!['a', 'l', 's', 'e'] {
            Step::Emit(Tok::Bool(false), i + 5)
        } else {
            Step::Fail
        }
    } else if is_ascii_digit(c) || c == '-' {
        let e = num_end(s, i + 1);
        let t = s.subrange(i, e);
        match int_text(t) {
            Some(v) => Step::Emit(Tok::Int(v), e),
            None => if dec_text_ok(t) {
                Step::Emit(Tok::Dec(t), e)
            } else {
                Step::Fail
            },
        }
    } else {
        Step::Skip(i + 1)
    }
}

/// The tokens of `s` from position `i`, or `None` where tokenizing fails.
pub open spec fn lex_json_from(s: Seq<char>, i: int) -> Option<Seq<Tok>>
    decreases s.len() - i,
{
    if i < 0 || i >= s.len() {
        Some(seq![])
    } else {
        match json_step(s, i) {
            Step::Fail => None,
            Step::Skip(j) => if i < j <= s.len() {
                lex_json_from(s, j)
            } else {
                None
            },
            Step::Emit(t, j) => if i < j <= s.len() {
                match lex_json_from(s, j) {
                    None => None,
                    Some(r) => Some(seq![t] + r),
                }
            } else {
                None
            },
        }
    }
}

/// The tokens of a whole text.
pub open spec fn lex_json(s: Seq<char>) -> Option<Seq<Tok>> {
    lex_json_from(s, 0)
}

/// Reads the string that opens at `i`.
fn parse_str(s: &[char], i: usize) -> (r: Option<(JsonTokens, usize)>)
    requires
        i < s@.len(),
        s@[i as int] == '"',
    ensures
        match json_step(s@, i as int) {
            Step::Emit(t, j) => r is Some && (r->0).0@ == t && (r->0).1 == j,
            _ => r is None,
        },
{
    let _n = s.len();
    let mut j: usize = i + 1;
    while j < s.len() && !(s[j] == '"' && (j == i + 1 || s[j - 1] != '\\'))
        invariant
            i < j <= s@.len(),
            close_quote(s@, i as int, i + 1) == close_quote(s@, i as int, j as int),
        decreases s@.len() - j,
    {
        j += 1;
    }
    if j >= s.len() {
        return None;
    }
    let mut raw: Vec<u8> = Vec::new();
    let mut k: usize = i + 1;
    while k < j
        invariant
            i < k <= j < s@.len(),
            raw@ == low_bytes(s@.subrange(i + 1, k as int)),
        decreases j - k,
    {
        raw.push(#[verifier::truncate] ((s[k] as u32) as u8));
        k += 1;
        assert(raw@ =~= low_bytes(s@.subrange(i + 1, k as int)));
    }
    match unescape(&raw) {
        None => None,
        Some(v) => Some((JsonTokens::StringVal(v), j + 1)),
    }
}

fn same_literal(s: &[char], from: usize, lit: &[char]) -> (r: bool)
    requires
        from <= s@.len(),
    ensures
        r == (from + lit@.len() <= s@.len() && s@.subrange(from as int, from + lit@.len()) == lit@),
{
    let _n = s.len();
    if s.len() - from < lit.len() {
        return false;
    }
    let mut k: usize = 0;
    while k < lit.len()
        invariant
            from + lit@.len() <= s@.len(),
            s@.len() <= usize::MAX,
            k <= lit@.len(),
            forall|m: int| 0 <= m < k ==> s@[from + m] == #[trigger] lit@[m],
        decreases lit@.len() - k,
    {
        if s[from + k] != lit[k] {
            assert(s@.subrange(from as int, from + lit@.len())[k as int] == s@[from + k]);
            return false;
        }
        k += 1;
    }
    assert(s@.subrange(from as int, from + lit@.len()) =~= lit@);
    true
}

/// Reads `true`, `false` or `null` starting at `i`.
fn parse_bool(s: &[char], i: usize) -> (r: Option<(JsonTokens, usize)>)
    requires
        i < s@.len(),
        s@[i as int] == 't' || s@[i as int] == 'f' || s@[i as int] == 'n',
    ensures
        match json_step(s@, i as int) {
            Step::Emit(t, j) => r is Some && (r->0).0@ == t && (r->0).1 == j,
            _ => r is None,
        },
{
    let c = s[i];
    if c == 't' {
        let lit = ['r', 'u', 'e'];
        let ok = same_literal(s, i + 1, lit.as_slice());
        assert(lit@ == seq!['r', 'u', 'e']);
        if ok {
            return Some((JsonTokens::BoolVal(true), i + 4));
        }
    } else if c == 'n' {
        let lit = ['u', 'l', 'l'];
        let ok = same_literal(s, i + 1, lit.as_slice());
        assert(lit@ == seq!['u', 'l', 'l']);
        if ok {
            return Some((JsonTokens::Null, i + 4));
        }
    } else {
        let lit = ['a', 'l', 's', 'e'];
        let ok = same_literal(s, i + 1, lit.as_slice());
        assert(lit@ == seq!['a', 'l', 's', 'e']);
        if ok {
            return Some((JsonTokens::BoolVal(false), i + 5));
        }
    }
    None
}

/// Reads the number that starts at `i`: an integer where `i64` takes the
/// text, else a decimal kept as text.
fn parse_number(s: &[char], i: usize) -> (r: Option<(JsonTokens, usize)>)
    requires
        i < s@.len(),
        is_ascii_digit(s@[i as int]) || s@[i as int] == '-',
    ensures
        match json_step(s@, i as int) {
            Step::Emit(t, j) => r is Some && (r->0).0@ == t && (r->0).1 == j,
            _ => r is None,
        },
{
    let _n = s.len();
    let mut e: usize = i + 1;
    while e < s.len() && (('0' <= s[e] && s[e] <= '9') || s[e] == '.')
        invariant
            i < e <= s@.len(),
            num_end(s@, i + 1) == num_end(s@, e as int),
        decreases s@.len() - e,
    {
        e += 1;
    }
    let ghost t = s@.subrange(i as int, e as int);
    let neg = s[i] == '-';
    let start: usize = if neg { i + 1 } else { i };
    let ghost ds = s@.subrange(start as int, e as int);
    proof {
        assert(t[0] == s@[i as int]);
        assert(unsigned_part(t) =~= ds);
    }
    let bound: u128 = 9223372036854775808;
    let mut mag: u128 = 0;
    let mut big = false;
    let mut digits = true;
    let mut dots: usize = 0;
    let mut k: usize = start;
    while k < e
        invariant
            start <= k <= e <= s@.len(),
            ds == s@.subrange(start as int, e as int),
            digits == all_digits(s@.subrange(start as int, k as int)),
            digits && !big ==> mag == digits_value(s@.subrange(start as int, k as int)) && mag <= bound,
            digits && big ==> digits_value(s@.subrange(start as int, k as int)) > bound,
            bound == 9223372036854775808,
            dots == dot_count(s@.subrange(start as int, k as int)),
            dots <= k - start,
        decreases e - k,
    {
        let c = s[k];
        let ghost pre = s@.subrange(start as int, k as int);
        let ghost pre2 = s@.subrange(start as int, k + 1);
        proof {
            assert(pre2.drop_last() =~= pre);
            assert(pre2.last() == c);
        }
        if '0' <= c && c <= '9' {
            if digits && !big {
                let d = (c as u32 - '0' as u32) as u128;
                mag = mag * 10 + d;
                if mag > bound {
                    big = true;
                }
            }
        } else {
            if digits {
                assert(!is_ascii_digit(pre2[pre2.len() - 1]));
            }
            digits = false;
        }
        if c == '.' {
            dots += 1;
        }
        proof {
            if digits {
                assert forall|m: int| 0 <= m < pre2.len() implies is_ascii_digit(#[trigger] pre2[m]) by {
                    if m < pre.len() {
                        assert(pre2[m] == pre[m]);
                    }
                }
            }
        }
        k += 1;
    }
    let len = e - start;
    if len > 0 && digits && !big {
        if neg {
            let v: i64 = if mag == bound {
                i64::MIN
            } else {
                -(mag as i64)
            };
            return Some((JsonTokens::NumVal(v), e));
        } else if mag < bound {
            return Some((JsonTokens::NumVal(mag as i64), e));
        }
    }
    if dots <= 1 && dots < len {
        let text = copy_chars(slice_subrange(s, i, e));
        return Some((JsonTokens::DecVal(text), e));
    }
    None
}

proof fn lemma_close_quote(s: Seq<char>, open: int, j: int)
    ensures
        close_quote(s, open, j) matches Some(k) ==> j <= k < s.len(),
    decreases s.len() - j,
{
    if 0 <= j < s.len() && !(s[j] == '"' && (j == open + 1 || s[j - 1] != '\\')) {
        lemma_close_quote(s, open, j + 1);
    }
}

proof fn lemma_num_end(s: Seq<char>, j: int)
    requires
        0 <= j <= s.len(),
    ensures
        j <= num_end(s, j) <= s.len(),
    decreases s.len() - j,
{
    if j < s.len() && (is_ascii_digit(s[j]) || s[j] == '.') {
        lemma_num_end(s, j + 1);
    }
}

/// A step that does not fail moves forward and stays within the text.
proof fn lemma_step_bounds(s: Seq<char>, i: int)
    requires
        0 <= i < s.len(),
    ensures
        match json_step(s, i) {
            Step::Fail => true,
            Step::Skip(j) => i < j <= s.len(),
            Step::Emit(_, j) => i < j <= s.len(),
        },
{
    lemma_close_quote(s, i, i + 1);
    lemma_num_end(s, i + 1);
}

/// Splits a text into tokens of the structured grammar; `None` where a
/// string, literal or number is malformed.
pub fn tokenize_json(s: &[char]) -> (r: Option<Vec<JsonTokens>>)
    ensures
        r is Some ==> lex_json(s@) == Some(toks(r->0@)),
        r is None ==> lex_json(s@) is None,
{
    let mut res: Vec<JsonTokens> = Vec::new();
    let mut i: usize = 0;
    while i < s.len()
        invariant
            i <= s@.len(),
            lex_json(s@) == match lex_json_from(s@, i as int) {
                None => None,
                Some(rest) => Some(toks(res@) + rest),
            },
        decreases s@.len() - i,
    {
        let c = s[i];
        let ghost before = toks(res@);
        proof {
            lemma_step_bounds(s@, i as int);
        }
        let step = if c == '{' {
            Some((JsonTokens::OpenOb, i + 1))
        } else if c == '}' {
            Some((JsonTokens::CloseOb, i + 1))
        } else if c == '[' {
            Some((JsonTokens::OpArr, i + 1))
        } else if c == ']' {
            Some((JsonTokens::CloseArr, i + 1))
        } else if c == ':' {
            Some((JsonTokens::Ddot, i + 1))
        } else if c == ',' {
            Some((JsonTokens::Separator, i + 1))
        } else if c == '"' {
            parse_str(s, i)
        } else if c == 't' || c == 'f' || c == 'n' {
            parse_bool(s, i)
        } else if ('0' <= c && c <= '9') || c == '-' {
            parse_number(s, i)
        } else {
            i += 1;
            continue;
        };
        match step {
            None => {
                return None;
            },
            Some((tok, j)) => {
                res.push(tok);
                proof {
                    assert(toks(res@) =~= before.push(res@.last()@));
                }
                i = j;
                proof {
                    let rest = lex_json_from(s@, i as int);
                    if rest is Some {
                        assert(toks(res@) + rest->0 =~= before + (seq![res@.last()@] + rest->0));
                    }
                }
            },
        }
    }
    proof {
        assert(toks(res@) + seq![] =~= toks(res@));
    }
    Some(res)
}

/// A structured value, as a value.
pub enum JsonModel {
    Str(Seq<char>),
    Int(int),
    Dec(Seq<char>),
    Bool(bool),
    Obj(Seq<(Seq<char>, JsonModel)>),
    Null,
    Arr(Seq<JsonModel>),
}

/// A structured value. A decimal keeps its text; an object keeps its members
/// in the order their keys first appeared, each key once.
pub enum JsonValue {
    StringValue(Vec<char>),
    IntegerValue(i64),
    DecimalValue(Vec<char>),
    BooleanValue(bool),
    ObjectValue(Vec<(Vec<char>, JsonValue)>),
    Null,
    ArrayValue(Vec<JsonValue>),
}

pub open spec fn view_json(v: JsonValue) -> JsonModel
    decreases v, 0nat,
{
    match v {
        JsonValue::StringValue(s) => JsonModel::Str(s@),
        JsonValue::IntegerValue(n) => JsonModel::Int(n as int),
        JsonValue::DecimalValue(s) => JsonModel::Dec(s@),
        JsonValue::BooleanValue(b) => JsonModel::Bool(b),
        JsonValue::ObjectValue(ms) => JsonModel::Obj(view_members(ms@)),
        JsonValue::Null => JsonModel::Null,
        JsonValue::ArrayValue(vs) => JsonModel::Arr(view_values(vs@)),
    }
}

pub open spec fn view_values(vs: Seq<JsonValue>) -> Seq<JsonModel>
    decreases vs, vs.len(),
{
    if vs.len() == 0 {
        seq![]
    } else {
        view_values(vs.drop_last()).push(view_json(vs.last()))
    }
}

pub open spec fn view_members(ms: Seq<(Vec<char>, JsonValue)>) -> Seq<(Seq<char>, JsonModel)>
    decreases ms, ms.len(),
{
    if ms.len() == 0 {
        seq![]
    } else {
        view_members(ms.drop_last()).push((ms.last().0@, view_json(ms.last().1)))
    }
}

/// The position of key `k` among the members, if it is there.
pub open spec fn find_key(ms: Seq<(Seq<char>, JsonModel)>, k: Seq<char>) -> Option<int>
    decreases ms.len(),
{
    if ms.len() == 0 {
        None
    } else if ms.last().0 == k {
        Some(ms.len() - 1)
    } else {
        find_key(ms.drop_last(), k)
    }
}

/// The members after setting `k` to `v`: a later value for a key replaces an
/// earlier one in place.
pub open spec fn put_member(ms: Seq<(Seq<char>, JsonModel)>, k: Seq<char>, v: JsonModel) -> Seq<
    (Seq<char>, JsonModel),
> {
    match find_key(ms, k) {
        Some(p) => ms.update(p, (k, v)),
        None => ms.push((k, v)),
    }
}

/// The value that starts at token `i` and the position after it.
pub open spec fn parse_value_s(ts: Seq<Tok>, i: int) -> Option<(JsonModel, int)>
    decreases ts.len() - i, 0nat,
{
    if i < 0 || i >= ts.len() {
        None
    } else {
        match ts[i] {
            Tok::Str(v) => Some((JsonModel::Str(v), i + 1)),
            Tok::Dec(v) => Some((JsonModel::Dec(v), i + 1)),
            Tok::Null => Some((JsonModel::Null, i + 1)),
            Tok::Int(v) => Some((JsonModel::Int(v), i + 1)),
            Tok::Bool(v) => Some((JsonModel::Bool(v), i + 1)),
            Tok::OpArr => if i + 1 >= ts.len() {
                None
            } else if ts[i + 1] == Tok::CloseArr {
                Some((JsonModel::Arr(seq![]), i + 2))
            } else {
                parse_elems_s(ts, i + 1, seq![])
            },
            Tok::OpenOb => if i + 1 >= ts.len() {
                None
            } else if ts[i + 1] == Tok::CloseOb {
                Some((JsonModel::Obj(seq![]), i + 2))
            } else {
                parse_members_s(ts, i + 1, seq![])
            },
            _ => None,
        }
    }
}

/// The object that opens at token `i`.
pub open spec fn parse_object_s(ts: Seq<Tok>, i: int) -> Option<(JsonModel, int)> {
    if 0 <= i < ts.len() && ts[i] == Tok::OpenOb {
        parse_value_s(ts, i)
    } else {
        None
    }
}

/// The rest of an array from element `j`, after the elements `acc`.
pub open spec fn parse_elems_s(ts: Seq<Tok>, j: int, acc: Seq<JsonModel>) -> Option<(JsonModel, int)>
    decreases ts.len() - j, 1nat,
{
    if j < 0 {
        None
    } else {
        match parse_value_s(ts, j) {
            None => None,
            Some((v, j2)) => if !(j < j2 < ts.len()) {
                None
            } else if ts[j2] == Tok::CloseArr {
                Some((JsonModel::Arr(acc.push(v)), j2 + 1))
            } else if ts[j2] == Tok::Sep {
                parse_elems_s(ts, j2 + 1, acc.push(v))
            } else {
                None
            },
        }
    }
}

/// The rest of an object from the member at `j`, after the members `acc`.
pub open spec fn parse_members_s(ts: Seq<Tok>, j: int, acc: Seq<(Seq<char>, JsonModel)>) -> Option<
    (JsonModel, int),
>
    decreases ts.len() - j, 1nat,
{
    if 0 <= j && j + 1 < ts.len() && ts[j] is Str && ts[j + 1] == Tok::Colon {
        match parse_value_s(ts, j + 2) {
            None => None,
            Some((v, j2)) => if !(j < j2 < ts.len()) {
                None
            } else {
                let acc2 = put_member(acc, ts[j]->Str_0, v);
                if ts[j2] == Tok::CloseOb {
                    Some((JsonModel::Obj(acc2), j2 + 1))
                } else if ts[j2] == Tok::Sep {
                    parse_members_s(ts, j2 + 1, acc2)
                } else {
                    None
                }
            },
        }
    } else {
        None
    }
}

/// What parsing a whole text gives: its tokens must begin with an object.
pub open spec fn parse_json_s(s: Seq<char>) -> Option<JsonModel> {
    match lex_json(s) {
        None => None,
        Some(ts) => match parse_object_s(ts, 0) {
            None => None,
            Some((v, _)) => Some(v),
        },
    }
}

proof fn lemma_view_values(vs: Seq<JsonValue>)
    ensures
        view_values(vs).len() == vs.len(),
        forall|i: int| 0 <= i < vs.len() ==> #[trigger] view_values(vs)[i] == view_json(vs[i]),
    decreases vs.len(),
{
    if vs.len() > 0 {
        lemma_view_values(vs.drop_last());
    }
}

proof fn lemma_view_members(ms: Seq<(Vec<char>, JsonValue)>)
    ensures
        view_members(ms).len() == ms.len(),
        forall|i: int| 0 <= i < ms.len() ==> #[trigger] view_members(ms)[i] == (ms[i].0@, view_json(ms[i].1)),
    decreases ms.len(),
{
    if ms.len() > 0 {
        lemma_view_members(ms.drop_last());
    }
}

proof fn lemma_find_key(ms: Seq<(Seq<char>, JsonModel)>, k: Seq<char>)
    ensures
        find_key(ms, k) matches Some(p) ==> 0 <= p < ms.len() && ms[p].0 == k,
        find_key(ms, k) is None ==> forall|p: int| 0 <= p < ms.len() ==> (#[trigger] ms[p]).0 != k,
        find_key(ms, k) matches Some(p) ==> forall|q: int| p < q < ms.len() ==> (#[trigger] ms[q]).0 != k,
    decreases ms.len(),
{
    if ms.len() > 0 {
        lemma_find_key(ms.drop_last(), k);
        if ms.last().0 != k {
            assert forall|p: int| 0 <= p < ms.len() - 1 implies #[trigger] ms[p] == ms.drop_last()[p] by {}
        }
    }
}

/// Sets member `k` of `ms` to `v`, replacing an earlier value of `k`.
fn put_member_exec(ms: &mut Vec<(Vec<char>, JsonValue)>, k: Vec<char>, v: JsonValue)
    ensures
        view_members(final(ms)@) == put_member(view_members(old(ms)@), k@, view_json(v)),
{
    let ghost m0 = view_members(ms@);
    proof {
        lemma_view_members(ms@);
        lemma_find_key(m0, k@);
    }
    let mut p: usize = ms.len();
    while p > 0
        invariant
            p <= ms@.len(),
            m0 == view_members(ms@),
            forall|q: int| p <= q < ms@.len() ==> (#[trigger] ms@[q]).0@ != k@,
        ensures
            p <= ms@.len(),
            m0 == view_members(ms@),
            forall|q: int| p <= q < ms@.len() ==> (#[trigger] ms@[q]).0@ != k@,
            p > 0 ==> ms@[p - 1].0@ == k@,
        decreases p,
    {
        if same_chars(&ms[p - 1].0, &k) {
            break;
        }
        p -= 1;
    }
    proof {
        lemma_view_members(ms@);
    }
    if p > 0 && same_chars(&ms[p - 1].0, &k) {
        let ghost before = ms@;
        ms.set(p - 1, (k, v));
        proof {
            lemma_view_members(ms@);
            lemma_view_members(before);
            assert(find_key(m0, k@) == Some(p - 1)) by {
                lemma_find_key_last(m0, k@, p - 1);
            }
            assert(view_members(ms@) =~= m0.update(p - 1, (k@, view_json(v))));
        }
    } else {
        proof {
            assert(p == 0);
            assert forall|q: int| 0 <= q < m0.len() implies (#[trigger] m0[q]).0 != k@ by {
                assert(m0[q].0 == ms@[q].0@);
            }
            lemma_find_key_none(m0, k@);
        }
        ms.push((k, v));
        proof {
            assert(view_members(ms@).drop_last() =~= m0) by {
                assert(ms@.drop_last() =~= old(ms)@);
            }
        }
    }
}

proof fn lemma_find_key_last(ms: Seq<(Seq<char>, JsonModel)>, k: Seq<char>, p: int)
    requires
        0 <= p < ms.len(),
        ms[p].0 == k,
        forall|q: int| p < q < ms.len() ==> (#[trigger] ms[q]).0 != k,
    ensures
        find_key(ms, k) == Some(p),
    decreases ms.len(),
{
    if p < ms.len() - 1 {
        assert(ms.last() == ms[ms.len() - 1]);
        assert forall|q: int| p < q < ms.len() - 1 implies (#[trigger] ms.drop_last()[q]).0 != k by {
            assert(ms.drop_last()[q] == ms[q]);
        }
        lemma_find_key_last(ms.drop_last(), k, p);
    }
}

pub(crate) proof fn lemma_find_key_none(ms: Seq<(Seq<char>, JsonModel)>, k: Seq<char>)
    requires
        forall|q: int| 0 <= q < ms.len() ==> (#[trigger] ms[q]).0 != k,
    ensures
        find_key(ms, k) is None,
    decreases ms.len(),
{
    if ms.len() > 0 {
        assert(ms.last() == ms[ms.len() - 1]);
        assert forall|q: int| 0 <= q < ms.len() - 1 implies (#[trigger] ms.drop_last()[q]).0 != k by {
            assert(ms.drop_last()[q] == ms[q]);
        }
        lemma_find_key_none(ms.drop_last(), k);
    }
}


/// The value that starts at token `index` and the position after it.
fn parse_value(tokens: &Vec<JsonTokens>, index: usize) -> (r: Option<(JsonValue, usize)>)
    ensures
        match parse_value_s(toks(tokens@), index as int) {
            None => r is None,
            Some((m, j)) => r is Some && view_json((r->0).0) == m && (r->0).1 == j,
        },
    decreases tokens@.len() - index, 1nat,
{
    if index >= tokens.len() {
        return None;
    }
    match &tokens[index] {
        JsonTokens::StringVal(v) => Some((JsonValue::StringValue(copy_chars(v.as_slice())), index + 1)),
        JsonTokens::DecVal(v) => Some((JsonValue::DecimalValue(copy_chars(v.as_slice())), index + 1)),
        JsonTokens::Null => Some((JsonValue::Null, index + 1)),
        JsonTokens::NumVal(v) => Some((JsonValue::IntegerValue(*v), index + 1)),
        JsonTokens::BoolVal(v) => Some((JsonValue::BooleanValue(*v), index + 1)),
        JsonTokens::OpArr => parse_array(tokens, index),
        JsonTokens::OpenOb => parse_object(tokens, index),
        _ => None,
    }
}

/// The array that opens at token `index`.
fn parse_array(tokens: &Vec<JsonTokens>, index: usize) -> (r: Option<(JsonValue, usize)>)
    requires
        index < tokens@.len(),
        tokens@[index as int]@ == Tok::OpArr,
    ensures
        match parse_value_s(toks(tokens@), index as int) {
            None => r is None,
            Some((m, j)) => r is Some && view_json((r->0).0) == m && (r->0).1 == j,
        },
    decreases tokens@.len() - index, 0nat,
{
    let ghost ts = toks(tokens@);
    let _len = tokens.len();
    let mut n: usize = index + 1;
    if n >= tokens.len() {
        return None;
    }
    if matches!(tokens[n], JsonTokens::CloseArr) {
        proof {
            lemma_view_values(seq![]);
        }
        return Some((JsonValue::ArrayValue(Vec::new()), n + 1));
    }
    let mut ress: Vec<JsonValue> = Vec::new();
    proof {
        lemma_view_values(ress@);
        assert(view_values(ress@) =~= seq![]);
    }
    loop
        invariant
            ts == toks(tokens@),
            index < n < tokens@.len(),
            parse_value_s(ts, index as int) == parse_elems_s(ts, n as int, view_values(ress@)),
        decreases tokens@.len() - n,
    {
        match parse_value(tokens, n) {
            None => {
                return None;
            },
            Some((v, j2)) => {
                if j2 <= n || j2 >= tokens.len() {
                    return None;
                }
                let ghost acc = view_values(ress@);
                let ghost r0 = ress@;
                let ghost vm = view_json(v);
                ress.push(v);
                proof {
                    assert(ress@.drop_last() =~= r0);
                    assert(view_values(ress@) == acc.push(vm));
                }
                if matches!(tokens[j2], JsonTokens::CloseArr) {
                    return Some((JsonValue::ArrayValue(ress), j2 + 1));
                } else if matches!(tokens[j2], JsonTokens::Separator) {
                    n = j2 + 1;
                    if n >= tokens.len() {
                        return None;
                    }
                } else {
                    return None;
                }
            },
        }
    }
}

/// A `"key": value` member at token `index`: the key, the value and the
/// position after the value.
fn parse_pair(tokens: &Vec<JsonTokens>, index: usize) -> (r: Option<(Vec<char>, JsonValue, usize)>)
    ensures
        r is None ==> !(index + 1 < tokens@.len() && toks(tokens@)[index as int] is Str
            && toks(tokens@)[index + 1] == Tok::Colon) || parse_value_s(toks(tokens@), index + 2) is None,
        r is Some ==> index + 1 < tokens@.len() && toks(tokens@)[index as int] == Tok::Str((r->0).0@)
            && toks(tokens@)[index + 1] == Tok::Colon
            && parse_value_s(toks(tokens@), index + 2) == Some((view_json((r->0).1), (r->0).2 as int)),
    decreases tokens@.len() - index, 2nat,
{
    if index >= tokens.len() || tokens.len() - index < 2 {
        return None;
    }
    if let JsonTokens::StringVal(n) = &tokens[index] {
        if let JsonTokens::Ddot = &tokens[index + 1] {
            match parse_value(tokens, index + 2) {
                None => {
                    return None;
                },
                Some((val, n_index)) => {
                    return Some((copy_chars(n.as_slice()), val, n_index));
                },
            }
        }
    }
    None
}

/// The object that opens at token `index`.
fn parse_object(tokens: &Vec<JsonTokens>, index: usize) -> (r: Option<(JsonValue, usize)>)
    requires
        index < tokens@.len(),
        tokens@[index as int]@ == Tok::OpenOb,
    ensures
        match parse_value_s(toks(tokens@), index as int) {
            None => r is None,
            Some((m, j)) => r is Some && view_json((r->0).0) == m && (r->0).1 == j,
        },
    decreases tokens@.len() - index, 0nat,
{
    let ghost ts = toks(tokens@);
    let _len = tokens.len();
    let mut n: usize = index + 1;
    if n >= tokens.len() {
        return None;
    }
    if matches!(tokens[n], JsonTokens::CloseOb) {
        proof {
            lemma_view_members(seq![]);
        }
        return Some((JsonValue::ObjectValue(Vec::new()), n + 1));
    }
    let mut ress: Vec<(Vec<char>, JsonValue)> = Vec::new();
    proof {
        lemma_view_members(ress@);
        assert(view_members(ress@) =~= seq![]);
    }
    loop
        invariant
            ts == toks(tokens@),
            index < n < tokens@.len(),
            parse_value_s(ts, index as int) == parse_members_s(ts, n as int, view_members(ress@)),
        decreases tokens@.len() - n,
    {
        match parse_pair(tokens, n) {
            None => {
                return None;
            },
            Some((name, val, ret_index)) => {
                if ret_index <= n || ret_index >= tokens.len() {
                    return None;
                }
                put_member_exec(&mut ress, name, val);
                if matches!(tokens[ret_index], JsonTokens::CloseOb) {
                    return Some((JsonValue::ObjectValue(ress), ret_index + 1));
                } else if matches!(tokens[ret_index], JsonTokens::Separator) {
                    n = ret_index + 1;
                    if n >= tokens.len() {
                        return None;
                    }
                } else {
                    return None;
                }
            },
        }
    }
}

/// Parses a text whose tokens begin with an object; `None` where tokenizing
/// or parsing fails.
pub fn parse_json(json_string: &[char]) -> (r: Option<JsonValue>)
    ensures
        match parse_json_s(json_string@) {
            None => r is None,
            Some(m) => r is Some && view_json(r->0) == m,
        },
{
    let tokens = match tokenize_json(json_string) {
        None => {
            return None;
        },
        Some(t) => t,
    };
    if tokens.len() == 0 || !matches!(tokens[0], JsonTokens::OpenOb) {
        return None;
    }
    match parse_object(&tokens, 0) {
        None => None,
        Some((v, _)) => Some(v),
    }
}

} // verus!
