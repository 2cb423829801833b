use vstd::prelude::*;

use crate::chars::is_ascii_digit;
use crate::parse::{
    all_digits, ascii_chars, close_quote, dec_text_ok, digits_value,
    int_text, json_step, lemma_find_key_none, lex_json_from, low_bytes, num_end, parse_json_s,
    parse_elems_s, parse_members_s, parse_value_s, put_member, unescape_from,
    unsigned_part, JsonModel, Step, Tok,
};

verus! {

/// The tokens that write out a value: arrays and objects with their members
/// separated by commas.
pub open spec fn render_toks(m: JsonModel) -> Seq<Tok>
    decreases m, 0nat,
{
    match m {
        JsonModel::Str(v) => seq![Tok::Str(v)],
        JsonModel::Int(v) => seq![Tok::Int(v)],
        JsonModel::Dec(v) => seq![Tok::Dec(v)],
        JsonModel::Bool(v) => seq![Tok::Bool(v)],
        JsonModel::Null => seq![Tok::Null],
        JsonModel::Arr(vs) => seq![Tok::OpArr] + elems_toks(vs) + seq![Tok::CloseArr],
        JsonModel::Obj(ms) => seq![Tok::OpenOb] + members_toks(ms) + seq![Tok::CloseOb],
    }
}

pub open spec fn elems_toks(vs: Seq<JsonModel>) -> Seq<Tok>
    decreases vs, vs.len(),
{
    if vs.len() == 0 {
        seq![]
    } else if vs.len() == 1 {
        render_toks(vs[0])
    } else {
        render_toks(vs[0]) + seq![Tok::Sep] + elems_toks(vs.drop_first())
    }
}

pub open spec fn members_toks(ms: Seq<(Seq<char>, JsonModel)>) -> Seq<Tok>
    decreases ms, ms.len(),
{
    if ms.len() == 0 {
        seq![]
    } else if ms.len() == 1 {
        seq![Tok::Str(ms[0].0), Tok::Colon] + render_toks(ms[0].1)
    } else {
        seq![Tok::Str(ms[0].0), Tok::Colon] + render_toks(ms[0].1) + seq![Tok::Sep] + members_toks(
            ms.drop_first(),
        )
    }
}

/// Keys are distinct within each object.
pub open spec fn distinct_keys(ms: Seq<(Seq<char>, JsonModel)>) -> bool {
    forall|a: int, b: int| 0 <= a < b < ms.len() ==> (#[trigger] ms[a]).0 != (#[trigger] ms[b]).0
}

/// A value whose objects all have distinct keys: what an object built by
/// parsing can hold.
pub open spec fn well_keyed(m: JsonModel) -> bool
    decreases m, 0nat,
{
    match m {
        JsonModel::Arr(vs) => well_keyed_all(vs),
        JsonModel::Obj(ms) => distinct_keys(ms) && well_keyed_members(ms),
        _ => true,
    }
}

pub open spec fn well_keyed_all(vs: Seq<JsonModel>) -> bool
    decreases vs, vs.len(),
{
    vs.len() == 0 || (well_keyed(vs[0]) && well_keyed_all(vs.drop_first()))
}

pub open spec fn well_keyed_members(ms: Seq<(Seq<char>, JsonModel)>) -> bool
    decreases ms, ms.len(),
{
    ms.len() == 0 || (well_keyed(ms[0].1) && well_keyed_members(ms.drop_first()))
}

/// Parsing the tokens that write out a value gives the value back, whatever
/// tokens stand around them.
pub proof fn lemma_parse_rendered(m: JsonModel, ts: Seq<Tok>, i: int)
    requires
        well_keyed(m),
        0 <= i,
        i + render_toks(m).len() <= ts.len(),
        ts.subrange(i, i + render_toks(m).len()) == render_toks(m),
    ensures
        render_toks(m).len() >= 1,
        parse_value_s(ts, i) == Some((m, i + render_toks(m).len())),
    decreases m, 0nat,
{
    let r = render_toks(m);
    assert(ts[i] == r[0]);
    match m {
        JsonModel::Arr(vs) => {
            let e = elems_toks(vs);
            assert(ts[i + 1] == r[1]);
            if vs.len() == 0 {
                assert(r =~= seq![Tok::OpArr, Tok::CloseArr]);
                assert(vs =~= seq![]);
            } else {
                lemma_elems_len(vs);
                assert(r[1] == e[0]);
                lemma_elems_first(vs);
                lemma_elems_len(vs);
                assert(r[1 + e.len() as int] == Tok::CloseArr);
                assert(ts.subrange(i + 1, i + 1 + e.len() + 1) =~= e + seq![Tok::CloseArr]) by {
                    assert forall|k: int| 0 <= k < e.len() + 1 implies ts.subrange(i + 1, i + 1 + e.len() + 1)[k] == (e + seq![Tok::CloseArr])[k] by {
                        assert(ts[i + 1 + k] == r[1 + k]);
                    }
                }
                lemma_parse_elems(vs, ts, i + 1, seq![]);
                assert(seq![] + vs =~= vs);
            }
        },
        JsonModel::Obj(ms) => {
            let e = members_toks(ms);
            assert(ts[i + 1] == r[1]);
            if ms.len() == 0 {
                assert(r =~= seq![Tok::OpenOb, Tok::CloseOb]);
                assert(ms =~= seq![]);
            } else {
                lemma_members_len(ms);
                assert(r[1] == e[0]);
                assert(r[1 + e.len() as int] == Tok::CloseOb);
                assert(ts.subrange(i + 1, i + 1 + e.len() + 1) =~= e + seq![Tok::CloseOb]) by {
                    assert forall|k: int| 0 <= k < e.len() + 1 implies ts.subrange(i + 1, i + 1 + e.len() + 1)[k] == (e + seq![Tok::CloseOb])[k] by {
                        assert(ts[i + 1 + k] == r[1 + k]);
                    }
                }
                lemma_parse_members(ms, ts, i + 1, seq![]);
                assert(seq![] + ms =~= ms);
            }
        },
        _ => {},
    }
}

proof fn lemma_elems_len(vs: Seq<JsonModel>)
    requires
        vs.len() > 0,
    ensures
        elems_toks(vs).len() >= 1,
    decreases vs.len(),
{
    lemma_render_len(vs[0]);
}

proof fn lemma_render_len(m: JsonModel)
    ensures
        render_toks(m).len() >= 1,
{
    match m {
        JsonModel::Arr(vs) => {
            assert((seq![Tok::OpArr] + elems_toks(vs) + seq![Tok::CloseArr]).len() >= 1);
        },
        JsonModel::Obj(ms) => {
            assert((seq![Tok::OpenOb] + members_toks(ms) + seq![Tok::CloseOb]).len() >= 1);
        },
        _ => {},
    }
}

proof fn lemma_elems_first(vs: Seq<JsonModel>)
    requires
        vs.len() > 0,
    ensures
        elems_toks(vs)[0] != Tok::CloseArr,
    decreases vs.len(),
{
    let r = render_toks(vs[0]);
    assert(r[0] != Tok::CloseArr);
    assert(elems_toks(vs)[0] == r[0]);
}

proof fn lemma_members_len(ms: Seq<(Seq<char>, JsonModel)>)
    requires
        ms.len() > 0,
    ensures
        members_toks(ms).len() >= 2,
{
}

proof fn lemma_parse_elems(vs: Seq<JsonModel>, ts: Seq<Tok>, j: int, acc: Seq<JsonModel>)
    requires
        vs.len() > 0,
        well_keyed_all(vs),
        0 <= j,
        j + elems_toks(vs).len() + 1 <= ts.len(),
        ts.subrange(j, j + elems_toks(vs).len() + 1) == elems_toks(vs) + seq![Tok::CloseArr],
    ensures
        parse_elems_s(ts, j, acc) == Some((JsonModel::Arr(acc + vs), j + elems_toks(vs).len() + 1)),
    decreases vs, vs.len(),
{
    let e = elems_toks(vs);
    let r0 = render_toks(vs[0]);
    let sub = ts.subrange(j, j + e.len() + 1);
    assert(ts.subrange(j, j + r0.len()) =~= r0) by {
        assert forall|k: int| 0 <= k < r0.len() implies ts.subrange(j, j + r0.len())[k] == r0[k] by {
            assert(sub[k] == ts[j + k]);
            assert(e[k] == r0[k]);
        }
    }
    lemma_parse_rendered(vs[0], ts, j);
    let j2 = j + r0.len();
    assert(sub[r0.len() as int] == ts[j2]);
    if vs.len() == 1 {
        assert(acc.push(vs[0]) =~= acc + vs);
    } else {
        let rest = vs.drop_first();
        let e2 = elems_toks(rest);
        assert(e[r0.len() as int] == Tok::Sep);
        lemma_elems_len(rest);
        assert(ts.subrange(j2 + 1, j2 + 1 + e2.len() + 1) =~= e2 + seq![Tok::CloseArr]) by {
            assert forall|k: int| 0 <= k < e2.len() + 1 implies ts.subrange(j2 + 1, j2 + 1 + e2.len() + 1)[k] == (e2 + seq![Tok::CloseArr])[k] by {
                assert(sub[r0.len() + 1 + k] == ts[j2 + 1 + k]);
            }
        }
        lemma_parse_elems(rest, ts, j2 + 1, acc.push(vs[0]));
        assert(acc.push(vs[0]) + rest =~= acc + vs);
    }
}

proof fn lemma_parse_members(ms: Seq<(Seq<char>, JsonModel)>, ts: Seq<Tok>, j: int, acc: Seq<(Seq<char>, JsonModel)>)
    requires
        ms.len() > 0,
        distinct_keys(ms),
        well_keyed_members(ms),
        forall|a: int, b: int| 0 <= a < acc.len() && 0 <= b < ms.len() ==> (#[trigger] acc[a]).0 != (#[trigger] ms[b]).0,
        0 <= j,
        j + members_toks(ms).len() + 1 <= ts.len(),
        ts.subrange(j, j + members_toks(ms).len() + 1) == members_toks(ms) + seq![Tok::CloseOb],
    ensures
        parse_members_s(ts, j, acc) == Some((JsonModel::Obj(acc + ms), j + members_toks(ms).len() + 1)),
    decreases ms, ms.len(),
{
    let e = members_toks(ms);
    let r0 = render_toks(ms[0].1);
    let sub = ts.subrange(j, j + e.len() + 1);
    assert(sub[0] == ts[j] && sub[1] == ts[j + 1]);
    assert(ts.subrange(j + 2, j + 2 + r0.len()) =~= r0) by {
        assert forall|k: int| 0 <= k < r0.len() implies ts.subrange(j + 2, j + 2 + r0.len())[k] == r0[k] by {
            assert(sub[2 + k] == ts[j + 2 + k]);
            assert(e[2 + k] == r0[k]);
        }
    }
    lemma_parse_rendered(ms[0].1, ts, j + 2);
    let j2 = j + 2 + r0.len();
    assert(sub[2 + r0.len() as int] == ts[j2]);
    assert forall|q: int| 0 <= q < acc.len() implies (#[trigger] acc[q]).0 != ms[0].0 by {}
    lemma_find_key_none(acc, ms[0].0);
    let acc2 = acc.push(ms[0]);
    assert(put_member(acc, ms[0].0, ms[0].1) == acc2);
    if ms.len() == 1 {
        assert(acc2 =~= acc + ms);
    } else {
        let rest = ms.drop_first();
        let e2 = members_toks(rest);
        assert(e[2 + r0.len() as int] == Tok::Sep);
        lemma_members_len(rest);
        assert(ts.subrange(j2 + 1, j2 + 1 + e2.len() + 1) =~= e2 + seq![Tok::CloseOb]) by {
            assert forall|k: int| 0 <= k < e2.len() + 1 implies ts.subrange(j2 + 1, j2 + 1 + e2.len() + 1)[k] == (e2 + seq![Tok::CloseOb])[k] by {
                assert(sub[2 + r0.len() + 1 + k] == ts[j2 + 1 + k]);
            }
        }
        assert forall|a: int, b: int| 0 <= a < acc2.len() && 0 <= b < rest.len() implies (#[trigger] acc2[a]).0 != (#[trigger] rest[b]).0 by {
            assert(rest[b] == ms[b + 1]);
            if a == acc.len() {
                assert(acc2[a] == ms[0]);
            } else {
                assert(acc2[a] == acc[a]);
            }
        }
        assert forall|a: int, b: int| 0 <= a < b < rest.len() implies (#[trigger] rest[a]).0 != (#[trigger] rest[b]).0 by {
            assert(rest[a] == ms[a + 1] && rest[b] == ms[b + 1]);
        }
        lemma_parse_members(rest, ts, j2 + 1, acc2);
        assert(acc2 + rest =~= acc + ms);
    }
}

/// The character of a decimal digit.
pub open spec fn digit_char(d: nat) -> char {
    if d == 0 {
        '0'
    } else if d == 1 {
        '1'
    } else if d == 2 {
        '2'
    } else if d == 3 {
        '3'
    } else if d == 4 {
        '4'
    } else if d == 5 {
        '5'
    } else if d == 6 {
        '6'
    } else if d == 7 {
        '7'
    } else if d == 8 {
        '8'
    } else {
        '9'
    }
}

/// The decimal digits of `n`, without leading zeros.
pub open spec fn digits_of(n: nat) -> Seq<char>
    decreases n,
{
    if n < 10 {
        seq![digit_char(n)]
    } else {
        digits_of(n / 10).push(digit_char(n % 10))
    }
}

/// An integer in decimal, with a minus sign where it is negative.
pub open spec fn int_render(v: int) -> Seq<char> {
    if v < 0 {
        seq!['-'] + digits_of((-v) as nat)
    } else {
        digits_of(v as nat)
    }
}

/// A string body that needs no escapes: ASCII, without quotes or backslashes.
pub open spec fn plain_text(t: Seq<char>) -> bool {
    forall|k: int| 0 <= k < t.len() ==> (#[trigger] t[k] as u32) < 128 && t[k] != '"' && t[k] != '\\'
}

/// A decimal text that reads back as itself: a sign or digit, then digits
/// and dots, that `i64` does not take and `f64` does.
pub open spec fn plain_decimal(t: Seq<char>) -> bool {
    &&& t.len() > 0
    &&& (is_ascii_digit(t[0]) || t[0] == '-')
    &&& forall|k: int| 1 <= k < t.len() ==> is_ascii_digit(#[trigger] t[k]) || t[k] == '.'
    &&& int_text(t) is None
    &&& dec_text_ok(t)
}

/// The text that writes out a value, with no whitespace.
pub open spec fn render_text(m: JsonModel) -> Seq<char>
    decreases m, 0nat,
{
    match m {
        JsonModel::Str(v) => seq!['"'] + v + seq!['"'],
        JsonModel::Int(v) => int_render(v),
        JsonModel::Dec(v) => v,
        JsonModel::Bool(b) => if b {
            seq!['t', 'r', 'u', 'e']
        } else {
            seq!['f', 'a', 'l', 's', 'e']
        },
        JsonModel::Null => seq!['n', 'u', 'l', 'l'],
        JsonModel::Arr(vs) => seq!['['] + elems_text(vs) + seq![']'],
        JsonModel::Obj(ms) => seq!['{'] + members_text(ms) + seq!['}'],
    }
}

pub open spec fn elems_text(vs: Seq<JsonModel>) -> Seq<char>
    decreases vs, vs.len(),
{
    if vs.len() == 0 {
        seq![]
    } else if vs.len() == 1 {
        render_text(vs[0])
    } else {
        render_text(vs[0]) + seq![','] + elems_text(vs.drop_first())
    }
}

pub open spec fn member_text(k: Seq<char>, v: JsonModel) -> Seq<char> {
    seq!['"'] + k + seq!['"', ':'] + render_text(v)
}

pub open spec fn members_text(ms: Seq<(Seq<char>, JsonModel)>) -> Seq<char>
    decreases ms, ms.len(),
{
    if ms.len() == 0 {
        seq![]
    } else if ms.len() == 1 {
        seq!['"'] + ms[0].0 + seq!['"', ':'] + render_text(ms[0].1)
    } else {
        seq!['"'] + ms[0].0 + seq!['"', ':'] + render_text(ms[0].1) + seq![','] + members_text(
            ms.drop_first(),
        )
    }
}

/// A value that its text writes out faithfully: strings and keys need no
/// escapes, integers fit `i64`, decimals read back as themselves.
pub open spec fn textual(m: JsonModel) -> bool
    decreases m, 0nat,
{
    match m {
        JsonModel::Str(v) => plain_text(v),
        JsonModel::Int(v) => i64::MIN <= v <= i64::MAX,
        JsonModel::Dec(v) => plain_decimal(v),
        JsonModel::Arr(vs) => textual_all(vs),
        JsonModel::Obj(ms) => textual_members(ms),
        _ => true,
    }
}

pub open spec fn textual_all(vs: Seq<JsonModel>) -> bool
    decreases vs, vs.len(),
{
    vs.len() == 0 || (textual(vs[0]) && textual_all(vs.drop_first()))
}

pub open spec fn textual_members(ms: Seq<(Seq<char>, JsonModel)>) -> bool
    decreases ms, ms.len(),
{
    ms.len() == 0 || (plain_text(ms[0].0) && textual(ms[0].1) && textual_members(ms.drop_first()))
}

/// Tokens in front of what tokenizing the rest gives.
pub open spec fn prepend(a: Seq<Tok>, o: Option<Seq<Tok>>) -> Option<Seq<Tok>> {
    match o {
        None => None,
        Some(x) => Some(a + x),
    }
}

/// Nothing that continues a number stands at `p`.
pub open spec fn number_ends_at(s: Seq<char>, p: int) -> bool {
    p == s.len() || !(is_ascii_digit(s[p]) || s[p] == '.')
}

proof fn lemma_digit_char(d: nat)
    requires
        d < 10,
    ensures
        is_ascii_digit(digit_char(d)),
        digit_char(d) as nat - '0' as nat == d,
{
}

proof fn lemma_digits_of(n: nat)
    ensures
        digits_of(n).len() >= 1,
        all_digits(digits_of(n)),
        digits_value(digits_of(n)) == n,
    decreases n,
{
    lemma_digit_char(n % 10);
    let d = digits_of(n);
    if n < 10 {
        assert(d.drop_last() =~= seq![]);
        assert(digits_value(d.drop_last()) == 0);
        assert(d.last() == digit_char(n));
        assert(digits_value(d) == digits_value(d.drop_last()) * 10 + (d.last() as nat - '0' as nat) as nat);
    } else {
        lemma_digits_of(n / 10);
        let d = digits_of(n);
        assert(d.drop_last() =~= digits_of(n / 10));
        assert forall|k: int| 0 <= k < d.len() implies is_ascii_digit(#[trigger] d[k]) by {
            if k < d.len() - 1 {
                assert(d[k] == digits_of(n / 10)[k]);
            }
        }
        assert(n == (n / 10) * 10 + n % 10) by (nonlinear_arith);
        assert(d.last() == digit_char(n % 10));
        assert(digits_value(d) == digits_value(d.drop_last()) * 10 + (d.last() as nat - '0' as nat) as nat);
    }
}

proof fn lemma_int_render(v: int)
    requires
        i64::MIN <= v <= i64::MAX,
    ensures
        int_text(int_render(v)) == Some(v),
        int_render(v).len() >= 1,
        is_ascii_digit(int_render(v)[0]) || int_render(v)[0] == '-',
        forall|k: int| 1 <= k < int_render(v).len() ==> is_ascii_digit(#[trigger] int_render(v)[k]),
{
    let t = int_render(v);
    if v < 0 {
        lemma_digits_of((-v) as nat);
        assert(unsigned_part(t) =~= digits_of((-v) as nat));
        assert forall|k: int| 1 <= k < t.len() implies is_ascii_digit(#[trigger] t[k]) by {
            assert(t[k] == digits_of((-v) as nat)[k - 1]);
        }
    } else {
        lemma_digits_of(v as nat);
        assert(unsigned_part(t) =~= digits_of(v as nat));
    }
}

proof fn lemma_num_end_over(s: Seq<char>, j: int, e: int)
    requires
        0 <= j <= e <= s.len(),
        forall|k: int| j <= k < e ==> is_ascii_digit(#[trigger] s[k]) || s[k] == '.',
        number_ends_at(s, e),
    ensures
        num_end(s, j) == e,
    decreases e - j,
{
    if j < e {
        lemma_num_end_over(s, j + 1, e);
    }
}

proof fn lemma_close_quote_over(s: Seq<char>, open: int, j: int, e: int)
    requires
        0 <= open < j <= e < s.len(),
        forall|k: int| open < k < e ==> #[trigger] s[k] != '"' && s[k] != '\\',
        s[e] == '"',
    ensures
        close_quote(s, open, j) == Some(e),
    decreases e - j,
{
    if j < e {
        lemma_close_quote_over(s, open, j + 1, e);
    } else if e > open + 1 {
        assert(s[e - 1] != '\\');
    }
}

proof fn lemma_unescape_plain(b: Seq<u8>, k: int)
    requires
        0 <= k <= b.len(),
        forall|m: int| 0 <= m < b.len() ==> #[trigger] b[m] != 92,
    ensures
        unescape_from(b, k) == Some(b.skip(k)),
    decreases b.len() - k,
{
    if k < b.len() {
        lemma_unescape_plain(b, k + 1);
        assert(seq![b[k]] + b.skip(k + 1) =~= b.skip(k));
    } else {
        assert(b.skip(k) =~= seq![]);
    }
}

/// Splitting off the piece of `s` at `i` that equals `r`.
proof fn lemma_piece(s: Seq<char>, i: int, r: Seq<char>, a: int, b: int)
    requires
        0 <= i,
        i + r.len() <= s.len(),
        s.subrange(i, i + r.len()) == r,
        0 <= a <= b <= r.len(),
    ensures
        s.subrange(i + a, i + b) == r.subrange(a, b),
        forall|k: int| a <= k < b ==> #[trigger] s[i + k] == r[k],
{
    assert forall|k: int| a <= k < b implies #[trigger] s[i + k] == r[k] by {
        assert(s.subrange(i, i + r.len())[k] == s[i + k]);
    }
    assert(s.subrange(i + a, i + b) =~= r.subrange(a, b));
}

proof fn lemma_ascii_byte(c: char)
    requires
        (c as u32) < 128,
    ensures
        ((c as u32) as u8) < 128,
        ((c as u32) as u8) as char == c,
        c != '\\' ==> ((c as u32) as u8) != 92,
{
    let b = (c as u32) as u8;
    assert(b as u32 == c as u32);
}

/// Tokenizing the text of a string that needs no escapes.
proof fn lemma_lex_string(v: Seq<char>, s: Seq<char>, i: int)
    requires
        plain_text(v),
        0 <= i,
        i + v.len() + 2 <= s.len(),
        s.subrange(i, i + v.len() + 2) == seq!['"'] + v + seq!['"'],
    ensures
        lex_json_from(s, i) == prepend(seq![Tok::Str(v)], lex_json_from(s, i + v.len() + 2)),
{
    let r = seq!['"'] + v + seq!['"'];
    let n = r.len() as int;
    lemma_piece(s, i, r, 0, n);
    assert(s[i] == r[0]);
    assert forall|k: int| i < k < i + n - 1 implies #[trigger] s[k] != '"' && s[k] != '\\' by {
        assert(s[i + (k - i)] == r[k - i]);
        assert(r[k - i] == v[k - i - 1]);
    }
    assert(s[i + (n - 1)] == r[n - 1]);
    lemma_close_quote_over(s, i, i + 1, i + n - 1);
    let body = s.subrange(i + 1, i + n - 1);
    assert(body =~= v) by {
        assert forall|k: int| 0 <= k < v.len() implies body[k] == v[k] by {
            assert(s[i + (k + 1)] == r[k + 1]);
        }
    }
    let b = low_bytes(v);
    assert forall|q: int| 0 <= q < b.len() implies #[trigger] b[q] != 92 && b[q] < 128 by {
        let c = v[q];
        assert((c as u32) < 128 && c != '"' && c != '\\');
        assert(b[q] == (c as u32) as u8);
        lemma_ascii_byte(c);
    }
    lemma_unescape_plain(b, 0);
    assert(b.skip(0) =~= b);
    assert(ascii_chars(b) =~= v) by {
        assert forall|q: int| 0 <= q < v.len() implies ascii_chars(b)[q] == v[q] by {
            let c = v[q];
            assert((c as u32) < 128);
            assert(b[q] == (c as u32) as u8);
            assert(ascii_chars(b)[q] == b[q] as char);
            lemma_ascii_byte(c);
        }
    }
    assert(json_step(s, i) == Step::Emit(Tok::Str(v), i + n));
}

/// Tokenizing the text of a number, `true`, `false` or `null`.
proof fn lemma_lex_scalar(m: JsonModel, s: Seq<char>, i: int)
    requires
        m is Int || m is Dec || m is Bool || m is Null,
        textual(m),
        0 <= i,
        i + render_text(m).len() <= s.len(),
        s.subrange(i, i + render_text(m).len()) == render_text(m),
        number_ends_at(s, i + render_text(m).len()),
    ensures
        render_text(m).len() >= 1,
        lex_json_from(s, i) == prepend(render_toks(m), lex_json_from(s, i + render_text(m).len())),
{
    let r = render_text(m);
    let n = r.len() as int;
    match m {
        JsonModel::Int(v) => {
            lemma_int_render(v);
            lemma_piece(s, i, r, 0, n);
            assert(s[i] == r[0]);
            assert forall|k: int| i + 1 <= k < i + n implies is_ascii_digit(#[trigger] s[k]) || s[k] == '.' by {
                assert(s[i + (k - i)] == r[k - i]);
            }
            lemma_num_end_over(s, i + 1, i + n);
            assert(s.subrange(i, i + n) == r);
            assert(json_step(s, i) == Step::Emit(Tok::Int(v), i + n));
        },
        JsonModel::Dec(v) => {
            lemma_piece(s, i, r, 0, n);
            assert(s[i] == r[0]);
            assert forall|k: int| i + 1 <= k < i + n implies is_ascii_digit(#[trigger] s[k]) || s[k] == '.' by {
                assert(s[i + (k - i)] == r[k - i]);
            }
            lemma_num_end_over(s, i + 1, i + n);
            assert(json_step(s, i) == Step::Emit(Tok::Dec(v), i + n));
        },
        JsonModel::Bool(bv) => {
            lemma_piece(s, i, r, 1, n);
            assert(s[i] == r[0]);
            if bv {
                assert(r.subrange(1, 4) =~= seq!['r', 'u', 'e']);
            } else {
                assert(r.subrange(1, 5) =~= seq!['a', 'l', 's', 'e']);
            }
        },
        JsonModel::Null => {
            lemma_piece(s, i, r, 1, n);
            assert(s[i] == r[0]);
            assert(r.subrange(1, 4) =~= seq!['u', 'l', 'l']);
        },
        _ => {},
    }
}

/// Tokenizing the text that writes out a value gives its tokens, and goes on
/// after it.
#[verifier::rlimit(40)]
proof fn lemma_lex_rendered(m: JsonModel, s: Seq<char>, i: int)
    requires
        textual(m),
        0 <= i,
        i + render_text(m).len() <= s.len(),
        s.subrange(i, i + render_text(m).len()) == render_text(m),
        number_ends_at(s, i + render_text(m).len()),
    ensures
        render_text(m).len() >= 1,
        lex_json_from(s, i) == prepend(render_toks(m), lex_json_from(s, i + render_text(m).len())),
    decreases m, 0nat,
{
    let r = render_text(m);
    let n = r.len() as int;
    match m {
        JsonModel::Str(v) => {
            lemma_lex_string(v, s, i);
        },
        JsonModel::Int(_) | JsonModel::Dec(_) | JsonModel::Bool(_) | JsonModel::Null => {
            lemma_lex_scalar(m, s, i);
        },
        JsonModel::Arr(vs) => {
            let e = elems_text(vs);
            lemma_piece(s, i, r, 0, n);
            assert(s[i] == r[0]);
            assert(json_step(s, i) == Step::Emit(Tok::OpArr, i + 1));
            assert(s[i + 1 + e.len()] == ']') by {
                assert(s[i + (1 + e.len())] == r[1 + e.len() as int]);
            }
            let end = i + 1 + e.len();
            assert(json_step(s, end) == Step::Emit(Tok::CloseArr, end + 1));
            assert(lex_json_from(s, end) == prepend(seq![Tok::CloseArr], lex_json_from(s, end + 1)));
            if vs.len() == 0 {
                assert(render_toks(m) =~= seq![Tok::OpArr, Tok::CloseArr]);
            } else {
                lemma_piece(s, i, r, 1, 1 + e.len() as int);
                assert(r.subrange(1, 1 + e.len() as int) =~= e);
                lemma_lex_elems(vs, s, i + 1);
            }
            let t = render_toks(m);
            match lex_json_from(s, end + 1) {
                None => {},
                Some(x) => {
                    assert(seq![Tok::OpArr] + (elems_toks(vs) + (seq![Tok::CloseArr] + x)) =~= t + x);
                },
            }
        },
        JsonModel::Obj(ms) => {
            let e = members_text(ms);
            lemma_piece(s, i, r, 0, n);
            assert(s[i] == r[0]);
            assert(json_step(s, i) == Step::Emit(Tok::OpenOb, i + 1));
            assert(s[i + 1 + e.len()] == '}') by {
                assert(s[i + (1 + e.len())] == r[1 + e.len() as int]);
            }
            let end = i + 1 + e.len();
            assert(json_step(s, end) == Step::Emit(Tok::CloseOb, end + 1));
            if ms.len() == 0 {
                assert(render_toks(m) =~= seq![Tok::OpenOb, Tok::CloseOb]);
            } else {
                lemma_piece(s, i, r, 1, 1 + e.len() as int);
                assert(r.subrange(1, 1 + e.len() as int) =~= e);
                lemma_lex_members(ms, s, i + 1);
            }
            let t = render_toks(m);
            match lex_json_from(s, end + 1) {
                None => {},
                Some(x) => {
                    assert(seq![Tok::OpenOb] + (members_toks(ms) + (seq![Tok::CloseOb] + x)) =~= t + x);
                },
            }
        },
    }
}

proof fn lemma_lex_elems(vs: Seq<JsonModel>, s: Seq<char>, j: int)
    requires
        vs.len() > 0,
        textual_all(vs),
        0 <= j,
        j + elems_text(vs).len() < s.len(),
        s.subrange(j, j + elems_text(vs).len()) == elems_text(vs),
        s[j + elems_text(vs).len()] == ']',
    ensures
        lex_json_from(s, j) == prepend(elems_toks(vs), lex_json_from(s, j + elems_text(vs).len())),
    decreases vs, vs.len(),
{
    let e = elems_text(vs);
    let r0 = render_text(vs[0]);
    let n0 = r0.len() as int;
    lemma_piece(s, j, e, 0, e.len() as int);
    assert(e.subrange(0, n0) =~= r0);
    lemma_piece(s, j, e, 0, n0);
    if vs.len() == 1 {
        lemma_lex_rendered(vs[0], s, j);
    } else {
        let rest = vs.drop_first();
        let e2 = elems_text(rest);
        assert(s[j + n0] == ',') by {
            assert(e[n0] == ',');
        }
        lemma_lex_rendered(vs[0], s, j);
        let c = j + n0;
        assert(json_step(s, c) == Step::Emit(Tok::Sep, c + 1));
        assert(e.subrange(n0 + 1, e.len() as int) =~= e2);
        lemma_piece(s, j, e, n0 + 1, e.len() as int);
        lemma_lex_elems(rest, s, c + 1);
        match lex_json_from(s, j + e.len()) {
            None => {},
            Some(x) => {
                assert(render_toks(vs[0]) + (seq![Tok::Sep] + (elems_toks(rest) + x)) =~= elems_toks(vs) + x);
            },
        }
    }
}

#[verifier::rlimit(40)]
proof fn lemma_lex_members(ms: Seq<(Seq<char>, JsonModel)>, s: Seq<char>, j: int)
    requires
        ms.len() > 0,
        textual_members(ms),
        0 <= j,
        j + members_text(ms).len() < s.len(),
        s.subrange(j, j + members_text(ms).len()) == members_text(ms),
        s[j + members_text(ms).len()] == '}',
    ensures
        lex_json_from(s, j) == prepend(members_toks(ms), lex_json_from(s, j + members_text(ms).len())),
    decreases ms, ms.len(),
{
    let e = members_text(ms);
    let k = ms[0].0;
    let v = ms[0].1;
    let mt = member_text(k, v);
    let n0 = mt.len() as int;
    let kr = render_text(JsonModel::Str(k));
    let kl = kr.len() as int;
    lemma_piece(s, j, e, 0, e.len() as int);
    assert(e.subrange(0, n0) =~= mt);
    lemma_piece(s, j, e, 0, n0);
    assert(mt.subrange(0, kl) =~= kr);
    lemma_piece(s, j, mt, 0, kl);
    assert(s[j + kl] == ':') by {
        assert(mt[kl] == ':');
    }
    lemma_lex_string(k, s, j);
    assert(json_step(s, j + kl) == Step::Emit(Tok::Colon, j + kl + 1));
    let vr = render_text(v);
    assert(mt.subrange(kl + 1, n0) =~= vr);
    lemma_piece(s, j, mt, kl + 1, n0);
    let after = j + n0;
    assert(s[after] == ',' || s[after] == '}') by {
        if ms.len() == 1 {
            assert(e.len() == n0);
        } else {
            assert(e[n0] == ',');
        }
    }
    lemma_lex_rendered(v, s, j + kl + 1);
    if ms.len() == 1 {
        match lex_json_from(s, after) {
            None => {},
            Some(x) => {
                assert(seq![Tok::Str(k)] + (seq![Tok::Colon] + (render_toks(v) + x)) =~= members_toks(ms) + x);
            },
        }
    } else {
        let rest = ms.drop_first();
        let e2 = members_text(rest);
        assert(json_step(s, after) == Step::Emit(Tok::Sep, after + 1));
        assert(e.subrange(n0 + 1, e.len() as int) =~= e2);
        lemma_piece(s, j, e, n0 + 1, e.len() as int);
        lemma_lex_members(rest, s, after + 1);
        match lex_json_from(s, j + e.len()) {
            None => {},
            Some(x) => {
                assert(seq![Tok::Str(k)] + (seq![Tok::Colon] + (render_toks(v) + (seq![Tok::Sep] + (members_toks(rest) + x)))) =~= members_toks(ms) + x);
            },
        }
    }
}

/// Writing out an object as text and parsing that text gives the same object
/// back, so writing it out again gives the same text.
pub proof fn lemma_round_trip(m: JsonModel)
    requires
        m is Obj,
        textual(m),
        well_keyed(m),
    ensures
        parse_json_s(render_text(m)) == Some(m),
{
    let s = render_text(m);
    assert(s.subrange(0, s.len() as int) =~= s);
    lemma_lex_rendered(m, s, 0);
    assert(lex_json_from(s, s.len() as int) == Some(Seq::<Tok>::empty()));
    let ts = render_toks(m);
    assert(ts + Seq::<Tok>::empty() =~= ts);
    assert(ts.subrange(0, ts.len() as int) =~= ts);
    lemma_parse_rendered(m, ts, 0);
    assert(ts[0] == Tok::OpenOb);
}

} // verus!
