use vstd::prelude::*;
use vstd::slice::slice_subrange;

use crate::parse::{decode_utf8, hex_byte, hex_digit, low_bytes, utf8_decode};
use crate::chars::{
    alphabetic, ascii_digit, ascii_whitespace, is_ascii_digit, is_ascii_ws, numeric,
    unicode_alphabetic, unicode_numeric,
};

verus! {

/// The two kinds of run that make a multi-character token.
#[derive(Clone, Copy)]
pub enum CharClass {
    /// Letters, digits and the backslash of an embedded `\uXXXX` escape.
    Word,
    /// Numeric characters, the ASCII digits among them.
    Number,
}

pub open spec fn in_class(class: CharClass, c: char) -> bool {
    !is_ascii_ws(c) && match class {
        CharClass::Word => alphabetic(c) || numeric(c) || c == '\\',
        CharClass::Number => numeric(c) || is_ascii_digit(c),
    }
}

/// The characters of `s` that are not ASCII whitespace, in order.
pub open spec fn non_ws_chars(s: Seq<char>) -> Seq<char> {
    s.filter(|c: char| !is_ascii_ws(c))
}

/// Length of the leading run of ASCII whitespace.
pub open spec fn ws_prefix_len(s: Seq<char>) -> nat
    decreases s.len(),
{
    if s.len() > 0 && is_ascii_ws(s[0]) {
        1 + ws_prefix_len(s.drop_first())
    } else {
        0
    }
}

/// Length of the leading run of characters of `class`.
pub open spec fn class_run(s: Seq<char>, class: CharClass) -> nat
    decreases s.len(),
{
    if s.len() > 0 && in_class(class, s[0]) {
        1 + class_run(s.drop_first(), class)
    } else {
        0
    }
}

/// Length of the token at the start of `s`, which starts with no whitespace.
pub open spec fn token_len(s: Seq<char>) -> nat {
    if alphabetic(s[0]) {
        class_run(s, CharClass::Word)
    } else if is_ascii_digit(s[0]) {
        class_run(s, CharClass::Number)
    } else {
        1
    }
}

/// One step of the tokenizer: the next token and what is left after it, or
/// `None` once only whitespace remains.
pub open spec fn lex_step(s: Seq<char>) -> Option<(Seq<char>, Seq<char>)> {
    let t = s.skip(ws_prefix_len(s) as int);
    if t.len() == 0 {
        None
    } else {
        Some((t.take(token_len(t) as int), t.skip(token_len(t) as int)))
    }
}

/// Every token that the tokenizer yields on `s`, in order.
pub open spec fn tokens_of(s: Seq<char>) -> Seq<Seq<char>>
    decreases s.len(),
    via tokens_of_decreases
{
    match lex_step(s) {
        None => seq![],
        Some((tok, rest)) => seq![tok] + tokens_of(rest),
    }
}

pub proof fn lemma_ws_prefix_len(s: Seq<char>)
    ensures
        ws_prefix_len(s) <= s.len(),
        forall|i: int| 0 <= i < ws_prefix_len(s) ==> is_ascii_ws(#[trigger] s[i]),
        ws_prefix_len(s) < s.len() ==> !is_ascii_ws(s[ws_prefix_len(s) as int]),
    decreases s.len(),
{
    if s.len() > 0 && is_ascii_ws(s[0]) {
        lemma_ws_prefix_len(s.drop_first());
        assert forall|i: int| 0 <= i < ws_prefix_len(s) implies is_ascii_ws(#[trigger] s[i]) by {
            if i > 0 {
                assert(s[i] == s.drop_first()[i - 1]);
            }
        }
    }
}

pub proof fn lemma_class_run(s: Seq<char>, class: CharClass)
    ensures
        class_run(s, class) <= s.len(),
        forall|i: int| 0 <= i < class_run(s, class) ==> in_class(class, #[trigger] s[i]),
        class_run(s, class) < s.len() ==> !in_class(class, s[class_run(s, class) as int]),
    decreases s.len(),
{
    if s.len() > 0 && in_class(class, s[0]) {
        lemma_class_run(s.drop_first(), class);
        assert forall|i: int| 0 <= i < class_run(s, class) implies in_class(
            class,
            #[trigger] s[i],
        ) by {
            if i > 0 {
                assert(s[i] == s.drop_first()[i - 1]);
            }
        }
    }
}

/// A token is never empty, holds no whitespace, and fits in what is left.
pub proof fn lemma_token_len(t: Seq<char>)
    requires
        t.len() > 0,
        !is_ascii_ws(t[0]),
    ensures
        1 <= token_len(t) <= t.len(),
        forall|i: int| 0 <= i < token_len(t) ==> !is_ascii_ws(#[trigger] t[i]),
{
    lemma_class_run(t, CharClass::Word);
    lemma_class_run(t, CharClass::Number);
    if alphabetic(t[0]) {
        assert(in_class(CharClass::Word, t[0]));
        assert(class_run(t, CharClass::Word) >= 1);
    } else if is_ascii_digit(t[0]) {
        assert(in_class(CharClass::Number, t[0]));
    }
}

#[via_fn]
proof fn tokens_of_decreases(s: Seq<char>) {
    lemma_lex_step(s);
}

/// What `lex_step` takes and leaves: whitespace, then a token, then the rest.
pub proof fn lemma_lex_step(s: Seq<char>)
    ensures
        match lex_step(s) {
            None => non_ws_chars(s).len() == 0,
            Some((tok, rest)) => {
                &&& tok.len() > 0
                &&& rest.len() < s.len()
                &&& s == s.take(ws_prefix_len(s) as int) + tok + rest
                &&& forall|i: int| 0 <= i < ws_prefix_len(s) ==> is_ascii_ws(#[trigger] s[i])
                &&& forall|i: int| 0 <= i < tok.len() ==> !is_ascii_ws(#[trigger] tok[i])
            },
        },
{
    lemma_ws_prefix_len(s);
    let k = ws_prefix_len(s) as int;
    let t = s.skip(k);
    if t.len() > 0 {
        assert(t[0] == s[k]);
        lemma_token_len(t);
        let n = token_len(t) as int;
        assert(s =~= s.take(k) + t.take(n) + t.skip(n));
    } else {
        assert(s =~= s.take(k));
        lemma_all_ws_filter(s);
    }
}

proof fn lemma_all_ws_filter(s: Seq<char>)
    requires
        forall|i: int| 0 <= i < s.len() ==> is_ascii_ws(#[trigger] s[i]),
    ensures
        non_ws_chars(s).len() == 0,
    decreases s.len(),
{
    reveal(Seq::filter);
    if s.len() > 0 {
        lemma_all_ws_filter(s.drop_last());
    }
}

proof fn lemma_no_ws_filter(s: Seq<char>)
    requires
        forall|i: int| 0 <= i < s.len() ==> !is_ascii_ws(#[trigger] s[i]),
    ensures
        non_ws_chars(s) == s,
    decreases s.len(),
{
    reveal(Seq::filter);
    if s.len() > 0 {
        lemma_no_ws_filter(s.drop_last());
        assert(s.drop_last().push(s.last()) =~= s);
    } else {
        assert(non_ws_chars(s) =~= s);
    }
}

/// The tokens, joined, give back exactly the characters of the input that are
/// not whitespace: the tokenizer loses and repeats nothing.
pub proof fn lemma_tokens_rebuild_text(s: Seq<char>)
    ensures
        tokens_of(s).flatten() == non_ws_chars(s),
    decreases s.len(),
{
    lemma_lex_step(s);
    match lex_step(s) {
        None => {
            assert(non_ws_chars(s) =~= seq![]);
        },
        Some((tok, rest)) => {
            let w = s.take(ws_prefix_len(s) as int);
            lemma_tokens_rebuild_text(rest);
            let f = |c: char| !is_ascii_ws(c);
            Seq::filter_distributes_over_add(w + tok, rest, f);
            Seq::filter_distributes_over_add(w, tok, f);
            assert forall|i: int| 0 <= i < w.len() implies is_ascii_ws(#[trigger] w[i]) by {
                assert(w[i] == s[i]);
            }
            lemma_all_ws_filter(w);
            lemma_no_ws_filter(tok);
            let ts = seq![tok] + tokens_of(rest);
            assert(ts.drop_first() =~= tokens_of(rest));
            assert(non_ws_chars(w) =~= seq![]);
            assert(non_ws_chars(s) =~= tok + non_ws_chars(rest));
        },
    }
}

/// A tokenizer over a borrowed sequence of characters; each token is a slice of
/// that sequence.
pub struct Lexer<'a> {
    content: &'a [char],
}

impl<'a> View for Lexer<'a> {
    type V = Seq<char>;

    /// The characters not yet consumed.
    closed spec fn view(&self) -> Seq<char> {
        self.content@
    }
}

impl<'a> Lexer<'a> {
    pub fn new(content: &'a [char]) -> (r: Self)
        ensures
            r@ == content@,
    {
        Lexer { content }
    }

    fn trim_left(&mut self)
        ensures
            final(self)@ == old(self)@.skip(ws_prefix_len(old(self)@) as int),
    {
        proof {
            lemma_ws_prefix_len(self@);
        }
        while self.content.len() > 0 && ascii_whitespace(self.content[0])
            invariant
                old(self)@.skip(ws_prefix_len(old(self)@) as int) == self@.skip(
                    ws_prefix_len(self@) as int,
                ),
            decreases self.content@.len(),
        {
            let ghost before = self@;
            self.content = slice_subrange(self.content, 1, self.content.len());
            proof {
                assert(self@ =~= before.drop_first());
                assert(is_ascii_ws(before[0]));
                assert(ws_prefix_len(before) == 1 + ws_prefix_len(self@));
                lemma_ws_prefix_len(self@);
                assert(before.skip(ws_prefix_len(before) as int) =~= self@.skip(
                    ws_prefix_len(self@) as int,
                ));
            }
        }
    }

    fn chop_while(&mut self, class: CharClass) -> (r: &'a [char])
        ensures
            r@ == old(self)@.take(class_run(old(self)@, class) as int),
            final(self)@ == old(self)@.skip(class_run(old(self)@, class) as int),
    {
        let mut n: usize = 0;
        while n < self.content.len() && Self::classify(class, self.content[n])
            invariant
                n <= self@.len(),
                forall|i: int| 0 <= i < n ==> in_class(class, #[trigger] self@[i]),
            decreases self@.len() - n,
        {
            n += 1;
        }
        proof {
            lemma_class_run_exact(self@, class, n as int);
        }
        self.chop(n)
    }

    fn classify(class: CharClass, c: char) -> (r: bool)
        ensures
            r == in_class(class, c),
    {
        match class {
            CharClass::Word => unicode_alphabetic(c) || unicode_numeric(c) || c == '\\',
            CharClass::Number => unicode_numeric(c),
        }
    }

    fn chop(&mut self, n: usize) -> (r: &'a [char])
        requires
            n <= old(self)@.len(),
        ensures
            r@ == old(self)@.take(n as int),
            final(self)@ == old(self)@.skip(n as int),
    {
        let token = slice_subrange(self.content, 0, n);
        self.content = slice_subrange(self.content, n, self.content.len());
        token
    }

    /// The next token, or `None` once only whitespace is left.
    pub fn next_token(&mut self) -> (r: Option<&'a [char]>)
        ensures
            match lex_step(old(self)@) {
                None => r is None && final(self)@.len() == 0,
                Some((tok, rest)) => r is Some && r->0@ == tok && final(self)@ == rest,
            },
    {
        self.trim_left();
        proof {
            lemma_ws_prefix_len(old(self)@);
            lemma_lex_step(old(self)@);
        }
        if self.content.len() == 0 {
            return None;
        }
        if unicode_alphabetic(self.content[0]) {
            return Some(self.chop_while(CharClass::Word));
        }
        if ascii_digit(self.content[0]) {
            return Some(self.chop_while(CharClass::Number));
        }
        Some(self.chop(1))
    }
}

proof fn lemma_class_run_exact(s: Seq<char>, class: CharClass, n: int)
    requires
        0 <= n <= s.len(),
        forall|i: int| 0 <= i < n ==> in_class(class, #[trigger] s[i]),
        n == s.len() || !in_class(class, s[n]),
    ensures
        class_run(s, class) == n,
    decreases n,
{
    if n > 0 {
        assert(in_class(class, s[0]));
        assert forall|i: int| 0 <= i < n - 1 implies in_class(class, #[trigger] s.drop_first()[i]) by {
            assert(s.drop_first()[i] == s[i + 1]);
        }
        if n < s.len() {
            assert(s.drop_first()[n - 1] == s[n]);
        }
        lemma_class_run_exact(s.drop_first(), class, n - 1);
    } else if s.len() > 0 {
        assert(!in_class(class, s[0]));
    }
}

/// Four characters read as a hexadecimal byte; only ASCII hexadecimal digits
/// count.
pub open spec fn hex_chars_byte(cs: Seq<char>) -> Option<u8> {
    if cs.len() == 4 && forall|k: int| 0 <= k < 4 ==> (#[trigger] cs[k] as u32) < 128 {
        hex_byte(low_bytes(cs))
    } else {
        None
    }
}

/// The bytes of the run of `\uXXXX` escapes at the start of `s`, and how many
/// characters the run takes; `None` where an escape in it is not hexadecimal
/// or exceeds a byte.
pub open spec fn escape_run(s: Seq<char>) -> Option<(Seq<u8>, int)>
    decreases s.len(),
{
    if s.len() > 5 && s[0] == '\\' && s[1] == 'u' {
        match hex_chars_byte(s.subrange(2, 6)) {
            None => None,
            Some(b) => match escape_run(s.skip(6)) {
                None => None,
                Some((bs, n)) => Some((seq![b] + bs, n + 6)),
            },
        }
    } else {
        Some((seq![], 0))
    }
}

/// The first character of `s` once escapes are decoded, and what follows it:
/// a run of `\uXXXX` escapes is read as bytes and decoded as UTF-8, and only
/// its first character is kept. `None` where `s` is empty or the run does not
/// decode.
pub open spec fn sanitize_spec(s: Seq<char>) -> Option<(char, Seq<char>)> {
    if s.len() == 0 {
        None
    } else if s.len() <= 5 || !(s[0] == '\\' && s[1] == 'u') {
        Some((s[0], s.skip(1)))
    } else {
        match escape_run(s) {
            None => None,
            Some((bs, n)) => match utf8_decode(bs) {
                Some(cs) => if cs.len() > 0 {
                    Some((cs[0], s.skip(n)))
                } else {
                    None
                },
                None => None,
            },
        }
    }
}

/// A token with its escapes decoded; where a run of escapes does not decode,
/// its first character is kept as it is.
pub open spec fn decoded(s: Seq<char>) -> Seq<char>
    decreases s.len(),
{
    if s.len() == 0 {
        seq![]
    } else {
        match sanitize_spec(s) {
            Some((c, rest)) => if rest.len() < s.len() {
                seq![c] + decoded(rest)
            } else {
                seq![]
            },
            None => seq![s[0]] + decoded(s.skip(1)),
        }
    }
}

proof fn lemma_escape_run(s: Seq<char>)
    ensures
        escape_run(s) matches Some((bs, n)) ==> 0 <= n <= s.len() && (s.len() > 5 && s[0] == '\\'
            && s[1] == 'u' ==> n >= 6),
    decreases s.len(),
{
    if s.len() > 5 && s[0] == '\\' && s[1] == 'u' {
        lemma_escape_run(s.skip(6));
    }
}

fn hex_chars(cs: &[char]) -> (r: Option<u8>)
    requires
        cs@.len() == 4,
    ensures
        r == hex_chars_byte(cs@),
{
    let mut bytes: Vec<u8> = Vec::new();
    let mut k: usize = 0;
    while k < 4
        invariant
            cs@.len() == 4,
            k <= 4,
            forall|m: int| 0 <= m < k ==> (#[trigger] cs@[m] as u32) < 128,
            bytes@ == low_bytes(cs@.take(k as int)),
        decreases 4 - k,
    {
        let c = cs[k] as u32;
        if c >= 128 {
            return None;
        }
        bytes.push(#[verifier::truncate] (c as u8));
        k += 1;
        assert(bytes@ =~= low_bytes(cs@.take(k as int)));
    }
    assert(cs@.take(4) =~= cs@);
    let mut v: u32 = 0;
    let mut m: usize = 0;
    proof {
        reveal_with_fuel(pow16, 5);
    }
    while m < 4
        invariant
            bytes@ == low_bytes(cs@),
            bytes@.len() == 4,
            m <= 4,
            forall|q: int| 0 <= q < m ==> hex_digit(bytes@[q]) is Some,
            v == hex_partial(bytes@, m as int),
            v < pow16(m as int),
            pow16(m as int) <= 65536,
        decreases 4 - m,
    {
        match crate::parse::hex_digit_value(bytes[m]) {
            None => {
                proof {
                    let q = low_bytes(cs@);
                    assert(q[m as int] == bytes@[m as int]);
                }
                return None;
            },
            Some(d) => {
                proof {
                    reveal_with_fuel(pow16, 5);
                    assert(pow16(m + 1) == pow16(m as int) * 16);
                    assert(m < 4);
                    assert(pow16(m + 1) <= 65536);
                    assert(v * 16 + d < pow16(m + 1)) by (nonlinear_arith)
                        requires v < pow16(m as int), d < 16, pow16(m + 1) == pow16(m as int) * 16;
                }
                v = v * 16 + d;
                m += 1;
            },
        }
    }
    proof {
        let b = bytes@;
        reveal_with_fuel(hex_partial, 5);
        let h0 = hex_digit(b[0])->0;
        let h1 = hex_digit(b[1])->0;
        let h2 = hex_digit(b[2])->0;
        let h3 = hex_digit(b[3])->0;
        assert(hex_partial(b, 4) == ((h0 * 16 + h1) * 16 + h2) * 16 + h3);
        assert(((h0 * 16 + h1) * 16 + h2) * 16 + h3 == h0 * 4096 + h1 * 256 + h2 * 16 + h3) by (nonlinear_arith);
    }
    if v > 255 {
        return None;
    }
    Some(v as u8)
}

/// The value of the first `m` of four hexadecimal digits.
pub open spec fn hex_partial(b: Seq<u8>, m: int) -> nat
    decreases m,
{
    if m <= 0 {
        0
    } else {
        hex_partial(b, m - 1) * 16 + match hex_digit(b[m - 1]) {
            Some(d) => d,
            None => 0,
        }
    }
}

pub open spec fn pow16(m: int) -> nat
    decreases m,
{
    if m <= 0 {
        1
    } else {
        pow16(m - 1) * 16
    }
}

impl<'a> Lexer<'a> {
    /// The next token with its escapes decoded, or `None` once only
    /// whitespace is left.
    pub fn next_decoded_token(&mut self) -> (r: Option<Vec<char>>)
        ensures
            match lex_step(old(self)@) {
                None => r is None && final(self)@.len() == 0,
                Some((tok, rest)) => r is Some && r->0@ == decoded(tok) && final(self)@ == rest,
            },
    {
        match self.next_token() {
            None => None,
            Some(t) => Some(decode_escapes(t)),
        }
    }

    /// The first character of `content` with escapes decoded, and the rest.
    fn sanitize_token(content: &[char]) -> (r: Option<(char, &[char])>)
        ensures
            match sanitize_spec(content@) {
                None => r is None,
                Some((c, rest)) => r is Some && (r->0).0 == c && (r->0).1@ == rest,
            },
    {
        let len = content.len();
        if len == 0 {
            return None;
        }
        if len <= 5 || !(content[0] == '\\' && content[1] == 'u') {
            return Some((content[0], slice_subrange(content, 1, len)));
        }
        let mut bytes: Vec<u8> = Vec::new();
        let mut rest = content;
        let ghost mut used: int = 0;
        while rest.len() > 5 && rest[0] == '\\' && rest[1] == 'u'
            invariant
                0 <= used <= content@.len(),
                rest@ == content@.skip(used),
                escape_run(content@) == match escape_run(rest@) {
                    None => None,
                    Some((bs, n)) => Some((bytes@ + bs, used + n)),
                },
            decreases rest@.len(),
        {
            let b = match hex_chars(slice_subrange(rest, 2, 6)) {
                None => {
                    return None;
                },
                Some(b) => b,
            };
            let ghost r0 = rest@;
            let ghost b0 = bytes@;
            bytes.push(b);
            rest = slice_subrange(rest, 6, rest.len());
            proof {
                assert(rest@ =~= r0.skip(6));
                assert(content@.skip(used + 6) =~= r0.skip(6));
                used = used + 6;
                match escape_run(rest@) {
                    None => {},
                    Some((bs, n)) => {
                        assert(b0 + (seq![b] + bs) =~= bytes@ + bs);
                    },
                }
            }
        }
        proof {
            assert(bytes@ + seq![] =~= bytes@);
        }
        match decode_utf8(bytes) {
            None => None,
            Some(v) => {
                if v.len() == 0 {
                    None
                } else {
                    Some((v[0], rest))
                }
            },
        }
    }
}

/// `token` with its `\uXXXX` escape runs decoded; a run that does not decode
/// leaves its first character as it is.
pub fn decode_escapes(token: &[char]) -> (r: Vec<char>)
    ensures
        r@ == decoded(token@),
{
    let mut out: Vec<char> = Vec::new();
    let mut rest = token;
    while rest.len() > 0
        invariant
            decoded(token@) == out@ + decoded(rest@),
        decreases rest@.len(),
    {
        let ghost r0 = rest@;
        let ghost o0 = out@;
        proof {
            lemma_escape_run(r0);
        }
        match Lexer::sanitize_token(rest) {
            Some((c, co)) => {
                out.push(c);
                rest = co;
                proof {
                    assert(o0.push(c) + decoded(rest@) =~= o0 + (seq![c] + decoded(rest@)));
                }
            },
            None => {
                out.push(rest[0]);
                rest = slice_subrange(rest, 1, rest.len());
                proof {
                    assert(o0.push(r0[0]) + decoded(rest@) =~= o0 + (seq![r0[0]] + decoded(rest@)));
                }
            },
        }
    }
    proof {
        assert(out@ + seq![] =~= out@);
    }
    out
}

} // verus!
