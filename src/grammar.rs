//! The JSON text grammar and what each accepted text denotes, as spec
//! functions over the characters of the input and a position in them.
use vstd::prelude::*;
use crate::value::{JValue, Number, obj_put};
use crate::number::{ndigits, pow10, MAX_LEAD, MIN_LEAD};

verus! {

/// Where a parse failed: the input ran out; the character at a position was
/// malformed (a syntax error); or a separator or key was expected there and
/// another character stood in its place.
pub enum Fail {
    Eof,
    At(int),
    Expected(int),
}

/// The outcome of reading one item: the item and the position after it.
pub type Step<T> = Result<(T, int), Fail>;

/// Nesting deeper than this is rejected.
pub const MAX_DEPTH: usize = 512;

/// Exponents are counted up to this bound; any larger one decides the same
/// outcome.
pub const EXP_CAP: i128 = 0x4_0000_0000_0000_0000;

pub open spec fn is_ws(c: char) -> bool {
    c == ' ' || c == '\t' || c == '\n' || c == '\r'
}

pub open spec fn is_digit(c: char) -> bool {
    '0' <= c && c <= '9'
}

pub open spec fn digit_of(c: char) -> nat {
    (c as u32 - 48) as nat
}

/// The position of the first non-whitespace character at or after `p`.
pub open spec fn skip_ws(s: Seq<char>, p: int) -> int
    decreases s.len() - p,
{
    if 0 <= p < s.len() && is_ws(s[p]) {
        skip_ws(s, p + 1)
    } else {
        p
    }
}

/// The end of the run of digits starting at `p`.
pub open spec fn digits_end(s: Seq<char>, p: int) -> int
    decreases s.len() - p,
{
    if 0 <= p < s.len() && is_digit(s[p]) {
        digits_end(s, p + 1)
    } else {
        p
    }
}

/// The text `w` stands at position `p`.
pub open spec fn lit_at(s: Seq<char>, p: int, w: Seq<char>) -> bool {
    0 <= p && p + w.len() <= s.len() && s.subrange(p, p + w.len()) == w
}

/// The value of a hexadecimal digit.
pub open spec fn hex_val(c: char) -> Option<nat> {
    if '0' <= c && c <= '9' {
        Some((c as u32 - 48) as nat)
    } else if 'a' <= c && c <= 'f' {
        Some((c as u32 - 87) as nat)
    } else if 'A' <= c && c <= 'F' {
        Some((c as u32 - 55) as nat)
    } else {
        None
    }
}

/// The four hexadecimal digits of a `\u` escape starting at `p`, read from
/// position `p + i` on with `acc` read so far.
pub open spec fn hex4(s: Seq<char>, p: int, i: int, acc: nat) -> Result<nat, Fail>
    decreases 4 - i,
{
    if i >= 4 {
        Ok(acc)
    } else if p + i >= s.len() {
        Err(Fail::Eof)
    } else {
        match hex_val(s[p + i]) {
            Some(d) => hex4(s, p, i + 1, acc * 16 + d),
            None => Err(Fail::At(p + i)),
        }
    }
}

pub proof fn lemma_hex4(s: Seq<char>, p: int, i: int, acc: nat)
    requires
        0 <= i <= 4,
        hex4(s, p, i, acc) is Ok,
    ensures
        i < 4 ==> p + 3 < s.len(),
    decreases 4 - i,
{
    if i < 4 {
        if p + i < s.len() && hex_val(s[p + i]) is Some {
            lemma_hex4(s, p, i + 1, acc * 16 + hex_val(s[p + i])->0);
        }
    }
}

pub proof fn lemma_skip_ws(s: Seq<char>, p: int)
    ensures
        skip_ws(s, p) >= p,
        p <= s.len() ==> skip_ws(s, p) <= s.len(),
        0 <= p ==> skip_ws(s, p) >= 0,
    decreases s.len() - p,
{
    if 0 <= p < s.len() && is_ws(s[p]) {
        lemma_skip_ws(s, p + 1);
    }
}

/// A code point that is a character (not a surrogate).
pub open spec fn is_scalar(c: nat) -> bool {
    c < 0xD800 || (0xE000 <= c && c <= 0x10FFFF)
}

/// The character an escape letter stands for, except `u`.
pub open spec fn simple_escape(e: char) -> Option<char> {
    if e == '"' || e == '\\' || e == '/' {
        Some(e)
    } else if e == 'n' {
        Some('\n')
    } else if e == 'r' {
        Some('\r')
    } else if e == 't' {
        Some('\t')
    } else if e == 'b' {
        Some('\u{8}')
    } else if e == 'f' {
        Some('\u{c}')
    } else {
        None
    }
}

/// The rest of a string literal from `p`, `acc` being the text read so far.
pub open spec fn str_body(s: Seq<char>, p: int, acc: Seq<char>) -> Step<Seq<char>>
    decreases s.len() - p,
{
    if p < 0 || p >= s.len() {
        Err(Fail::Eof)
    } else if s[p] == '"' {
        Ok((acc, p + 1))
    } else if s[p] == '\\' {
        if p + 1 >= s.len() {
            Err(Fail::Eof)
        } else if s[p + 1] == 'u' {
            match hex4(s, p + 2, 0, 0) {
                Ok(c) => if is_scalar(c) {
                    proof {
                        lemma_hex4(s, p + 2, 0, 0);
                    }
                    str_body(s, p + 6, acc.push((c as u32) as char))
                } else {
                    Err(Fail::At(p + 5))
                },
                Err(f) => Err(f),
            }
        } else {
            match simple_escape(s[p + 1]) {
                Some(c) => str_body(s, p + 2, acc.push(c)),
                None => Err(Fail::At(p + 1)),
            }
        }
    } else {
        str_body(s, p + 1, acc.push(s[p]))
    }
}

/// A string literal whose opening quote is at `p`.
pub open spec fn string_at(s: Seq<char>, p: int) -> Step<Seq<char>> {
    str_body(s, p + 1, Seq::empty())
}

/// The significant digits read so far: the digits read have the value
/// `m * 10^z` with `m` ending in a nonzero digit; once `m` fills a `u64`
/// (`ovf`), each further digit is dropped and counted in `z`, so the value is
/// rounded toward zero.
pub struct Acc {
    pub m: nat,
    pub z: nat,
    pub ovf: bool,
}

pub open spec fn acc_step(a: Acc, d: nat) -> Acc {
    if a.ovf || d == 0 {
        Acc { z: a.z + 1, ..a }
    } else {
        let m2 = a.m * pow10(a.z + 1) + d;
        if m2 > u64::MAX {
            Acc { z: a.z + 1, ovf: true, ..a }
        } else {
            Acc { m: m2, z: 0, ovf: false }
        }
    }
}

/// Reads the digits at positions `[i, end)`.
pub open spec fn acc_digits(s: Seq<char>, i: int, end: int, a: Acc) -> Acc
    decreases end - i,
{
    if i >= end {
        a
    } else {
        acc_digits(s, i + 1, end, acc_step(a, digit_of(s[i])))
    }
}

/// The exponent digits at positions `[i, end)`, counted up to the cap.
pub open spec fn exp_digits(s: Seq<char>, i: int, end: int, e: int) -> int
    decreases end - i,
{
    if i >= end {
        e
    } else {
        let n = e * 10 + digit_of(s[i]);
        exp_digits(s, i + 1, end, if n > EXP_CAP { EXP_CAP as int } else { n })
    }
}

/// The positions that delimit the parts of a numeral.
pub struct NumShape {
    pub neg: bool,
    pub int_start: int,
    pub int_end: int,
    pub frac_start: int,
    pub frac_end: int,
    pub exp_neg: bool,
    pub exp_start: int,
    pub exp_end: int,
}

/// The numeral grammar from `p`: an optional `-`, a single `0` or digits
/// not starting with `0`, an optional `.` and digits, an optional exponent.
pub open spec fn num_shape(s: Seq<char>, p: int) -> Result<NumShape, Fail> {
    let neg = p < s.len() && s[p] == '-';
    let q = if neg { p + 1 } else { p };
    let q1 = if q < s.len() && s[q] == '0' { q + 1 } else { digits_end(s, q) };
    if q1 == q {
        if q >= s.len() { Err(Fail::Eof) } else { Err(Fail::At(q)) }
    } else {
        let has_frac = q1 < s.len() && s[q1] == '.';
        let f1 = if has_frac { digits_end(s, q1 + 1) } else { q1 };
        if has_frac && f1 == q1 + 1 {
            if f1 >= s.len() { Err(Fail::Eof) } else { Err(Fail::At(f1)) }
        } else {
            let has_exp = f1 < s.len() && (s[f1] == 'e' || s[f1] == 'E');
            let sg = has_exp && f1 + 1 < s.len() && (s[f1 + 1] == '+' || s[f1 + 1] == '-');
            let es = if !has_exp { f1 } else if sg { f1 + 2 } else { f1 + 1 };
            let ee = if has_exp { digits_end(s, es) } else { f1 };
            if has_exp && ee == es {
                if es >= s.len() { Err(Fail::Eof) } else { Err(Fail::At(es)) }
            } else {
                Ok(NumShape {
                    neg,
                    int_start: q,
                    int_end: q1,
                    frac_start: if has_frac { q1 + 1 } else { q1 },
                    frac_end: f1,
                    exp_neg: sg && s[f1 + 1] == '-',
                    exp_start: es,
                    exp_end: ee,
                })
            }
        }
    }
}

/// The number that a numeral denotes: `None` when it is beyond the finite
/// range. Digits past the first ones that fit a `u64` are dropped; values too
/// small for a double are zero.
pub open spec fn num_value(s: Seq<char>, sh: NumShape) -> Option<Number> {
    let a0 = Acc { m: 0, z: 0, ovf: false };
    let a1 = acc_digits(s, sh.int_start, sh.int_end, a0);
    let a = acc_digits(s, sh.frac_start, sh.frac_end, a1);
    let e0 = exp_digits(s, sh.exp_start, sh.exp_end, 0);
    let e = if sh.exp_neg { -e0 } else { e0 };
    let scale = e - (sh.frac_end - sh.frac_start) + a.z;
    let lead = scale + ndigits(a.m);
    if a.m == 0 || lead < MIN_LEAD {
        Some(Number { negative: false, magnitude: 0, exponent: 0 })
    } else if lead > MAX_LEAD {
        None
    } else {
        Some(Number { negative: sh.neg, magnitude: a.m as u64, exponent: scale as i32 })
    }
}

/// A number whose first character is at `p`.
pub open spec fn number_at(s: Seq<char>, p: int) -> Step<Number> {
    match num_shape(s, p) {
        Err(f) => Err(f),
        Ok(sh) => {
            let end = if sh.exp_start < sh.exp_end { sh.exp_end } else { sh.frac_end };
            match num_value(s, sh) {
                Some(n) => Ok((n, end)),
                None => Err(Fail::At(p)),
            }
        },
    }
}

/// A value starting at `p` (after whitespace), nested in `depth` levels
/// fewer than the limit allows.
pub open spec fn value_at(s: Seq<char>, p: int, depth: nat) -> Step<JValue>
    decreases depth, s.len() - p, 2nat,
{
    if p < 0 || p >= s.len() {
        Err(Fail::Eof)
    } else {
        let c = s[p];
        if c == 'n' {
            if lit_at(s, p, seq!['n', 'u', 'l', 'l']) { Ok((JValue::Null, p + 4)) } else { Err(Fail::At(p)) }
        } else if c == 't' {
            if lit_at(s, p, seq!['t', 'r', 'u', 'e']) { Ok((JValue::Bool(true), p + 4)) } else { Err(Fail::At(p)) }
        } else if c == 'f' {
            if lit_at(s, p, seq!['f', 'a', 'l', 's', 'e']) { Ok((JValue::Bool(false), p + 5)) } else { Err(Fail::At(p)) }
        } else if c == '"' {
            match string_at(s, p) {
                Ok((t, q)) => Ok((JValue::Str(t), q)),
                Err(f) => Err(f),
            }
        } else if c == '-' || is_digit(c) {
            match number_at(s, p) {
                Ok((n, q)) => Ok((JValue::Number(n), q)),
                Err(f) => Err(f),
            }
        } else if c == '[' {
            if depth == 0 {
                Err(Fail::At(p))
            } else {
                let q = skip_ws(s, p + 1);
                proof {
                    lemma_skip_ws(s, p + 1);
                }
                if q < s.len() && s[q] == ']' {
                    Ok((JValue::Array(Seq::empty()), q + 1))
                } else {
                    match items_from(s, q, Seq::empty(), (depth - 1) as nat) {
                        Ok((a, r)) => Ok((JValue::Array(a), r)),
                        Err(f) => Err(f),
                    }
                }
            }
        } else if c == '{' {
            if depth == 0 {
                Err(Fail::At(p))
            } else {
                let q = skip_ws(s, p + 1);
                proof {
                    lemma_skip_ws(s, p + 1);
                }
                if q < s.len() && s[q] == '}' {
                    Ok((JValue::Object(Seq::empty()), q + 1))
                } else {
                    match members_from(s, q, Seq::empty(), (depth - 1) as nat) {
                        Ok((e, r)) => Ok((JValue::Object(e), r)),
                        Err(f) => Err(f),
                    }
                }
            }
        } else {
            Err(Fail::At(p))
        }
    }
}

/// Array elements from `p`: an element, then `,` and more, or `]`.
pub open spec fn items_from(s: Seq<char>, p: int, acc: Seq<JValue>, cd: nat) -> Step<Seq<JValue>>
    decreases cd + 1, s.len() - p, 0nat,
{
    match value_at(s, p, cd) {
        Err(f) => Err(f),
        Ok((v, q)) => {
            let acc2 = acc.push(v);
            let r = skip_ws(s, q);
            if r < 0 || r >= s.len() {
                Err(Fail::Eof)
            } else if s[r] == ']' {
                Ok((acc2, r + 1))
            } else if s[r] == ',' {
                let t = skip_ws(s, r + 1);
                proof {
                    lemma_skip_ws(s, r + 1);
                }
                if t < s.len() && s[t] == ']' {
                    Err(Fail::At(t))
                } else if t <= p {
                    Err(Fail::At(t))
                } else {
                    items_from(s, t, acc2, cd)
                }
            } else {
                Err(Fail::Expected(r))
            }
        },
    }
}

/// Object members from `p`: `"key"`, `:`, a value, then `,` and more, or `}`.
/// A repeated key keeps the last value.
pub open spec fn members_from(
    s: Seq<char>,
    p: int,
    acc: Seq<(Seq<char>, JValue)>,
    cd: nat,
) -> Step<Seq<(Seq<char>, JValue)>>
    decreases cd + 1, s.len() - p, 0nat,
{
    if p < 0 || p >= s.len() {
        Err(Fail::Eof)
    } else if s[p] != '"' {
        Err(Fail::Expected(p))
    } else {
        match string_at(s, p) {
            Err(f) => Err(f),
            Ok((k, q)) => {
                let c = skip_ws(s, q);
                if c < 0 || c >= s.len() {
                    Err(Fail::Eof)
                } else if s[c] != ':' {
                    Err(Fail::Expected(c))
                } else {
                    match value_at(s, skip_ws(s, c + 1), cd) {
                        Err(f) => Err(f),
                        Ok((v, q2)) => {
                            let acc2 = obj_put(acc, k, v);
                            let r = skip_ws(s, q2);
                            if r < 0 || r >= s.len() {
                                Err(Fail::Eof)
                            } else if s[r] == '}' {
                                Ok((acc2, r + 1))
                            } else if s[r] == ',' {
                                let t = skip_ws(s, r + 1);
                                proof {
                                    lemma_skip_ws(s, r + 1);
                                }
                                if t < s.len() && s[t] == '}' {
                                    Err(Fail::At(t))
                                } else if t <= p {
                                    Err(Fail::At(t))
                                } else {
                                    members_from(s, t, acc2, cd)
                                }
                            } else {
                                Err(Fail::Expected(r))
                            }
                        },
                    }
                }
            },
        }
    }
}

/// A whole text: one value, with only whitespace around it.
pub open spec fn parse_text(s: Seq<char>) -> Result<JValue, Fail> {
    match value_at(s, skip_ws(s, 0), MAX_DEPTH as nat) {
        Err(f) => Err(f),
        Ok((v, q)) => {
            let r = skip_ws(s, q);
            if r < s.len() {
                Err(Fail::At(r))
            } else {
                Ok(v)
            }
        },
    }
}


proof fn lemma_skip_ws_stops(s: Seq<char>, q: int, r: int)
    requires
        0 <= q <= r < s.len(),
        !is_ws(s[r]),
    ensures
        skip_ws(s, q) <= r,
    decreases r - q,
{
    if q < r && is_ws(s[q]) {
        lemma_skip_ws_stops(s, q + 1, r);
    }
}

/// A text with a character other than whitespace after its value is
/// rejected.
pub proof fn lemma_trailing_rejected(s: Seq<char>, v: JValue, q: int, r: int)
    requires
        value_at(s, skip_ws(s, 0), MAX_DEPTH as nat) == Ok::<(JValue, int), Fail>((v, q)),
        0 <= q <= r < s.len(),
        !is_ws(s[r]),
    ensures
        parse_text(s) is Err,
{
    lemma_skip_ws_stops(s, q, r);
}


/// A text whose value is followed by whitespace and then another character
/// is rejected with a syntax error at that character.
pub proof fn lemma_trailing_syntax_error(s: Seq<char>, v: JValue, q: int, r: int)
    requires
        value_at(s, skip_ws(s, 0), MAX_DEPTH as nat) == Ok::<(JValue, int), Fail>((v, q)),
        0 <= q <= r < s.len(),
        forall|j: int| q <= j < r ==> is_ws(#[trigger] s[j]),
        !is_ws(s[r]),
    ensures
        parse_text(s) == Err::<JValue, Fail>(Fail::At(r)),
{
    lemma_skip_ws_exact(s, q, r);
}

proof fn lemma_skip_ws_exact(s: Seq<char>, q: int, r: int)
    requires
        0 <= q <= r < s.len(),
        forall|j: int| q <= j < r ==> is_ws(#[trigger] s[j]),
        !is_ws(s[r]),
    ensures
        skip_ws(s, q) == r,
    decreases r - q,
{
    if q < r {
        assert(is_ws(s[q]));
        lemma_skip_ws_exact(s, q + 1, r);
    }
}

} // verus!
