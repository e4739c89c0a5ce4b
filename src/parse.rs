//! The single-pass parser, proved to read exactly what the grammar of
//! `grammar` describes, with the position of each failure.
use vstd::prelude::*;
use crate::error::Error;
use crate::value::{Value, JValue, Number, model, model_items, model_entries, lemma_model_items, lemma_model_entries, object_insert, entries_wf, obj_put};
use crate::number::{ndigits, pow10, lemma_pow10_succ, lemma_pow10_pos, lemma_ndigits_pos, MAX_LEAD, MIN_LEAD};
use crate::grammar::{Fail, Step, MAX_DEPTH, EXP_CAP, is_ws, is_digit, digit_of, skip_ws, digits_end, lit_at, hex_val, hex4, is_scalar, simple_escape, str_body, string_at, Acc, acc_step, acc_digits, exp_digits, NumShape, num_shape, num_value, number_at, value_at, items_from, members_from, parse_text, lemma_skip_ws, lemma_hex4};
use crate::text::{chars_of, string_of};

verus! {

broadcast use vstd::std_specs::vec::group_vec_axioms, vstd::seq::group_seq_axioms;

/// The error `e` reports the failure `f`: `Eof` at the end of input, a
/// `Syntax` error or an `ExpectedFound` error at its position.
pub open spec fn err_agrees(e: Error, f: Fail) -> bool {
    match f {
        Fail::Eof => e is Eof,
        Fail::At(p) => e matches Error::Syntax { position, .. } && position == p,
        Fail::Expected(p) => e matches Error::ExpectedFound { position, .. } && position == p,
    }
}

/// Relies on `char::from_u32`: the character with code point `c`, when `c` is one.
#[verifier::external_body]
fn char_from_code(c: u32) -> (r: Option<char>)
    ensures
        r == if is_scalar(c as nat) { Some(c as char) } else { None::<char> },
{
    char::from_u32(c)
}

/// A cursor over the characters of a text.
pub struct Parser {
    pub chars: Vec<char>,
    pub pos: usize,
}

impl Parser {
    pub fn new(input: &str) -> (r: Parser)
        ensures
            r.chars@ == input@,
            r.pos == 0,
    {
        Parser { chars: chars_of(input), pos: 0 }
    }

    /// The character under the cursor.
    pub fn peek(&self) -> (r: Option<char>)
        ensures
            r == if self.pos < self.chars.len() { Some(self.chars@[self.pos as int]) } else { None::<char> },
    {
        if self.pos < self.chars.len() {
            Some(self.chars[self.pos])
        } else {
            None
        }
    }

    /// The character under the cursor, which then moves past it.
    pub fn next(&mut self) -> (r: Option<char>)
        ensures
            final(self).chars@ == old(self).chars@,
            r == if old(self).pos < old(self).chars.len() { Some(old(self).chars@[old(self).pos as int]) } else { None::<char> },
            final(self).pos == if old(self).pos < old(self).chars.len() { old(self).pos + 1 } else { old(self).pos as int },
    {
        if self.pos < self.chars.len() {
            let c = self.chars[self.pos];
            self.pos = self.pos + 1;
            Some(c)
        } else {
            None
        }
    }

    /// Moves past spaces, tabs, line feeds and carriage returns.
    pub fn skip_whitespace(&mut self)
        requires
            old(self).pos <= old(self).chars.len(),
        ensures
            final(self).chars@ == old(self).chars@,
            final(self).pos == skip_ws(old(self).chars@, old(self).pos as int),
            final(self).pos <= final(self).chars.len(),
    {
        let ghost s = self.chars@;
        let ghost p_start = self.pos as int;
        while self.pos < self.chars.len() && (self.chars[self.pos] == ' ' || self.chars[self.pos] == '\t'
            || self.chars[self.pos] == '\n' || self.chars[self.pos] == '\r')
            invariant
                self.chars@ == s,
                self.pos <= self.chars.len(),
                skip_ws(s, p_start) == skip_ws(s, self.pos as int),
            decreases self.chars.len() - self.pos,
        {
            self.pos = self.pos + 1;
        }
    }

    fn digits_end(&self, p: usize) -> (r: usize)
        requires
            p <= self.chars.len(),
        ensures
            r == digits_end(self.chars@, p as int),
            p <= r <= self.chars.len(),
    {
        let mut i = p;
        while i < self.chars.len() && '0' <= self.chars[i] && self.chars[i] <= '9'
            invariant
                p <= i <= self.chars.len(),
                digits_end(self.chars@, p as int) == digits_end(self.chars@, i as int),
            decreases self.chars.len() - i,
        {
            i += 1;
        }
        i
    }

    fn fail_at(&self, p: usize, msg: &str) -> (e: Error)
        ensures
            err_agrees(e, if p < self.chars.len() { Fail::At(p as int) } else { Fail::Eof }),
    {
        if p < self.chars.len() {
            Error::syntax(p, msg)
        } else {
            Error::Eof
        }
    }

    fn hex_digit(c: char) -> (r: Option<u32>)
        ensures
            r matches Some(d) ==> hex_val(c) == Some(d as nat) && d < 16,
            r is None ==> hex_val(c) is None,
    {
        if '0' <= c && c <= '9' {
            Some(c as u32 - 48)
        } else if 'a' <= c && c <= 'f' {
            Some(c as u32 - 87)
        } else if 'A' <= c && c <= 'F' {
            Some(c as u32 - 55)
        } else {
            None
        }
    }

    /// The four hexadecimal digits of a `\u` escape at `p`.
    fn read_hex4(&self, p: usize) -> (r: Result<u32, Error>)
        requires
            p <= self.chars.len(),
        ensures
            r matches Ok(c) ==> hex4(self.chars@, p as int, 0, 0) == Ok::<nat, Fail>(c as nat),
            r matches Err(e) ==> hex4(self.chars@, p as int, 0, 0) matches Err(f) && err_agrees(e, f),
    {
        let mut acc: u32 = 0;
        let mut i: usize = 0;
        while i < 4
            invariant
                i <= 4,
                p <= self.chars.len(),
                acc < pow10(0) * 65536,
                acc as nat <= if i == 0 { 0nat } else if i == 1 { 15nat } else if i == 2 { 255nat } else if i == 3 { 4095nat } else { 65535nat },
                hex4(self.chars@, p as int, 0, 0) == hex4(self.chars@, p as int, i as int, acc as nat),
            decreases 4 - i,
        {
            if self.chars.len() - p <= i {
                return Err(Error::Eof);
            }
            match Parser::hex_digit(self.chars[p + i]) {
                Some(d) => {
                    acc = acc * 16 + d;
                },
                None => {
                    return Err(Error::syntax(p + i, "invalid unicode escape"));
                },
            }
            i += 1;
        }
        Ok(acc)
    }

    fn escape_of(e: char) -> (r: Option<char>)
        ensures
            r == simple_escape(e),
    {
        if e == '"' || e == '\\' || e == '/' {
            Some(e)
        } else if e == 'n' {
            Some('\n')
        } else if e == 'r' {
            Some('\r')
        } else if e == 't' {
            Some('\t')
        } else if e == 'b' {
            Some('\u{8}')
        } else if e == 'f' {
            Some('\u{c}')
        } else {
            None
        }
    }

    /// Reads a string literal whose opening quote is under the cursor.
    fn parse_string(&mut self) -> (r: Result<String, Error>)
        requires
            old(self).pos < old(self).chars.len(),
            old(self).chars@[old(self).pos as int] == '"',
        ensures
            final(self).chars@ == old(self).chars@,
            final(self).pos <= final(self).chars.len(),
            r matches Ok(t) ==> string_at(old(self).chars@, old(self).pos as int) == Ok::<(Seq<char>, int), Fail>((t@, final(self).pos as int)),
            r matches Err(e) ==> string_at(old(self).chars@, old(self).pos as int) matches Err(f) && err_agrees(e, f),
            r is Ok ==> final(self).pos > old(self).pos,
    {
        let ghost s = self.chars@;
        let ghost p_start = self.pos as int;
        self.pos = self.pos + 1;
        let mut acc: Vec<char> = Vec::new();
        loop
            invariant
                self.chars@ == s,
                s == old(self).chars@,
                p_start == old(self).pos,
                p_start < self.pos <= self.chars.len(),
                string_at(s, p_start) == str_body(s, self.pos as int, acc@),
            decreases self.chars.len() - self.pos,
        {
            if self.pos >= self.chars.len() {
                return Err(Error::Eof);
            }
            let c = self.chars[self.pos];
            if c == '"' {
                self.pos = self.pos + 1;
                return Ok(string_of(&acc));
            } else if c == '\\' {
                if self.pos + 1 >= self.chars.len() {
                    return Err(Error::Eof);
                }
                let e = self.chars[self.pos + 1];
                if e == 'u' {
                    let code = match self.read_hex4(self.pos + 2) {
                        Ok(code) => code,
                        Err(err) => {
                            return Err(err);
                        },
                    };
                    proof {
                        lemma_hex4(s, self.pos + 2, 0, 0);
                    }
                    match char_from_code(code) {
                        Some(ch) => {
                            acc.push(ch);
                            self.pos = self.pos + 6;
                        },
                        None => {
                            return Err(Error::syntax(self.pos + 5, "invalid unicode code point"));
                        },
                    }
                } else {
                    match Parser::escape_of(e) {
                        Some(ch) => {
                            acc.push(ch);
                            self.pos = self.pos + 2;
                        },
                        None => {
                            return Err(Error::syntax(self.pos + 1, "invalid escape"));
                        },
                    }
                }
            } else {
                acc.push(c);
                self.pos = self.pos + 1;
            }
        }
    }

    /// One digit more of the significand (see `acc_step`).
    fn step_digit(m: u64, z: usize, ovf: bool, d: u64) -> (r: (u64, usize, bool))
        requires
            d < 10,
            z < usize::MAX,
            m == 0 || m % 10 != 0,
        ensures
            acc_step(Acc { m: m as nat, z: z as nat, ovf }, d as nat) == (Acc { m: r.0 as nat, z: r.1 as nat, ovf: r.2 }),
            r.0 == 0 || r.0 % 10 != 0,
            r.1 <= z + 1,
    {
        if ovf || d == 0 {
            return (m, z + 1, ovf);
        }
        if m == 0 {
            proof {
                assert(0 * pow10((z + 1) as nat) == 0);
            }
            return (d, 0, false);
        }
        let mut t: u64 = m;
        let mut k: usize = 0;
        let mut over = false;
        proof {
            assert(pow10(0) == 1);
            assert(t == m * pow10(0)) by (nonlinear_arith)
                requires
                    pow10(0) == 1,
                    t == m,
            {}
        }
        while k <= z && !over
            invariant
                k <= z + 1,
                z < usize::MAX,
                m > 0,
                !over ==> t == m * pow10(k as nat),
                !over && k > 0 ==> t % 10 == 0,
                over ==> m * pow10((z + 1) as nat) + d > u64::MAX,
            decreases z + 1 - k, if over { 0int } else { 1int },
        {
            if t > u64::MAX / 10 {
                proof {
                    crate::number::lemma_pow10_mono((k + 1) as nat, (z + 1) as nat);
                    lemma_pow10_succ(k as nat);
                    assert(m * pow10((z + 1) as nat) >= m * pow10((k + 1) as nat)) by (nonlinear_arith)
                        requires
                            pow10((k + 1) as nat) <= pow10((z + 1) as nat),
                            m > 0,
                    {}
                    assert(m * pow10((k + 1) as nat) == t * 10) by (nonlinear_arith)
                        requires
                            t == m * pow10(k as nat),
                            pow10((k + 1) as nat) == 10 * pow10(k as nat),
                    {}
                }
                over = true;
            } else {
                proof {
                    lemma_pow10_succ(k as nat);
                    assert(t * 10 == m * pow10((k + 1) as nat)) by (nonlinear_arith)
                        requires
                            t == m * pow10(k as nat),
                            pow10((k + 1) as nat) == 10 * pow10(k as nat),
                    {}
                }
                t = t * 10;
                k = k + 1;
            }
        }
        if over || t > u64::MAX - d {
            (m, z + 1, true)
        } else {
            proof {
                assert(k == z + 1);
                assert((t + d) % 10 == d % 10) by (nonlinear_arith)
                    requires
                        t % 10 == 0,
                {}
            }
            (t + d, 0, false)
        }
    }

    /// Reads the significant digits at positions `[from, to)`.
    fn acc_range(&self, from: usize, to: usize, m: u64, z: usize, ovf: bool) -> (r: (u64, usize, bool))
        requires
            from <= to <= self.chars.len(),
            z <= from,
            forall|j: int| from <= j < to ==> is_digit(#[trigger] self.chars@[j]),
            m == 0 || m % 10 != 0,
        ensures
            acc_digits(self.chars@, from as int, to as int, Acc { m: m as nat, z: z as nat, ovf }) == (Acc { m: r.0 as nat, z: r.1 as nat, ovf: r.2 }),
            r.0 == 0 || r.0 % 10 != 0,
            r.1 <= to,
    {
        let mut i = from;
        let mut a: (u64, usize, bool) = (m, z, ovf);
        while i < to
            invariant
                from <= i <= to,
                to <= self.chars.len(),
                a.1 <= i,
                forall|j: int| from <= j < to ==> is_digit(#[trigger] self.chars@[j]),
                a.0 == 0 || a.0 % 10 != 0,
                acc_digits(self.chars@, from as int, to as int, Acc { m: m as nat, z: z as nat, ovf }) == acc_digits(self.chars@, i as int, to as int, Acc { m: a.0 as nat, z: a.1 as nat, ovf: a.2 }),
            decreases to - i,
        {
            let d = self.chars[i] as u64 - 48;
            proof {
                assert(is_digit(self.chars@[i as int]));
                assert(digit_of(self.chars@[i as int]) == d);
            }
            a = Parser::step_digit(a.0, a.1, a.2, d);
            i += 1;
        }
        a
    }

    /// The exponent digits at positions `[from, to)`, counted up to the cap.
    fn exp_range(&self, from: usize, to: usize) -> (r: i128)
        requires
            from <= to <= self.chars.len(),
            forall|j: int| from <= j < to ==> is_digit(#[trigger] self.chars@[j]),
        ensures
            r == exp_digits(self.chars@, from as int, to as int, 0),
            0 <= r <= EXP_CAP,
    {
        let mut i = from;
        let mut e: i128 = 0;
        while i < to
            invariant
                from <= i <= to,
                to <= self.chars.len(),
                0 <= e <= EXP_CAP,
                forall|j: int| from <= j < to ==> is_digit(#[trigger] self.chars@[j]),
                exp_digits(self.chars@, from as int, to as int, 0) == exp_digits(self.chars@, i as int, to as int, e as int),
            decreases to - i,
        {
            proof {
                assert(is_digit(self.chars@[i as int]));
            }
            let d = self.chars[i] as i128 - 48;
            let n = e * 10 + d;
            e = if n > EXP_CAP { EXP_CAP } else { n };
            i += 1;
        }
        e
    }

    fn count_digits(m: u64) -> (r: i128)
        ensures
            r == ndigits(m as nat),
            r <= 20,
    {
        let mut k: i128 = 0;
        let mut x: u64 = m;
        proof {
            crate::number::lemma_ndigits_u64(m as nat);
        }
        while x > 0
            invariant
                ndigits(m as nat) == k + ndigits(x as nat),
                ndigits(m as nat) <= 20,
                0 <= k,
            decreases x,
        {
            proof {
                lemma_ndigits_pos(x as nat);
            }
            x = x / 10;
            k = k + 1;
        }
        k
    }

    /// The parts of the numeral at `p`.
    fn number_shape(&self, p: usize) -> (r: Result<NumParts, Error>)
        requires
            p < self.chars.len(),
        ensures
            r matches Ok(sh) ==> num_shape(self.chars@, p as int) == Ok::<NumShape, Fail>(sh.spec_shape()) && sh.valid(self.chars@),
            r matches Err(e) ==> num_shape(self.chars@, p as int) matches Err(f) && err_agrees(e, f),
    {
        let ghost s = self.chars@;
        let len = self.chars.len();
        let neg = self.chars[p] == '-';
        let q = if neg { p + 1 } else { p };
        let q1 = if q < len && self.chars[q] == '0' { q + 1 } else { self.digits_end(q) };
        if q1 == q {
            return Err(self.fail_at(q, "expected digit"));
        }
        let has_frac = q1 < len && self.chars[q1] == '.';
        let f1 = if has_frac { self.digits_end(q1 + 1) } else { q1 };
        if has_frac && f1 == q1 + 1 {
            return Err(self.fail_at(f1, "expected digit after decimal point"));
        }
        let has_exp = f1 < len && (self.chars[f1] == 'e' || self.chars[f1] == 'E');
        let sg = has_exp && f1 + 1 < len && (self.chars[f1 + 1] == '+' || self.chars[f1 + 1] == '-');
        let es = if !has_exp { f1 } else if sg { f1 + 2 } else { f1 + 1 };
        let ee = if has_exp { self.digits_end(es) } else { f1 };
        if has_exp && ee == es {
            return Err(self.fail_at(es, "expected digit in exponent"));
        }
        let frac_start = if has_frac { q1 + 1 } else { q1 };
        let exp_neg = sg && self.chars[f1 + 1] == '-';
        let sh = NumParts { neg, int_start: q, int_end: q1, frac_start, frac_end: f1, exp_neg, exp_start: es, exp_end: ee };
        proof {
            lemma_digits_run(s, q as int);
            lemma_digits_run(s, frac_start as int);
            lemma_digits_run(s, es as int);
        }
        Ok(sh)
    }

    /// The number that the numeral with parts `sh` denotes.
    fn number_value(&self, sh: &NumParts) -> (r: Option<Number>)
        requires
            sh.valid(self.chars@),
        ensures
            r == num_value(self.chars@, sh.spec_shape()),
            r matches Some(n) ==> n.wf(),
    {
        let a1 = self.acc_range(sh.int_start, sh.int_end, 0, 0, false);
        let a = self.acc_range(sh.frac_start, sh.frac_end, a1.0, a1.1, a1.2);
        let e0 = self.exp_range(sh.exp_start, sh.exp_end);
        let e: i128 = if sh.exp_neg { -e0 } else { e0 };
        let scale: i128 = e - (sh.frac_end - sh.frac_start) as i128 + a.1 as i128;
        let nd = Parser::count_digits(a.0);
        let lead: i128 = scale + nd;
        if a.0 == 0 || lead < MIN_LEAD as i128 {
            Some(Number::zero())
        } else if lead > MAX_LEAD as i128 {
            None
        } else {
            Some(Number { negative: sh.neg, magnitude: a.0, exponent: scale as i32 })
        }
    }

    /// Reads a number whose first character is under the cursor.
    fn parse_number(&mut self) -> (r: Result<Number, Error>)
        requires
            old(self).pos < old(self).chars.len(),
        ensures
            final(self).chars@ == old(self).chars@,
            final(self).pos <= final(self).chars.len(),
            r matches Ok(n) ==> number_at(old(self).chars@, old(self).pos as int) == Ok::<(Number, int), Fail>((n, final(self).pos as int)) && n.wf(),
            r matches Err(e) ==> number_at(old(self).chars@, old(self).pos as int) matches Err(f) && err_agrees(e, f),
            r is Ok ==> final(self).pos > old(self).pos,
    {
        let p = self.pos;
        let sh = match self.number_shape(p) {
            Ok(sh) => sh,
            Err(e) => {
                return Err(e);
            },
        };
        match self.number_value(&sh) {
            Some(n) => {
                self.pos = if sh.exp_start < sh.exp_end { sh.exp_end } else { sh.frac_end };
                Ok(n)
            },
            None => Err(Error::syntax(p, "number out of range")),
        }
    }

    /// The text `w` stands at position `p`.
    fn word_at(&self, p: usize, w: &str) -> (r: bool)
        requires
            p <= self.chars.len(),
        ensures
            r == lit_at(self.chars@, p as int, w@),
    {
        let c = chars_of(w);
        if c.len() > self.chars.len() - p {
            return false;
        }
        let mut i: usize = 0;
        while i < c.len()
            invariant
                c@ == w@,
                p + c.len() <= self.chars.len(),
                i <= c.len(),
                forall|j: int| 0 <= j < i ==> self.chars@[p + j] == c@[j],
            decreases c.len() - i,
        {
            if self.chars[p + i] != c[i] {
                proof {
                    assert(self.chars@.subrange(p as int, p + c.len())[i as int] != w@[i as int]);
                }
                return false;
            }
            i += 1;
        }
        proof {
            assert(self.chars@.subrange(p as int, p + c.len()) =~= w@);
        }
        true
    }

    fn char_text(c: char) -> (r: String)
        ensures
            r@ == seq![c],
    {
        let v: Vec<char> = vec![c];
        string_of(&v)
    }

    /// Reads a value that starts under the cursor, with at most `depth`
    /// levels of nesting.
    pub fn parse_value(&mut self, depth: usize) -> (r: Result<Value, Error>)
        requires
            old(self).pos <= old(self).chars.len(),
        ensures
            final(self).chars@ == old(self).chars@,
            final(self).pos <= final(self).chars.len(),
            r matches Ok(v) ==> value_at(old(self).chars@, old(self).pos as int, depth as nat) == Ok::<(JValue, int), Fail>((v@, final(self).pos as int)) && v@.wf(),
            r matches Err(e) ==> value_at(old(self).chars@, old(self).pos as int, depth as nat) matches Err(f) && err_agrees(e, f),
            r is Ok ==> final(self).pos > old(self).pos,
        decreases depth, 1nat,
    {
        let ghost s = self.chars@;
        let p = self.pos;
        if p >= self.chars.len() {
            return Err(Error::Eof);
        }
        let c = self.chars[p];
        if c == 'n' {
            proof {
                reveal_strlit("null");
                assert("null"@ =~= seq!['n', 'u', 'l', 'l']);
            }
            if self.word_at(p, "null") {
                self.pos = p + 4;
                Ok(Value::Null)
            } else {
                Err(Error::syntax(p, "expected 'null'"))
            }
        } else if c == 't' {
            proof {
                reveal_strlit("true");
                assert("true"@ =~= seq!['t', 'r', 'u', 'e']);
            }
            if self.word_at(p, "true") {
                self.pos = p + 4;
                Ok(Value::Bool(true))
            } else {
                Err(Error::syntax(p, "expected 'true'"))
            }
        } else if c == 'f' {
            proof {
                reveal_strlit("false");
                assert("false"@ =~= seq!['f', 'a', 'l', 's', 'e']);
            }
            if self.word_at(p, "false") {
                self.pos = p + 5;
                Ok(Value::Bool(false))
            } else {
                Err(Error::syntax(p, "expected 'false'"))
            }
        } else if c == '"' {
            match self.parse_string() {
                Ok(t) => Ok(Value::String(t)),
                Err(e) => Err(e),
            }
        } else if c == '-' || ('0' <= c && c <= '9') {
            match self.parse_number() {
                Ok(n) => Ok(Value::Number(n)),
                Err(e) => Err(e),
            }
        } else if c == '[' {
            if depth == 0 {
                return Err(Error::syntax(p, "nesting too deep"));
            }
            self.parse_array(depth - 1)
        } else if c == '{' {
            if depth == 0 {
                return Err(Error::syntax(p, "nesting too deep"));
            }
            self.parse_object(depth - 1)
        } else {
            Err(Error::syntax(p, "unexpected character"))
        }
    }

    /// Reads an array whose `[` is under the cursor; its elements may nest
    /// `cd` levels.
    fn parse_array(&mut self, cd: usize) -> (r: Result<Value, Error>)
        requires
            old(self).pos < old(self).chars.len(),
            old(self).chars@[old(self).pos as int] == '[',
            cd < usize::MAX,
        ensures
            final(self).chars@ == old(self).chars@,
            final(self).pos <= final(self).chars.len(),
            r matches Ok(v) ==> value_at(old(self).chars@, old(self).pos as int, (cd + 1) as nat) == Ok::<(JValue, int), Fail>((v@, final(self).pos as int)) && v@.wf(),
            r matches Err(e) ==> value_at(old(self).chars@, old(self).pos as int, (cd + 1) as nat) matches Err(f) && err_agrees(e, f),
            r is Ok ==> final(self).pos > old(self).pos,
        decreases cd + 1, 0nat,
    {
        let ghost s = self.chars@;
        let p = self.pos;
        self.pos = p + 1;
        self.skip_whitespace();
        let q = self.pos;
        proof {
            lemma_skip_ws(s, p + 1);
        }
        if q < self.chars.len() && self.chars[q] == ']' {
            self.pos = q + 1;
            let empty: Vec<Value> = Vec::new();
            proof {
                assert(model_items(empty@) =~= Seq::<JValue>::empty());
            }
            return Ok(Value::Array(empty));
        }
        let mut items: Vec<Value> = Vec::new();
        let ghost outcome = items_from(s, q as int, Seq::empty(), cd as nat);
        proof {
            assert(model_items(items@) =~= Seq::<JValue>::empty());
        }
        loop
            invariant
                self.chars@ == s,
                s == old(self).chars@,
                p == old(self).pos,
                p < self.pos <= self.chars.len(),
                outcome == items_from(s, self.pos as int, model_items(items@), cd as nat),
                value_at(s, p as int, (cd + 1) as nat) == (match outcome {
                    Ok((a, r)) => Ok((JValue::Array(a), r)),
                    Err(f) => Err(f),
                }),
                forall|j: int| 0 <= j < items.len() ==> (#[trigger] model(items@[j])).wf(),
            decreases self.chars.len() - self.pos,
        {
            let start = self.pos;
            let v = match self.parse_value(cd) {
                Ok(v) => v,
                Err(e) => {
                    return Err(e);
                },
            };
            let ghost before = items@;
            items.push(v);
            proof {
                assert(items@.drop_last() =~= before);
            }
            let ghost qv = self.pos as int;
            self.skip_whitespace();
            proof {
                lemma_skip_ws(s, qv);
            }
            let r = self.pos;
            if r >= self.chars.len() {
                return Err(Error::Eof);
            }
            let c = self.chars[r];
            if c == ']' {
                self.pos = r + 1;
                proof {
                    lemma_model_items(items@);
                }
                return Ok(Value::Array(items));
            } else if c == ',' {
                self.pos = r + 1;
                self.skip_whitespace();
                let t = self.pos;
                if t < self.chars.len() && self.chars[t] == ']' {
                    return Err(Error::syntax(t, "trailing comma in array"));
                }
                proof {
                    lemma_skip_ws(s, r + 1);
                }
            } else {
                return Err(Error::expected_found("',' or ']'", Parser::char_text(c).as_str(), r));
            }
        }
    }

    /// Reads an object whose `{` is under the cursor; its values may nest
    /// `cd` levels.
    fn parse_object(&mut self, cd: usize) -> (r: Result<Value, Error>)
        requires
            old(self).pos < old(self).chars.len(),
            old(self).chars@[old(self).pos as int] == '{',
            cd < usize::MAX,
        ensures
            final(self).chars@ == old(self).chars@,
            final(self).pos <= final(self).chars.len(),
            r matches Ok(v) ==> value_at(old(self).chars@, old(self).pos as int, (cd + 1) as nat) == Ok::<(JValue, int), Fail>((v@, final(self).pos as int)) && v@.wf(),
            r matches Err(e) ==> value_at(old(self).chars@, old(self).pos as int, (cd + 1) as nat) matches Err(f) && err_agrees(e, f),
            r is Ok ==> final(self).pos > old(self).pos,
        decreases cd + 1, 0nat,
    {
        let ghost s = self.chars@;
        let p = self.pos;
        self.pos = p + 1;
        self.skip_whitespace();
        let q = self.pos;
        proof {
            lemma_skip_ws(s, p + 1);
        }
        if q < self.chars.len() && self.chars[q] == '}' {
            self.pos = q + 1;
            let empty: Vec<(String, Value)> = Vec::new();
            proof {
                assert(model_entries(empty@) =~= Seq::<(Seq<char>, JValue)>::empty());
            }
            return Ok(Value::Object(empty));
        }
        let mut entries: Vec<(String, Value)> = Vec::new();
        let ghost outcome = members_from(s, q as int, Seq::empty(), cd as nat);
        proof {
            assert(model_entries(entries@) =~= Seq::<(Seq<char>, JValue)>::empty());
        }
        loop
            invariant
                self.chars@ == s,
                s == old(self).chars@,
                p == old(self).pos,
                p < self.pos <= self.chars.len(),
                outcome == members_from(s, self.pos as int, model_entries(entries@), cd as nat),
                value_at(s, p as int, (cd + 1) as nat) == (match outcome {
                    Ok((e, r)) => Ok((JValue::Object(e), r)),
                    Err(f) => Err(f),
                }),
                entries_wf(model_entries(entries@)),
            decreases self.chars.len() - self.pos,
        {
            let start = self.pos;
            if start >= self.chars.len() {
                return Err(Error::Eof);
            }
            if self.chars[start] != '"' {
                return Err(Error::expected_found("'\"'", Parser::char_text(self.chars[start]).as_str(), start));
            }
            let k = match self.parse_string() {
                Ok(k) => k,
                Err(e) => {
                    return Err(e);
                },
            };
            let ghost qs = self.pos as int;
            self.skip_whitespace();
            let c = self.pos;
            proof {
                lemma_skip_ws(s, qs);
            }
            if c >= self.chars.len() {
                return Err(Error::Eof);
            }
            if self.chars[c] != ':' {
                return Err(Error::expected_found("':'", Parser::char_text(self.chars[c]).as_str(), c));
            }
            self.pos = c + 1;
            self.skip_whitespace();
            proof {
                lemma_skip_ws(s, c + 1);
            }
            let v = match self.parse_value(cd) {
                Ok(v) => v,
                Err(e) => {
                    return Err(e);
                },
            };
            object_insert(&mut entries, k, v);
            let ghost qv = self.pos as int;
            self.skip_whitespace();
            proof {
                lemma_skip_ws(s, qv);
            }
            let r = self.pos;
            if r >= self.chars.len() {
                return Err(Error::Eof);
            }
            let ch = self.chars[r];
            if ch == '}' {
                self.pos = r + 1;
                return Ok(Value::Object(entries));
            } else if ch == ',' {
                self.pos = r + 1;
                self.skip_whitespace();
                let t = self.pos;
                if t < self.chars.len() && self.chars[t] == '}' {
                    return Err(Error::syntax(t, "trailing comma in object"));
                }
                proof {
                    lemma_skip_ws(s, r + 1);
                }
            } else {
                return Err(Error::expected_found("',' or '}'", Parser::char_text(ch).as_str(), r));
            }
        }
    }
}

/// Parses a whole JSON text: one value with only whitespace around it.
pub fn parse(json: &str) -> (r: Result<Value, Error>)
    ensures
        r matches Ok(v) ==> parse_text(json@) == Ok::<JValue, Fail>(v@) && v@.wf(),
        r matches Err(e) ==> parse_text(json@) matches Err(f) && err_agrees(e, f),
{
    let mut parser = Parser::new(json);
    parser.skip_whitespace();
    let v = match parser.parse_value(MAX_DEPTH) {
        Ok(v) => v,
        Err(e) => {
            return Err(e);
        },
    };
    parser.skip_whitespace();
    if parser.pos < parser.chars.len() {
        return Err(Error::syntax(parser.pos, "trailing characters after the value"));
    }
    Ok(v)
}

/// The parts of a numeral, as positions in the text.
pub struct NumParts {
    pub neg: bool,
    pub int_start: usize,
    pub int_end: usize,
    pub frac_start: usize,
    pub frac_end: usize,
    pub exp_neg: bool,
    pub exp_start: usize,
    pub exp_end: usize,
}

impl NumParts {
    pub open spec fn spec_shape(self) -> NumShape {
        NumShape {
            neg: self.neg,
            int_start: self.int_start as int,
            int_end: self.int_end as int,
            frac_start: self.frac_start as int,
            frac_end: self.frac_end as int,
            exp_neg: self.exp_neg,
            exp_start: self.exp_start as int,
            exp_end: self.exp_end as int,
        }
    }

    /// The parts are runs of digits within `s`, in order.
    pub open spec fn valid(self, s: Seq<char>) -> bool {
        &&& self.int_start < self.int_end <= self.frac_start <= self.frac_end <= self.exp_start <= self.exp_end <= s.len()
        &&& self.frac_start <= self.int_end + 1
        &&& forall|j: int| self.int_start <= j < self.int_end ==> is_digit(#[trigger] s[j])
        &&& forall|j: int| self.frac_start <= j < self.frac_end ==> is_digit(#[trigger] s[j])
        &&& forall|j: int| self.exp_start <= j < self.exp_end ==> is_digit(#[trigger] s[j])
        &&& self.exp_start == self.exp_end ==> self.exp_start == self.frac_end
        &&& self.exp_start > self.int_start
    }
}

/// The digits run from `p` to its end.
pub proof fn lemma_digits_run(s: Seq<char>, p: int)
    ensures
        forall|j: int| p <= j < digits_end(s, p) ==> is_digit(#[trigger] s[j]),
        p <= digits_end(s, p),
        0 <= p <= s.len() ==> digits_end(s, p) <= s.len(),
    decreases s.len() - p,
{
    if 0 <= p < s.len() && is_digit(s[p]) {
        lemma_digits_run(s, p + 1);
    }
}

} // verus!
