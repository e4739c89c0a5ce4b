//! Reading back what the emitter writes.
use vstd::prelude::*;
use crate::emit::{escape, escape_char, quoted, hex_char, digit_char};
use crate::grammar::{str_body, string_at, hex4, hex_val, is_scalar, simple_escape, Acc, acc_step, acc_digits, is_digit, digit_of, digits_end, num_shape, num_value, number_at, exp_digits, NumShape, Fail};
use crate::emit::{digits, repeat, number_text};
use crate::number::{pow10, ndigits, lemma_pow10_succ, MAX_LEAD, MIN_LEAD};
use crate::value::{Number, JValue, obj_put, keys_sorted, key_lt, lemma_ins_pos, lemma_array_wf, lemma_object_wf};
use crate::emit::{compact, compact_items, compact_entries, pretty, pretty_items, pretty_entries};
use crate::grammar::{value_at, items_from, members_from, skip_ws, is_ws, lit_at, parse_text, MAX_DEPTH, lemma_skip_ws, string_at as string_at_g};

verus! {

broadcast use vstd::seq::group_seq_axioms;

pub proof fn lemma_escape_append(a: Seq<char>, b: Seq<char>)
    ensures
        escape(a + b) == escape(a) + escape(b),
    decreases b.len(),
{
    if b.len() == 0 {
        assert(a + b =~= a);
        assert(escape(b) =~= Seq::<char>::empty());
        assert(escape(a) + escape(b) =~= escape(a));
    } else {
        lemma_escape_append(a, b.drop_last());
        assert((a + b).drop_last() =~= a + b.drop_last());
        assert((a + b).last() == b.last());
        assert(escape(a + b) =~= escape(a) + escape(b));
    }
}

proof fn lemma_hex_char(d: nat)
    requires
        d < 16,
    ensures
        hex_val(hex_char(d)) == Some(d),
        hex_char(d) != '"' && hex_char(d) != '\\',
{
}

proof fn lemma_char_code(c: char)
    ensures
        ((c as u32) as char) == c,
{
}

/// The string body reader reads back what the escaper wrote, up to the
/// closing quote.
pub proof fn lemma_str_body(s: Seq<char>, q: int, acc: Seq<char>, t: Seq<char>)
    requires
        0 <= q,
        q + escape(t).len() + 1 <= s.len(),
        s.subrange(q, q + escape(t).len()) == escape(t),
        s[q + escape(t).len()] == '"',
    ensures
        str_body(s, q, acc) == Ok::<(Seq<char>, int), crate::grammar::Fail>((acc + t, q + escape(t).len() + 1)),
    decreases t.len(),
{
    if t.len() == 0 {
        assert(escape(t) =~= Seq::<char>::empty());
        assert(acc + t =~= acc);
    } else {
        let c = t[0];
        let rest = t.drop_first();
        assert(t =~= seq![c] + rest);
        lemma_escape_append(seq![c], rest);
        assert(seq![c].drop_last() =~= Seq::<char>::empty());
        assert(escape(Seq::<char>::empty()) =~= Seq::<char>::empty());
        assert(seq![c].last() == c);
        assert(escape(seq![c]) == escape(seq![c].drop_last()) + escape_char(seq![c].last()));
        assert(escape(seq![c]) =~= escape_char(c));
        let ec = escape_char(c);
        let n = ec.len();
        assert(escape(t) == ec + escape(rest));
        assert forall|j: int| 0 <= j < n implies s[q + j] == ec[j] by {
            assert(s.subrange(q, q + escape(t).len())[j] == escape(t)[j]);
        }
        assert(s.subrange(q + n, q + n + escape(rest).len()) =~= escape(rest)) by {
            assert forall|j: int| 0 <= j < escape(rest).len() implies s.subrange(q + n, q + n + escape(rest).len())[j] == escape(rest)[j] by {
                assert(s.subrange(q, q + escape(t).len())[n + j] == escape(t)[n + j]);
            }
        }
        lemma_str_body(s, q + n, acc.push(c), rest);
        assert(acc.push(c) + rest =~= acc + t);
        if c == '"' || c == '\\' || c == '\n' || c == '\r' || c == '\t' || c == '\u{8}' || c == '\u{c}' {
            assert(n == 2);
        } else if (c as u32) < 0x20 {
            let x = c as u32;
            lemma_hex_char((x / 16) as nat);
            lemma_hex_char((x % 16) as nat);
            let hi = (x / 16) as nat;
            let lo = (x % 16) as nat;
            assert(s[q + 2] == '0' && s[q + 3] == '0');
            assert(s[q + 4] == hex_char(hi) && s[q + 5] == hex_char(lo));
            assert(hex_val('0') == Some(0nat));
            assert(hex4(s, q + 2, 4, hi * 16 + lo) == Ok::<nat, crate::grammar::Fail>(hi * 16 + lo));
            assert(hex4(s, q + 2, 3, hi) == hex4(s, q + 2, 4, hi * 16 + lo));
            assert(hex4(s, q + 2, 2, 0) == hex4(s, q + 2, 3, 0 * 16 + hi));
            assert(hex4(s, q + 2, 1, 0) == hex4(s, q + 2, 2, 0 * 16 + 0));
            assert(hex4(s, q + 2, 0, 0) == hex4(s, q + 2, 1, 0 * 16 + 0));
            assert(hi * 16 + lo == x);
            assert(hex4(s, q + 2, 0, 0) == Ok::<nat, crate::grammar::Fail>(x as nat));
            lemma_char_code(c);
        } else {
            assert(n == 1);
        }
    }
}

/// A string literal as the emitter writes it reads back as its text.
pub proof fn lemma_string_round_trip(s: Seq<char>, p: int, t: Seq<char>)
    requires
        0 <= p,
        p + quoted(t).len() <= s.len(),
        s.subrange(p, p + quoted(t).len()) == quoted(t),
    ensures
        string_at(s, p) == Ok::<(Seq<char>, int), crate::grammar::Fail>((t, p + quoted(t).len())),
{
    let e = escape(t);
    assert(quoted(t) == seq!['"'] + e + seq!['"']);
    assert(s.subrange(p + 1, p + 1 + e.len()) =~= e) by {
        assert forall|j: int| 0 <= j < e.len() implies s.subrange(p + 1, p + 1 + e.len())[j] == e[j] by {
            assert(s.subrange(p, p + quoted(t).len())[1 + j] == quoted(t)[1 + j]);
        }
    }
    assert(s.subrange(p, p + quoted(t).len())[(e.len() + 1) as int] == '"');
    lemma_str_body(s, p + 1, Seq::empty(), t);
    assert(Seq::<char>::empty() + t =~= t);
}


/// The significand read from a sequence of digits.
pub open spec fn acc_seq(ds: Seq<char>, a: Acc) -> Acc
    decreases ds.len(),
{
    if ds.len() == 0 {
        a
    } else {
        acc_step(acc_seq(ds.drop_last(), a), digit_of(ds.last()))
    }
}

proof fn lemma_acc_concat(x: Seq<char>, y: Seq<char>, a: Acc)
    ensures
        acc_seq(x + y, a) == acc_seq(y, acc_seq(x, a)),
    decreases y.len(),
{
    if y.len() == 0 {
        assert(x + y =~= x);
    } else {
        lemma_acc_concat(x, y.drop_last(), a);
        assert((x + y).drop_last() =~= x + y.drop_last());
    }
}

proof fn lemma_acc_sub(s: Seq<char>, i: int, j: int, a: Acc)
    requires
        0 <= i <= j <= s.len(),
    ensures
        acc_digits(s, i, j, a) == acc_seq(s.subrange(i, j), a),
    decreases j - i,
{
    if i < j {
        lemma_acc_sub(s, i + 1, j, acc_step(a, digit_of(s[i])));
        let t = s.subrange(i + 1, j);
        assert(s.subrange(i, j) =~= seq![s[i]] + t);
        lemma_acc_concat(seq![s[i]], t, a);
        assert(seq![s[i]].drop_last() =~= Seq::<char>::empty());
        assert(acc_seq(Seq::<char>::empty(), a) == a);
        assert(seq![s[i]].last() == s[i]);
        assert(acc_seq(seq![s[i]], a) == acc_step(a, digit_of(s[i])));
    } else {
        assert(s.subrange(i, j) =~= Seq::<char>::empty());
    }
}

proof fn lemma_digit_char(d: nat)
    requires
        d < 10,
    ensures
        is_digit(digit_char(d)),
        digit_of(digit_char(d)) == d,
        digit_char(d) == '0' <==> d == 0,
{
}

pub proof fn lemma_digits(m: nat)
    ensures
        digits(m).len() >= 1,
        forall|j: int| 0 <= j < digits(m).len() ==> is_digit(#[trigger] digits(m)[j]),
        m > 0 ==> digits(m)[0] != '0',
        m > 0 ==> digits(m).len() == ndigits(m),
        m == 0 ==> digits(m) == seq!['0'],
    decreases m,
{
    if m >= 10 {
        lemma_digits(m / 10);
        lemma_digit_char(m % 10);
        assert forall|j: int| 0 <= j < digits(m).len() implies is_digit(#[trigger] digits(m)[j]) by {
            if j < digits(m / 10).len() {
                assert(digits(m)[j] == digits(m / 10)[j]);
            }
        }
        assert(digits(m)[0] == digits(m / 10)[0]);
        assert(ndigits(m) == 1 + ndigits(m / 10));
    } else {
        lemma_digit_char(m);
        if m > 0 {
            assert(ndigits(m) == 1 + ndigits(m / 10));
            assert(ndigits(0) == 0);
        }
        if m == 0 {
            assert(digits(m) =~= seq!['0']);
        }
    }
}

/// Reading the digits of `m` gives back `m`, up to trailing zeros counted in
/// `z`.
proof fn lemma_acc_number(m: nat, z0: nat)
    requires
        0 < m <= u64::MAX,
    ensures
        ({
            let r = acc_seq(digits(m), Acc { m: 0, z: z0, ovf: false });
            &&& !r.ovf
            &&& r.m * pow10(r.z) == m
            &&& m % 10 != 0 ==> r.m == m && r.z == 0
        }),
    decreases m,
{
    let a0 = Acc { m: 0, z: z0, ovf: false };
    if m < 10 {
        lemma_digit_char(m);
        assert(digits(m) == seq![digit_char(m)]);
        assert(digits(m).drop_last() =~= Seq::<char>::empty());
        assert(acc_seq(Seq::<char>::empty(), a0) == a0);
        assert(digits(m).last() == digit_char(m));
        assert(0 * pow10(z0 + 1) == 0) by (nonlinear_arith);
        assert(pow10(0) == 1);
        assert(acc_seq(digits(m), a0) == acc_step(a0, m));
        assert(acc_step(a0, m) == (Acc { m: m, z: 0, ovf: false }));
        assert(m * pow10(0) == m);
    } else {
        lemma_acc_number(m / 10, z0);
        lemma_digit_char(m % 10);
        let r1 = acc_seq(digits(m / 10), a0);
        assert(digits(m).drop_last() =~= digits(m / 10));
        assert(digits(m).last() == digit_char(m % 10));
        assert(acc_seq(digits(m), a0) == acc_step(r1, m % 10));
        lemma_pow10_succ(r1.z);
        let d = m % 10;
        assert(r1.m * pow10(r1.z + 1) == 10 * (m / 10)) by (nonlinear_arith)
            requires
                r1.m * pow10(r1.z) == m / 10,
                pow10(r1.z + 1) == 10 * pow10(r1.z),
        {}
        assert(m == 10 * (m / 10) + m % 10);
        if d == 0 {
            assert(acc_step(r1, d) == (Acc { z: r1.z + 1, ..r1 }));
        } else {
            assert(pow10(0) == 1);
            assert(r1.m * pow10(r1.z + 1) + d == m);
            assert(acc_step(r1, d) == (Acc { m: m, z: 0, ovf: false }));
            assert(m * pow10(0) == m);
        }
    }
}

proof fn lemma_acc_zeros(k: nat, a: Acc)
    requires
        !a.ovf,
    ensures
        acc_seq(repeat('0', k), a) == (Acc { m: a.m, z: a.z + k, ovf: false }),
    decreases k,
{
    if k > 0 {
        assert(repeat('0', k).drop_last() =~= repeat('0', (k - 1) as nat));
        lemma_acc_zeros((k - 1) as nat, a);
        lemma_digit_char(0);
        assert(digit_char(0) == '0');
    } else {
        assert(repeat('0', 0) =~= Seq::<char>::empty());
    }
}

proof fn lemma_digits_end(s: Seq<char>, i: int, k: int)
    requires
        0 <= i,
        i + k <= s.len(),
        0 <= k,
        forall|j: int| i <= j < i + k ==> is_digit(#[trigger] s[j]),
        i + k == s.len() || !is_digit(s[i + k]),
    ensures
        digits_end(s, i) == i + k,
    decreases k,
{
    if k > 0 {
        lemma_digits_end(s, i + 1, k - 1);
    }
}


/// `s` holds `t` at position `p`.
pub open spec fn holds_at(s: Seq<char>, p: int, t: Seq<char>) -> bool {
    0 <= p && p + t.len() <= s.len() && s.subrange(p, p + t.len()) == t
}

/// What may follow a value in emitted text: the end, a comma, a closing
/// bracket, or a line break.
pub open spec fn ends_value(s: Seq<char>, q: int) -> bool {
    q == s.len() || (0 <= q < s.len() && (s[q] == ',' || s[q] == ']' || s[q] == '}' || s[q] == '\n'))
}

proof fn lemma_holds_part(s: Seq<char>, p: int, t: Seq<char>, a: int, b: int)
    requires
        holds_at(s, p, t),
        0 <= a <= b <= t.len(),
    ensures
        holds_at(s, p + a, t.subrange(a, b)),
        forall|j: int| a <= j < b ==> s[p + j] == t[j],
{
    assert forall|j: int| a <= j < b implies s[p + j] == t[j] by {
        assert(s.subrange(p, p + t.len())[j] == t[j]);
    }
    assert(s.subrange(p + a, p + a + (b - a)) =~= t.subrange(a, b));
}

/// The unsigned text of `n` at `q` reads as the numeral of `n`.
pub open spec fn body_of(n: Number) -> Seq<char> {
    if n.negative { number_text(n).drop_first() } else { number_text(n) }
}

pub open spec fn body_reads(s: Seq<char>, q: int, n: Number) -> bool {
    let end = q + body_of(n).len();
    let q1 = if q < s.len() && s[q] == '0' { q + 1 } else { digits_end(s, q) };
    &&& q1 > q
    &&& q1 < s.len() && s[q1] == '.' ==> digits_end(s, q1 + 1) == end && end > q1 + 1
    &&& !(q1 < s.len() && s[q1] == '.') ==> q1 == end
    &&& ({
        let a0 = Acc { m: 0, z: 0, ovf: false };
        let fs = if q1 < s.len() && s[q1] == '.' { q1 + 1 } else { q1 };
        let a = acc_digits(s, fs, end, acc_digits(s, q, q1, a0));
        &&& !a.ovf
        &&& a.m == n.magnitude
        &&& a.z as int - (end - fs) == n.exponent
    })
}

proof fn lemma_number_pos(s: Seq<char>, q: int, n: Number)
    requires
        n.wf(),
        n.magnitude > 0,
        holds_at(s, q, body_of(n)),
        ends_value(s, q + body_of(n).len()),
        n.exponent >= 0,
    ensures
        body_reads(s, q, n),
{
    let t = number_text(n);
    let body = body_of(n);
    let m = n.magnitude as nat;
    let d = digits(m);
    let end = q + body.len();
    let a0 = Acc { m: 0, z: 0, ovf: false };
    lemma_digits(m);
    crate::number::lemma_ndigits_u64(m);
    if n.negative {
        assert(t =~= seq!['-'] + body);
    }
        let e = n.exponent as nat;
        assert(body =~= d + repeat('0', e));
        assert forall|j: int| q <= j < end implies is_digit(#[trigger] s[j]) by {
            lemma_holds_part(s, q, body, 0, body.len() as int);
            let k = j - q;
            if k < d.len() {
                assert(body[k] == d[k]);
            } else {
                assert(body[k] == '0');
            }
        }
        lemma_holds_part(s, q, body, 0, body.len() as int);
        assert(s[q + 0] == body[0]);
        assert(body[0] == d[0]);
        assert(s[q] == d[0]);
        lemma_digits_end(s, q, body.len() as int);
        lemma_acc_sub(s, q, end, a0);
        assert(body.subrange(0, body.len() as int) =~= body);
        assert(s.subrange(q, end) =~= body);
        lemma_acc_concat(d, repeat('0', e), a0);
        lemma_acc_number(m, 0);
        lemma_acc_zeros(e, acc_seq(d, a0));
        assert(acc_digits(s, end, end, acc_digits(s, q, end, a0)) == acc_digits(s, q, end, a0));
}

proof fn lemma_number_mid(s: Seq<char>, q: int, n: Number)
    requires
        n.wf(),
        n.magnitude > 0,
        holds_at(s, q, body_of(n)),
        ends_value(s, q + body_of(n).len()),
        n.exponent < 0,
        -n.exponent < digits(n.magnitude as nat).len(),
    ensures
        body_reads(s, q, n),
{
    let t = number_text(n);
    let body = body_of(n);
    let m = n.magnitude as nat;
    let d = digits(m);
    let end = q + body.len();
    let a0 = Acc { m: 0, z: 0, ovf: false };
    lemma_digits(m);
    crate::number::lemma_ndigits_u64(m);
    if n.negative {
        assert(t =~= seq!['-'] + body);
    }
    let f = -n.exponent;
        let k = d.len() - f;
        assert(body =~= d.take(k) + seq!['.'] + d.skip(k));
        lemma_holds_part(s, q, body, 0, body.len() as int);
        assert forall|j: int| q <= j < q + k implies is_digit(#[trigger] s[j]) by {
            assert(body[j - q] == d[j - q]);
        }
        assert(s[q + 0] == body[0]);
        assert(body[0] == d[0]);
        assert(s[q] == d[0]);
        assert(body[k] == '.');
        assert(s[q + k] == '.');
        lemma_digits_end(s, q, k);
        assert forall|j: int| q + k + 1 <= j < end implies is_digit(#[trigger] s[j]) by {
            assert(body[j - q] == d[j - q - 1]);
        }
        lemma_digits_end(s, q + k + 1, f);
        lemma_acc_sub(s, q, q + k, a0);
        lemma_holds_part(s, q, body, 0, k);
        assert(body.subrange(0, k) =~= d.take(k));
        assert(s.subrange(q, q + k) =~= d.take(k));
        lemma_acc_sub(s, q + k + 1, end, acc_seq(d.take(k), a0));
        lemma_holds_part(s, q, body, k + 1, body.len() as int);
        assert(body.subrange(k + 1, body.len() as int) =~= d.skip(k));
        assert(s.subrange(q + k + 1, end) =~= d.skip(k));
        lemma_acc_concat(d.take(k), d.skip(k), a0);
        assert(d.take(k) + d.skip(k) =~= d);
        lemma_acc_number(m, 0);
        assert(d[0] != '0');
}

proof fn lemma_number_small(s: Seq<char>, q: int, n: Number)
    requires
        n.wf(),
        n.magnitude > 0,
        holds_at(s, q, body_of(n)),
        ends_value(s, q + body_of(n).len()),
        n.exponent < 0,
        -n.exponent >= digits(n.magnitude as nat).len(),
    ensures
        body_reads(s, q, n),
{
    let t = number_text(n);
    let body = body_of(n);
    let m = n.magnitude as nat;
    let d = digits(m);
    let end = q + body.len();
    let a0 = Acc { m: 0, z: 0, ovf: false };
    lemma_digits(m);
    crate::number::lemma_ndigits_u64(m);
    if n.negative {
        assert(t =~= seq!['-'] + body);
    }
    let f = -n.exponent;
        let zs = repeat('0', (f - d.len()) as nat);
        assert(body =~= seq!['0', '.'] + zs + d);
        lemma_holds_part(s, q, body, 0, body.len() as int);
        assert(s[q + 0] == body[0]);
        assert(s[q] == '0');
        assert(body[1] == '.');
        assert(s[q + 1] == '.');
        assert forall|j: int| q + 2 <= j < end implies is_digit(#[trigger] s[j]) by {
            let k = j - q;
            if k < 2 + zs.len() {
                assert(body[k] == '0');
            } else {
                assert(body[k] == d[k - 2 - zs.len()]);
            }
        }
        lemma_digits_end(s, q + 2, f);
        lemma_acc_sub(s, q, q + 1, a0);
        assert(s.subrange(q, q + 1) =~= seq!['0']);
        lemma_digit_char(0);
        assert(seq!['0'].drop_last() =~= Seq::<char>::empty());
        assert(acc_seq(Seq::<char>::empty(), a0) == a0);
        assert(acc_seq(seq!['0'], a0) == acc_step(a0, 0));
        let a1 = Acc { m: 0, z: 1, ovf: false };
        assert(acc_step(a0, 0) == a1);
        lemma_acc_sub(s, q + 2, end, a1);
        lemma_holds_part(s, q, body, 2, body.len() as int);
        assert(body.subrange(2, body.len() as int) =~= zs + d);
        assert(s.subrange(q + 2, end) =~= zs + d);
        lemma_acc_concat(zs, d, a1);
        lemma_acc_zeros((f - d.len()) as nat, a1);
        lemma_acc_number(m, (1 + f - d.len()) as nat);
}


/// A number as the emitter writes it reads back as itself.
pub proof fn lemma_number_round_trip(s: Seq<char>, p: int, n: Number)
    requires
        n.wf(),
        holds_at(s, p, number_text(n)),
        ends_value(s, p + number_text(n).len()),
    ensures
        number_at(s, p) == Ok::<(Number, int), Fail>((n, p + number_text(n).len())),
{
    let t = number_text(n);
    let end = p + t.len();
    lemma_holds_part(s, p, t, 0, t.len() as int);
    if n.magnitude == 0 {
        assert(t == seq!['0']);
        assert(s[p + 0] == t[0]);
        lemma_acc_sub(s, p, p + 1, Acc { m: 0, z: 0, ovf: false });
        assert(s.subrange(p, p + 1) =~= seq!['0']);
        lemma_digit_char(0);
        assert(seq!['0'].drop_last() =~= Seq::<char>::empty());
        assert(acc_seq(Seq::<char>::empty(), Acc { m: 0, z: 0, ovf: false }) == (Acc { m: 0, z: 0, ovf: false }));
        assert(seq!['0'].last() == '0');
        let sh = num_shape(s, p);
        assert(sh is Ok);
    } else {
        let q = if n.negative { p + 1 } else { p };
        let body = body_of(n);
        if n.negative {
            assert(t =~= seq!['-'] + body);
            assert(s[p + 0] == t[0]);
            lemma_holds_part(s, p, t, 1, t.len() as int);
            assert(t.subrange(1, t.len() as int) =~= body);
        } else {
            assert(body == t);
            lemma_digits(n.magnitude as nat);
            assert(s[p + 0] == t[0]);
            let d = digits(n.magnitude as nat);
            if n.exponent >= 0 {
                assert(t =~= d + repeat('0', n.exponent as nat));
                assert(t[0] == d[0]);
            } else if -n.exponent < d.len() {
                let k = d.len() + n.exponent;
                assert(t =~= d.take(k) + seq!['.'] + d.skip(k));
                assert(t[0] == d[0]);
            } else {
                assert(t =~= seq!['0', '.'] + repeat('0', (-n.exponent - d.len()) as nat) + d);
                assert(t[0] == '0');
            }
            assert(t[0] != '-');
        }
        assert(q + body.len() == end);
        if n.exponent >= 0 {
            lemma_number_pos(s, q, n);
        } else if -n.exponent < digits(n.magnitude as nat).len() {
            lemma_number_mid(s, q, n);
        } else {
            lemma_number_small(s, q, n);
        }
        let m = n.magnitude as nat;
        crate::number::lemma_ndigits_u64(m);
    }
}


/// `v` nests at most `d` levels of arrays and objects.
pub open spec fn fits(v: JValue, d: nat) -> bool
    decreases v,
{
    match v {
        JValue::Array(a) => d > 0 && forall|i: int| 0 <= i < a.len() ==> fits(#[trigger] a[i], (d - 1) as nat),
        JValue::Object(e) => d > 0 && forall|i: int| 0 <= i < e.len() ==> fits(#[trigger] e[i].1, (d - 1) as nat),
        _ => true,
    }
}

proof fn lemma_fits_array(a: Seq<JValue>, d: nat, i: int)
    requires
        fits(JValue::Array(a), d),
        0 <= i < a.len(),
    ensures
        d > 0,
        fits(a[i], (d - 1) as nat),
{
    let v = JValue::Array(a);
    assert(decreases_to!(v => v->Array_0));
    assert(decreases_to!(a => a[i]));
    assert(decreases_to!(v => a[i]));
}

proof fn lemma_fits_object(e: Seq<(Seq<char>, JValue)>, d: nat, i: int)
    requires
        fits(JValue::Object(e), d),
        0 <= i < e.len(),
    ensures
        d > 0,
        fits(e[i].1, (d - 1) as nat),
{
    let v = JValue::Object(e);
    assert(decreases_to!(v => v->Object_0));
    assert(decreases_to!(e => e[i]));
    assert(decreases_to!(e[i] => e[i].1));
    assert(decreases_to!(v => e[i].1));
}

/// The first character of a value's compact text.
proof fn lemma_compact_first(v: JValue)
    ensures
        compact(v).len() >= 1,
        !is_ws(compact(v)[0]),
        compact(v)[0] != ']' && compact(v)[0] != '}' && compact(v)[0] != ',' && compact(v)[0] != ':',
        v is Array <==> compact(v)[0] == '[',
        v is Object <==> compact(v)[0] == '{',
        v is Str <==> compact(v)[0] == '"',
        v is Number <==> (compact(v)[0] == '-' || is_digit(compact(v)[0])),
        v is Null <==> compact(v)[0] == 'n',
        v is Bool <==> (compact(v)[0] == 't' || compact(v)[0] == 'f'),
{
    reveal_strlit("null");
    reveal_strlit("true");
    reveal_strlit("false");
    match v {
        JValue::Number(n) => {
            let t = number_text(n);
            let d = digits(n.magnitude as nat);
            lemma_digits(n.magnitude as nat);
            let body = if n.magnitude == 0 {
                seq!['0']
            } else if n.exponent >= 0 {
                d + repeat('0', n.exponent as nat)
            } else if -n.exponent < d.len() {
                d.take(d.len() + n.exponent) + seq!['.'] + d.skip(d.len() + n.exponent)
            } else {
                seq!['0', '.'] + repeat('0', (-n.exponent - d.len()) as nat) + d
            };
            assert(is_digit(body[0]));
            if n.negative {
                assert(t =~= seq!['-'] + body);
            } else {
                assert(t =~= body);
            }
        },
        _ => {},
    }
}

/// The elements of `a` from position `i` on, as the compact text writes them.
pub open spec fn items_text(a: Seq<JValue>, i: int) -> Seq<char>
    decreases a.len() - i,
{
    if i < 0 || i >= a.len() {
        Seq::empty()
    } else if i + 1 == a.len() {
        compact(a[i])
    } else {
        compact(a[i]) + seq![',', ' '] + items_text(a, i + 1)
    }
}

proof fn lemma_items_text_last(a: Seq<JValue>, i: int)
    requires
        0 <= i < a.len() - 1,
    ensures
        items_text(a, i) == items_text(a.drop_last(), i) + seq![',', ' '] + compact(a.last()),
    decreases a.len() - i,
{
    let b = a.drop_last();
    assert(a[i] == b[i]);
    if i + 2 == a.len() {
        assert(items_text(b, i) == compact(b[i]));
        assert(items_text(a, i + 1) == compact(a[i + 1]));
    } else {
        lemma_items_text_last(a, i + 1);
    }
}

proof fn lemma_items_text(a: Seq<JValue>)
    requires
        a.len() >= 1,
    ensures
        compact_items(a) == items_text(a, 0),
    decreases a.len(),
{
    if a.len() > 1 {
        lemma_items_text(a.drop_last());
        lemma_items_text_last(a, 0);
    }
}

/// The entries of `e` from position `i` on, as the compact text writes them.
pub open spec fn entries_text(e: Seq<(Seq<char>, JValue)>, i: int) -> Seq<char>
    decreases e.len() - i,
{
    if i < 0 || i >= e.len() {
        Seq::empty()
    } else if i + 1 == e.len() {
        quoted(e[i].0) + seq![':', ' '] + compact(e[i].1)
    } else {
        quoted(e[i].0) + seq![':', ' '] + compact(e[i].1) + seq![',', ' '] + entries_text(e, i + 1)
    }
}

proof fn lemma_entries_text_last(e: Seq<(Seq<char>, JValue)>, i: int)
    requires
        0 <= i < e.len() - 1,
    ensures
        entries_text(e, i) == entries_text(e.drop_last(), i) + seq![',', ' '] + quoted(e.last().0) + seq![':', ' '] + compact(e.last().1),
    decreases e.len() - i,
{
    let b = e.drop_last();
    assert(e[i] == b[i]);
    if i + 2 == e.len() {
        assert(entries_text(e, i + 1) == quoted(e[i + 1].0) + seq![':', ' '] + compact(e[i + 1].1));
    } else {
        lemma_entries_text_last(e, i + 1);
    }
}

proof fn lemma_entries_text(e: Seq<(Seq<char>, JValue)>)
    requires
        e.len() >= 1,
    ensures
        compact_entries(e) == entries_text(e, 0),
    decreases e.len(),
{
    if e.len() > 1 {
        lemma_entries_text(e.drop_last());
        lemma_entries_text_last(e, 0);
    }
}

/// In sorted entries, putting the next entry after a prefix extends it.
proof fn lemma_put_next(e: Seq<(Seq<char>, JValue)>, i: int)
    requires
        keys_sorted(e),
        0 <= i < e.len(),
    ensures
        obj_put(e.take(i), e[i].0, e[i].1) == e.take(i + 1),
{
    let t = e.take(i);
    assert forall|j: int| 0 <= j < i implies key_lt(#[trigger] t[j].0, e[i].0) by {
        assert(t[j] == e[j]);
    }
    lemma_ins_pos(t, e[i].0, i);
    assert(t.insert(i, (e[i].0, e[i].1)) =~= e.take(i + 1));
}


proof fn lemma_skip_one(s: Seq<char>, x: int)
    requires
        0 <= x < s.len(),
        !is_ws(s[x]),
    ensures
        skip_ws(s, x) == x,
{
}

proof fn lemma_skip_space(s: Seq<char>, x: int)
    requires
        0 <= x,
        x + 1 < s.len(),
        s[x] == ' ',
        !is_ws(s[x + 1]),
    ensures
        skip_ws(s, x) == x + 1,
{
    assert(skip_ws(s, x + 1) == x + 1);
}

/// A value's compact text reads back as the value, at any position of a
/// longer text where it ends before a comma, a closing bracket or the end.
#[verifier::rlimit(40)]
pub proof fn lemma_value_rt(s: Seq<char>, p: int, v: JValue, d: nat)
    requires
        v.wf(),
        fits(v, d),
        holds_at(s, p, compact(v)),
        ends_value(s, p + compact(v).len()),
    ensures
        value_at(s, p, d) == Ok::<(JValue, int), Fail>((v, p + compact(v).len())),
    decreases v, 0nat,
{
    let c = compact(v);
    lemma_compact_first(v);
    lemma_holds_part(s, p, c, 0, c.len() as int);
    assert(s[p + 0] == c[0]);
    match v {
        JValue::Null => {
            reveal_strlit("null");
            assert(c =~= seq!['n', 'u', 'l', 'l']);
        },
        JValue::Bool(b) => {
            reveal_strlit("true");
            reveal_strlit("false");
            if b {
                assert(c =~= seq!['t', 'r', 'u', 'e']);
            } else {
                assert(c =~= seq!['f', 'a', 'l', 's', 'e']);
            }
        },
        JValue::Number(n) => {
            lemma_number_round_trip(s, p, n);
        },
        JValue::Str(t) => {
            lemma_string_round_trip(s, p, t);
        },
        JValue::Array(a) => {
            assert(d > 0);
            if a.len() == 0 {
                assert(c =~= seq!['[', ']']);
                assert(s[p + 1] == c[1]);
                lemma_skip_one(s, p + 1);
                assert(a =~= Seq::<JValue>::empty());
            } else {
                lemma_items_text(a);
                let t = items_text(a, 0);
                assert(c =~= seq!['['] + t + seq![']']);
                lemma_holds_part(s, p, c, 1, 1 + t.len() as int);
                assert(c.subrange(1, 1 + t.len() as int) =~= t);
                lemma_compact_first(a[0]);
                assert(t.len() >= 1 && t[0] == compact(a[0])[0]) by {
                    if a.len() == 1 {
                        assert(t == compact(a[0]));
                    } else {
                        assert(t == compact(a[0]) + seq![',', ' '] + items_text(a, 1));
                    }
                }
                assert(s[p + 1] == t[0]);
                lemma_skip_one(s, p + 1);
                assert(s[p + 1 + t.len()] == c[1 + t.len() as int]);
                assert forall|j: int| 0 <= j < a.len() implies (#[trigger] a[j]).wf() && fits(a[j], (d - 1) as nat) by {
                    lemma_array_wf(a, j);
                    lemma_fits_array(a, d, j);
                }
                assert(decreases_to!(v => v->Array_0));
                lemma_items_rt(s, p + 1, a, 0, (d - 1) as nat);
                assert(a.take(0) =~= Seq::<JValue>::empty());
            }
        },
        JValue::Object(e) => {
            assert(d > 0);
            if e.len() == 0 {
                assert(c =~= seq!['{', '}']);
                assert(s[p + 1] == c[1]);
                lemma_skip_one(s, p + 1);
                assert(e =~= Seq::<(Seq<char>, JValue)>::empty());
            } else {
                lemma_entries_text(e);
                let t = entries_text(e, 0);
                assert(c =~= seq!['{'] + t + seq!['}']);
                lemma_holds_part(s, p, c, 1, 1 + t.len() as int);
                assert(c.subrange(1, 1 + t.len() as int) =~= t);
                assert(t[0] == quoted(e[0].0)[0]) by {
                    if e.len() == 1 {
                        assert(t == quoted(e[0].0) + seq![':', ' '] + compact(e[0].1));
                    } else {
                        assert(t == quoted(e[0].0) + seq![':', ' '] + compact(e[0].1) + seq![',', ' '] + entries_text(e, 1));
                    }
                }
                assert(s[p + 1] == t[0]);
                lemma_skip_one(s, p + 1);
                assert(s[p + 1 + t.len()] == c[1 + t.len() as int]);
                assert forall|j: int| 0 <= j < e.len() implies (#[trigger] e[j]).1.wf() && fits(e[j].1, (d - 1) as nat) by {
                    lemma_object_wf(e, j);
                    lemma_fits_object(e, d, j);
                }
                lemma_object_wf(e, 0);
                assert(decreases_to!(v => v->Object_0));
                lemma_members_rt(s, p + 1, e, 0, (d - 1) as nat);
                assert(e.take(0) =~= Seq::<(Seq<char>, JValue)>::empty());
            }
        },
    }
}

proof fn lemma_items_rt(s: Seq<char>, q: int, a: Seq<JValue>, i: int, cd: nat)
    requires
        0 <= i < a.len(),
        forall|j: int| 0 <= j < a.len() ==> (#[trigger] a[j]).wf() && fits(a[j], cd),
        holds_at(s, q, items_text(a, i)),
        q + items_text(a, i).len() < s.len(),
        s[q + items_text(a, i).len()] == ']',
    ensures
        items_from(s, q, a.take(i), cd) == Ok::<(Seq<JValue>, int), Fail>((a, q + items_text(a, i).len() + 1)),
    decreases a, a.len() - i,
{
    let t = items_text(a, i);
    let c = compact(a[i]);
    lemma_compact_first(a[i]);
    assert(decreases_to!(a => a[i]));
    if i + 1 == a.len() {
        assert(t == c);
        lemma_value_rt(s, q, a[i], cd);
        lemma_skip_one(s, q + c.len());
        assert(a.take(i).push(a[i]) =~= a);
    } else {
        let rest = items_text(a, i + 1);
        assert(t == c + seq![',', ' '] + rest);
        lemma_holds_part(s, q, t, 0, c.len() as int);
        assert(t.subrange(0, c.len() as int) =~= c);
        lemma_holds_part(s, q, t, c.len() as int, (c.len() + 2) as int);
        let cl = c.len() as int;
        assert(t[cl] == ',' && t[cl + 1] == ' ');
        assert(s[q + cl] == t[cl]);
        assert(s[q + (cl + 1)] == t[cl + 1]);
        assert(s[q + c.len()] == ',');
        assert(s[q + c.len() + 1] == ' ');
        lemma_value_rt(s, q, a[i], cd);
        lemma_skip_one(s, q + c.len());
        lemma_compact_first(a[i + 1]);
        assert(rest.len() >= 1 && rest[0] == compact(a[i + 1])[0]) by {
            if i + 2 == a.len() {
                assert(rest == compact(a[i + 1]));
            } else {
                assert(rest == compact(a[i + 1]) + seq![',', ' '] + items_text(a, i + 2));
            }
        }
        lemma_holds_part(s, q, t, (c.len() + 2) as int, t.len() as int);
        assert(t.subrange((c.len() + 2) as int, t.len() as int) =~= rest);
        assert(s[q + c.len() + 2] == rest[0]);
        lemma_skip_space(s, q + c.len() + 1);
        lemma_items_rt(s, q + c.len() + 2, a, i + 1, cd);
        assert(a.take(i).push(a[i]) =~= a.take(i + 1));
    }
}

proof fn lemma_members_rt(s: Seq<char>, q: int, e: Seq<(Seq<char>, JValue)>, i: int, cd: nat)
    requires
        0 <= i < e.len(),
        keys_sorted(e),
        forall|j: int| 0 <= j < e.len() ==> (#[trigger] e[j]).1.wf() && fits(e[j].1, cd),
        holds_at(s, q, entries_text(e, i)),
        q + entries_text(e, i).len() < s.len(),
        s[q + entries_text(e, i).len()] == '}',
    ensures
        members_from(s, q, e.take(i), cd) == Ok::<(Seq<(Seq<char>, JValue)>, int), Fail>((e, q + entries_text(e, i).len() + 1)),
    decreases e, e.len() - i,
{
    let t = entries_text(e, i);
    let k = quoted(e[i].0);
    let c = compact(e[i].1);
    let head = k + seq![':', ' '] + c;
    lemma_compact_first(e[i].1);
    assert(decreases_to!(e => e[i]));
    assert(decreases_to!(e[i] => e[i].1));
    assert(decreases_to!(e => e[i].1));
    if i + 1 == e.len() {
        assert(t == head);
    } else {
        assert(t == head + seq![',', ' '] + entries_text(e, i + 1));
    }
    lemma_holds_part(s, q, t, 0, k.len() as int);
    assert(t.subrange(0, k.len() as int) =~= k);
    lemma_string_round_trip(s, q, e[i].0);
    assert(s[q + 0] == t[0]);
    let c0 = q + k.len();
    lemma_holds_part(s, q, t, k.len() as int, (k.len() + 2) as int);
    let kl = k.len() as int;
    assert(t[kl] == ':' && t[kl + 1] == ' ');
    assert(s[q + kl] == t[kl]);
    assert(s[q + (kl + 1)] == t[kl + 1]);
    assert(s[c0] == ':');
    assert(s[c0 + 1] == ' ');
    lemma_skip_one(s, c0);
    lemma_holds_part(s, q, t, (k.len() + 2) as int, (k.len() + 2 + c.len()) as int);
    assert(t.subrange((k.len() + 2) as int, (k.len() + 2 + c.len()) as int) =~= c);
    assert(s[c0 + 2] == c[0]);
    lemma_skip_space(s, c0 + 1);
    let q2 = c0 + 2 + c.len();
    if i + 1 == e.len() {
        lemma_value_rt(s, c0 + 2, e[i].1, cd);
        lemma_skip_one(s, q2);
        lemma_put_next(e, i);
        assert(e.take(i + 1) =~= e);
    } else {
        let rest = entries_text(e, i + 1);
        lemma_holds_part(s, q, t, head.len() as int, (head.len() + 2) as int);
        let hl = head.len() as int;
        assert(t[hl] == ',' && t[hl + 1] == ' ');
        assert(s[q + hl] == t[hl]);
        assert(s[q + (hl + 1)] == t[hl + 1]);
        assert(s[q2] == ',');
        assert(s[q2 + 1] == ' ');
        lemma_value_rt(s, c0 + 2, e[i].1, cd);
        lemma_skip_one(s, q2);
        lemma_put_next(e, i);
        assert(rest[0] == quoted(e[i + 1].0)[0]) by {
            if i + 2 == e.len() {
                assert(rest == quoted(e[i + 1].0) + seq![':', ' '] + compact(e[i + 1].1));
            } else {
                assert(rest == quoted(e[i + 1].0) + seq![':', ' '] + compact(e[i + 1].1) + seq![',', ' '] + entries_text(e, i + 2));
            }
        }
        lemma_holds_part(s, q, t, (head.len() + 2) as int, t.len() as int);
        assert(t.subrange((head.len() + 2) as int, t.len() as int) =~= rest);
        assert(s[q2 + 2] == rest[0]);
        lemma_skip_space(s, q2 + 1);
        lemma_members_rt(s, q2 + 2, e, i + 1, cd);
    }
}

/// The compact text of a well-formed value that nests no deeper than the
/// parser allows parses back to the value.
pub proof fn lemma_compact_round_trip(v: JValue)
    requires
        v.wf(),
        fits(v, MAX_DEPTH as nat),
    ensures
        parse_text(compact(v)) == Ok::<JValue, Fail>(v),
{
    let s = compact(v);
    lemma_compact_first(v);
    assert(s.subrange(0, s.len() as int) =~= s);
    lemma_skip_one(s, 0);
    lemma_value_rt(s, 0, v, MAX_DEPTH as nat);
}


proof fn lemma_put_fits(e: Seq<(Seq<char>, JValue)>, k: Seq<char>, v: JValue, cd: nat)
    requires
        forall|i: int| 0 <= i < e.len() ==> fits(#[trigger] e[i].1, cd),
        fits(v, cd),
    ensures
        forall|i: int| 0 <= i < obj_put(e, k, v).len() ==> fits(#[trigger] obj_put(e, k, v)[i].1, cd),
{
    crate::value::lemma_ins_pos_props(e, k);
    let i0 = crate::value::ins_pos(e, k) as int;
    let r = obj_put(e, k, v);
    assert forall|i: int| 0 <= i < r.len() implies fits(#[trigger] r[i].1, cd) by {
        if i0 < e.len() && e[i0].0 == k {
            if i != i0 {
                assert(r[i] == e[i]);
            }
        } else {
            if i < i0 {
                assert(r[i] == e[i]);
            } else if i > i0 {
                assert(r[i] == e[i - 1]);
            }
        }
    }
}

/// What the parser reads nests no deeper than it was allowed.
pub proof fn lemma_value_fits(s: Seq<char>, p: int, d: nat)
    ensures
        value_at(s, p, d) matches Ok((v, _)) ==> fits(v, d),
    decreases d, s.len() - p, 2nat,
{
    if 0 <= p < s.len() {
        let c = s[p];
        if (c == '[' || c == '{') && d > 0 {
            let q = skip_ws(s, p + 1);
            lemma_skip_ws(s, p + 1);
            if c == '[' {
                if !(q < s.len() && s[q] == ']') {
                    lemma_items_fits(s, q, Seq::empty(), (d - 1) as nat);
                }
            } else {
                if !(q < s.len() && s[q] == '}') {
                    lemma_members_fits(s, q, Seq::empty(), (d - 1) as nat);
                }
            }
        }
    }
}

proof fn lemma_items_fits(s: Seq<char>, p: int, acc: Seq<JValue>, cd: nat)
    requires
        forall|i: int| 0 <= i < acc.len() ==> fits(#[trigger] acc[i], cd),
    ensures
        items_from(s, p, acc, cd) matches Ok((a, _)) ==> forall|i: int| 0 <= i < a.len() ==> fits(#[trigger] a[i], cd),
    decreases cd + 1, s.len() - p, 0nat,
{
    lemma_value_fits(s, p, cd);
    match value_at(s, p, cd) {
        Ok((v, q)) => {
            let acc2 = acc.push(v);
            assert forall|i: int| 0 <= i < acc2.len() implies fits(#[trigger] acc2[i], cd) by {
                if i < acc.len() {
                    assert(acc2[i] == acc[i]);
                }
            }
            let r = skip_ws(s, q);
            if 0 <= r < s.len() && s[r] == ',' {
                let t = skip_ws(s, r + 1);
                lemma_skip_ws(s, r + 1);
                if !(t < s.len() && s[t] == ']') && t > p {
                    lemma_items_fits(s, t, acc2, cd);
                }
            }
        },
        Err(_) => {},
    }
}

proof fn lemma_members_fits(s: Seq<char>, p: int, acc: Seq<(Seq<char>, JValue)>, cd: nat)
    requires
        forall|i: int| 0 <= i < acc.len() ==> fits(#[trigger] acc[i].1, cd),
    ensures
        members_from(s, p, acc, cd) matches Ok((e, _)) ==> forall|i: int| 0 <= i < e.len() ==> fits(#[trigger] e[i].1, cd),
    decreases cd + 1, s.len() - p, 0nat,
{
    if 0 <= p < s.len() && s[p] == '"' {
        match string_at_g(s, p) {
            Ok((k, q)) => {
                let c = skip_ws(s, q);
                if 0 <= c < s.len() && s[c] == ':' {
                    lemma_value_fits(s, skip_ws(s, c + 1), cd);
                    match value_at(s, skip_ws(s, c + 1), cd) {
                        Ok((v, q2)) => {
                            lemma_put_fits(acc, k, v, cd);
                            let acc2 = obj_put(acc, k, v);
                            let r = skip_ws(s, q2);
                            if 0 <= r < s.len() && s[r] == ',' {
                                let t = skip_ws(s, r + 1);
                                lemma_skip_ws(s, r + 1);
                                if !(t < s.len() && s[t] == '}') && t > p {
                                    lemma_members_fits(s, t, acc2, cd);
                                }
                            }
                        },
                        Err(_) => {},
                    }
                }
            },
            Err(_) => {},
        }
    }
}

/// Re-emitting what the parser accepted and parsing it again gives the same
/// value.
pub proof fn lemma_reparse(s: Seq<char>, v: JValue)
    requires
        parse_text(s) == Ok::<JValue, Fail>(v),
        v.wf(),
    ensures
        parse_text(compact(v)) == Ok::<JValue, Fail>(v),
{
    lemma_value_fits(s, skip_ws(s, 0), MAX_DEPTH as nat);
    lemma_compact_round_trip(v);
}


/// `t` is made of spaces.
pub open spec fn spaces(t: Seq<char>) -> bool {
    forall|j: int| 0 <= j < t.len() ==> #[trigger] t[j] == ' '
}

proof fn lemma_skip_run(s: Seq<char>, x: int, k: int)
    requires
        0 <= x,
        0 <= k,
        x + k < s.len(),
        forall|j: int| x <= j < x + k ==> is_ws(#[trigger] s[j]),
        !is_ws(s[x + k]),
    ensures
        skip_ws(s, x) == x + k,
    decreases k,
{
    if k > 0 {
        lemma_skip_run(s, x + 1, k - 1);
    }
}

/// The elements of `a` from position `i` on as the indented text writes
/// them, each after the first preceded by a line break and `pad`.
pub open spec fn pitems_text(a: Seq<JValue>, i: int, pad: Seq<char>) -> Seq<char>
    decreases a.len() - i,
{
    if i < 0 || i >= a.len() {
        Seq::empty()
    } else if i + 1 == a.len() {
        pretty(a[i], pad)
    } else {
        pretty(a[i], pad) + seq![',', '\n'] + pad + pitems_text(a, i + 1, pad)
    }
}

proof fn lemma_pitems_last(a: Seq<JValue>, i: int, pad: Seq<char>)
    requires
        0 <= i < a.len() - 1,
    ensures
        pitems_text(a, i, pad) == pitems_text(a.drop_last(), i, pad) + seq![',', '\n'] + pad + pretty(a.last(), pad),
    decreases a.len() - i,
{
    let b = a.drop_last();
    assert(a[i] == b[i]);
    if i + 2 == a.len() {
        assert(pitems_text(b, i, pad) == pretty(b[i], pad));
        assert(pitems_text(a, i + 1, pad) == pretty(a[i + 1], pad));
        assert(a.last() == a[i + 1]);
        assert(pitems_text(a, i, pad) =~= pitems_text(b, i, pad) + seq![',', '\n'] + pad + pretty(a.last(), pad));
    } else {
        lemma_pitems_last(a, i + 1, pad);
        assert(pitems_text(b, i, pad) == pretty(b[i], pad) + seq![',', '\n'] + pad + pitems_text(b, i + 1, pad));
        assert(pitems_text(a, i, pad) =~= pitems_text(b, i, pad) + seq![',', '\n'] + pad + pretty(a.last(), pad));
    }
}

proof fn lemma_pitems(a: Seq<JValue>, pad: Seq<char>)
    requires
        a.len() >= 1,
    ensures
        pretty_items(a, pad) == pad + pitems_text(a, 0, pad),
    decreases a.len(),
{
    if a.len() > 1 {
        lemma_pitems(a.drop_last(), pad);
        lemma_pitems_last(a, 0, pad);
    }
}

/// The entries of `e` from position `i` on as the indented text writes them.
pub open spec fn pentries_text(e: Seq<(Seq<char>, JValue)>, i: int, pad: Seq<char>) -> Seq<char>
    decreases e.len() - i,
{
    if i < 0 || i >= e.len() {
        Seq::empty()
    } else if i + 1 == e.len() {
        quoted(e[i].0) + seq![':', ' '] + pretty(e[i].1, pad)
    } else {
        quoted(e[i].0) + seq![':', ' '] + pretty(e[i].1, pad) + seq![',', '\n'] + pad + pentries_text(e, i + 1, pad)
    }
}

proof fn lemma_pentries_last(e: Seq<(Seq<char>, JValue)>, i: int, pad: Seq<char>)
    requires
        0 <= i < e.len() - 1,
    ensures
        pentries_text(e, i, pad) == pentries_text(e.drop_last(), i, pad) + seq![',', '\n'] + pad + quoted(e.last().0) + seq![':', ' '] + pretty(e.last().1, pad),
    decreases e.len() - i,
{
    let b = e.drop_last();
    assert(e[i] == b[i]);
    if i + 2 == e.len() {
        assert(pentries_text(b, i, pad) == quoted(b[i].0) + seq![':', ' '] + pretty(b[i].1, pad));
        assert(pentries_text(e, i + 1, pad) == quoted(e[i + 1].0) + seq![':', ' '] + pretty(e[i + 1].1, pad));
        assert(e.last() == e[i + 1]);
        assert(pentries_text(e, i, pad) =~= pentries_text(b, i, pad) + seq![',', '\n'] + pad + quoted(e.last().0) + seq![':', ' '] + pretty(e.last().1, pad));
    } else {
        lemma_pentries_last(e, i + 1, pad);
        assert(pentries_text(b, i, pad) == quoted(b[i].0) + seq![':', ' '] + pretty(b[i].1, pad) + seq![',', '\n'] + pad + pentries_text(b, i + 1, pad));
        assert(pentries_text(e, i, pad) =~= pentries_text(b, i, pad) + seq![',', '\n'] + pad + quoted(e.last().0) + seq![':', ' '] + pretty(e.last().1, pad));
    }
}

proof fn lemma_pentries(e: Seq<(Seq<char>, JValue)>, pad: Seq<char>)
    requires
        e.len() >= 1,
    ensures
        pretty_entries(e, pad) == pad + pentries_text(e, 0, pad),
    decreases e.len(),
{
    if e.len() > 1 {
        lemma_pentries(e.drop_last(), pad);
        lemma_pentries_last(e, 0, pad);
    }
}

proof fn lemma_pretty_first(v: JValue, pad: Seq<char>)
    ensures
        pretty(v, pad).len() >= 1,
        pretty(v, pad)[0] == compact(v)[0],
        !(v is Array) && !(v is Object) ==> pretty(v, pad) == compact(v),
{
    lemma_compact_first(v);
}

/// A value's indented text, at nesting `pad`, reads back as the value.
pub proof fn lemma_pvalue_rt(s: Seq<char>, p: int, v: JValue, d: nat, pad: Seq<char>)
    requires
        v.wf(),
        fits(v, d),
        spaces(pad),
        holds_at(s, p, pretty(v, pad)),
        ends_value(s, p + pretty(v, pad).len()),
    ensures
        value_at(s, p, d) == Ok::<(JValue, int), Fail>((v, p + pretty(v, pad).len())),
    decreases v, 2nat,
{
    match v {
        JValue::Array(a) => {
            lemma_parray_rt(s, p, v, d, pad);
        },
        JValue::Object(e) => {
            lemma_pobject_rt(s, p, v, d, pad);
        },
        _ => {
            lemma_value_rt(s, p, v, d);
        },
    }
}

/// Where the parts of an indented container stand in the text.
proof fn lemma_layout(s: Seq<char>, p: int, open: char, close: char, pad2: Seq<char>, x: Seq<char>, pad: Seq<char>)
    requires
        spaces(pad2),
        spaces(pad),
        x.len() >= 1,
        !is_ws(x[0]),
        holds_at(s, p, seq![open, '\n'] + pad2 + x + seq!['\n'] + pad + seq![close]),
    ensures
        skip_ws(s, p + 1) == p + 2 + pad2.len(),
        holds_at(s, p + 2 + pad2.len(), x),
        s[p + 2 + pad2.len() + x.len()] == '\n',
        holds_at(s, p + 3 + pad2.len() + x.len(), pad),
        s[p + 3 + pad2.len() + x.len() + pad.len()] == close,
        p + 3 + pad2.len() + x.len() + pad.len() < s.len(),
{
    let c = seq![open, '\n'] + pad2 + x + seq!['\n'] + pad + seq![close];
    let pl = pad2.len() as int;
    let xl = x.len() as int;
    let ql = pad.len() as int;
    lemma_holds_part(s, p, c, 0, c.len() as int);
    assert forall|j: int| p + 1 <= j < p + 2 + pl implies is_ws(#[trigger] s[j]) by {
        assert(s[p + (j - p)] == c[j - p]);
        if j > p + 1 {
            assert(c[j - p] == pad2[j - p - 2]);
        }
    }
    assert(s[p + (2 + pl)] == c[2 + pl]);
    assert(c[2 + pl] == x[0]);
    lemma_skip_run(s, p + 1, 1 + pl);
    lemma_holds_part(s, p, c, 2 + pl, 2 + pl + xl);
    assert(c.subrange(2 + pl, 2 + pl + xl) =~= x);
    assert(s[p + (2 + pl + xl)] == c[2 + pl + xl]);
    lemma_holds_part(s, p, c, 3 + pl + xl, 3 + pl + xl + ql);
    assert(c.subrange(3 + pl + xl, 3 + pl + xl + ql) =~= pad);
    assert(s[p + (3 + pl + xl + ql)] == c[3 + pl + xl + ql]);
}

proof fn lemma_parray_rt(s: Seq<char>, p: int, v: JValue, d: nat, pad: Seq<char>)
    requires
        v.wf(),
        fits(v, d),
        spaces(pad),
        holds_at(s, p, pretty(v, pad)),
        ends_value(s, p + pretty(v, pad).len()),
        v is Array,
    ensures
        value_at(s, p, d) == Ok::<(JValue, int), Fail>((v, p + pretty(v, pad).len())),
    decreases v, 1nat,
{
    let c = pretty(v, pad);
    let pad2 = pad + seq![' ', ' '];
    let a = v->Array_0;
    lemma_holds_part(s, p, c, 0, c.len() as int);
    assert(s[p + 0] == c[0]);
    assert(spaces(pad2));
    assert(d > 0) by {
        if a.len() > 0 {
            lemma_fits_array(a, d, 0);
        }
    }
    if a.len() == 0 {
        assert(c =~= seq!['[', ']']);
        assert(s[p + 1] == c[1]);
        lemma_skip_one(s, p + 1);
        assert(a =~= Seq::<JValue>::empty());
    } else {
        lemma_pitems(a, pad2);
        let x = pitems_text(a, 0, pad2);
        assert(c == seq!['[', '\n'] + pretty_items(a, pad2) + seq!['\n'] + pad + seq![']']);
        assert(c =~= seq!['[', '\n'] + pad2 + x + seq!['\n'] + pad + seq![']']);
        lemma_pretty_first(a[0], pad2);
        lemma_compact_first(a[0]);
        assert(x.len() >= 1 && x[0] == pretty(a[0], pad2)[0]) by {
            if a.len() == 1 {
                assert(x == pretty(a[0], pad2));
            } else {
                assert(x == pretty(a[0], pad2) + seq![',', '\n'] + pad2 + pitems_text(a, 1, pad2));
            }
        }
        lemma_layout(s, p, '[', ']', pad2, x, pad);
        assert forall|j: int| 0 <= j < a.len() implies (#[trigger] a[j]).wf() && fits(a[j], (d - 1) as nat) by {
            lemma_array_wf(a, j);
            lemma_fits_array(a, d, j);
        }
        assert(decreases_to!(v => v->Array_0));
        lemma_pitems_rt(s, p + 2 + pad2.len(), a, 0, (d - 1) as nat, pad2, pad);
        assert(a.take(0) =~= Seq::<JValue>::empty());
    }
}

proof fn lemma_pobject_rt(s: Seq<char>, p: int, v: JValue, d: nat, pad: Seq<char>)
    requires
        v.wf(),
        fits(v, d),
        spaces(pad),
        holds_at(s, p, pretty(v, pad)),
        ends_value(s, p + pretty(v, pad).len()),
        v is Object,
    ensures
        value_at(s, p, d) == Ok::<(JValue, int), Fail>((v, p + pretty(v, pad).len())),
    decreases v, 1nat,
{
    let c = pretty(v, pad);
    let pad2 = pad + seq![' ', ' '];
    let e = v->Object_0;
    lemma_holds_part(s, p, c, 0, c.len() as int);
    assert(s[p + 0] == c[0]);
    assert(spaces(pad2));
    assert(d > 0) by {
        if e.len() > 0 {
            lemma_fits_object(e, d, 0);
        }
    }
    if e.len() == 0 {
        assert(c =~= seq!['{', '}']);
        assert(s[p + 1] == c[1]);
        lemma_skip_one(s, p + 1);
        assert(e =~= Seq::<(Seq<char>, JValue)>::empty());
    } else {
        lemma_pentries(e, pad2);
        let x = pentries_text(e, 0, pad2);
        assert(c == seq!['{', '\n'] + pretty_entries(e, pad2) + seq!['\n'] + pad + seq!['}']);
        assert(c =~= seq!['{', '\n'] + pad2 + x + seq!['\n'] + pad + seq!['}']);
        assert(x.len() >= 1 && x[0] == '"') by {
            if e.len() == 1 {
                assert(x == quoted(e[0].0) + seq![':', ' '] + pretty(e[0].1, pad2));
            } else {
                assert(x == quoted(e[0].0) + seq![':', ' '] + pretty(e[0].1, pad2) + seq![',', '\n'] + pad2 + pentries_text(e, 1, pad2));
            }
        }
        lemma_layout(s, p, '{', '}', pad2, x, pad);
        assert forall|j: int| 0 <= j < e.len() implies (#[trigger] e[j]).1.wf() && fits(e[j].1, (d - 1) as nat) by {
            lemma_object_wf(e, j);
            lemma_fits_object(e, d, j);
        }
        lemma_object_wf(e, 0);
        assert(decreases_to!(v => v->Object_0));
        lemma_pmembers_rt(s, p + 2 + pad2.len(), e, 0, (d - 1) as nat, pad2, pad);
        assert(e.take(0) =~= Seq::<(Seq<char>, JValue)>::empty());
    }
}

proof fn lemma_close_after(s: Seq<char>, z: int, pad: Seq<char>, close: char)
    requires
        0 <= z,
        spaces(pad),
        z + 1 + pad.len() < s.len(),
        s[z] == '\n',
        holds_at(s, z + 1, pad),
        s[z + 1 + pad.len()] == close,
        !is_ws(close),
    ensures
        skip_ws(s, z) == z + 1 + pad.len(),
{
    lemma_holds_part(s, z + 1, pad, 0, pad.len() as int);
    assert forall|j: int| z <= j < z + 1 + pad.len() implies is_ws(#[trigger] s[j]) by {
        if j > z {
            assert(s[(z + 1) + (j - z - 1)] == pad[j - z - 1]);
        }
    }
    lemma_skip_run(s, z, 1 + pad.len() as int);
}

proof fn lemma_pitems_rt(s: Seq<char>, q: int, a: Seq<JValue>, i: int, cd: nat, pad2: Seq<char>, pad: Seq<char>)
    requires
        0 <= i < a.len(),
        spaces(pad2),
        spaces(pad),
        forall|j: int| 0 <= j < a.len() ==> (#[trigger] a[j]).wf() && fits(a[j], cd),
        holds_at(s, q, pitems_text(a, i, pad2)),
        q + pitems_text(a, i, pad2).len() + 1 + pad.len() < s.len(),
        s[q + pitems_text(a, i, pad2).len()] == '\n',
        holds_at(s, q + pitems_text(a, i, pad2).len() + 1, pad),
        s[q + pitems_text(a, i, pad2).len() + 1 + pad.len()] == ']',
    ensures
        items_from(s, q, a.take(i), cd) == Ok::<(Seq<JValue>, int), Fail>((a, q + pitems_text(a, i, pad2).len() + 2 + pad.len())),
    decreases a, a.len() - i,
{
    let t = pitems_text(a, i, pad2);
    let c = pretty(a[i], pad2);
    let cl = c.len() as int;
    let z = q + t.len();
    lemma_pretty_first(a[i], pad2);
    assert(decreases_to!(a => a[i]));
    if i + 1 == a.len() {
        assert(t == c);
        lemma_pvalue_rt(s, q, a[i], cd, pad2);
        lemma_close_after(s, z, pad, ']');
        assert(a.take(i).push(a[i]) =~= a);
    } else {
        let rest = pitems_text(a, i + 1, pad2);
        let pl = pad2.len() as int;
        assert(t == c + seq![',', '\n'] + pad2 + rest);
        lemma_holds_part(s, q, t, 0, cl);
        assert(t.subrange(0, cl) =~= c);
        assert(s[q + cl] == t[cl]);
        assert(s[q + cl] == ',');
        lemma_pvalue_rt(s, q, a[i], cd, pad2);
        lemma_skip_one(s, q + cl);
        lemma_pretty_first(a[i + 1], pad2);
        lemma_compact_first(a[i + 1]);
        assert(rest.len() >= 1 && rest[0] == pretty(a[i + 1], pad2)[0]) by {
            if i + 2 == a.len() {
                assert(rest == pretty(a[i + 1], pad2));
            } else {
                assert(rest == pretty(a[i + 1], pad2) + seq![',', '\n'] + pad2 + pitems_text(a, i + 2, pad2));
            }
        }
        assert forall|j: int| q + cl + 1 <= j < q + cl + 2 + pl implies is_ws(#[trigger] s[j]) by {
            assert(s[q + (j - q)] == t[j - q]);
            if j > q + cl + 1 {
                assert(t[j - q] == pad2[j - q - cl - 2]);
            }
        }
        assert(s[q + (cl + 2 + pl)] == t[cl + 2 + pl]);
        assert(t[cl + 2 + pl] == rest[0]);
        lemma_skip_run(s, q + cl + 1, 1 + pl);
        lemma_holds_part(s, q, t, cl + 2 + pl, t.len() as int);
        assert(t.subrange(cl + 2 + pl, t.len() as int) =~= rest);
        lemma_pitems_rt(s, q + cl + 2 + pl, a, i + 1, cd, pad2, pad);
        assert(a.take(i).push(a[i]) =~= a.take(i + 1));
    }
}

proof fn lemma_pmembers_rt(s: Seq<char>, q: int, e: Seq<(Seq<char>, JValue)>, i: int, cd: nat, pad2: Seq<char>, pad: Seq<char>)
    requires
        0 <= i < e.len(),
        keys_sorted(e),
        spaces(pad2),
        spaces(pad),
        forall|j: int| 0 <= j < e.len() ==> (#[trigger] e[j]).1.wf() && fits(e[j].1, cd),
        holds_at(s, q, pentries_text(e, i, pad2)),
        q + pentries_text(e, i, pad2).len() + 1 + pad.len() < s.len(),
        s[q + pentries_text(e, i, pad2).len()] == '\n',
        holds_at(s, q + pentries_text(e, i, pad2).len() + 1, pad),
        s[q + pentries_text(e, i, pad2).len() + 1 + pad.len()] == '}',
    ensures
        members_from(s, q, e.take(i), cd) == Ok::<(Seq<(Seq<char>, JValue)>, int), Fail>((e, q + pentries_text(e, i, pad2).len() + 2 + pad.len())),
    decreases e, e.len() - i,
{
    let t = pentries_text(e, i, pad2);
    let k = quoted(e[i].0);
    let c = pretty(e[i].1, pad2);
    let head = k + seq![':', ' '] + c;
    let z = q + t.len();
    lemma_pretty_first(e[i].1, pad2);
    lemma_compact_first(e[i].1);
    assert(decreases_to!(e => e[i]));
    assert(decreases_to!(e[i] => e[i].1));
    assert(decreases_to!(e => e[i].1));
    if i + 1 == e.len() {
        assert(t == head);
    } else {
        assert(t == head + seq![',', '\n'] + pad2 + pentries_text(e, i + 1, pad2));
    }
    lemma_holds_part(s, q, t, 0, k.len() as int);
    assert(t.subrange(0, k.len() as int) =~= k);
    lemma_string_round_trip(s, q, e[i].0);
    assert(s[q + 0] == t[0]);
    let c0 = q + k.len();
    let kl = k.len() as int;
    assert(t[kl] == ':' && t[kl + 1] == ' ');
    assert(s[q + kl] == t[kl]);
    assert(s[q + (kl + 1)] == t[kl + 1]);
    lemma_skip_one(s, c0);
    lemma_holds_part(s, q, t, kl + 2, kl + 2 + c.len());
    assert(t.subrange(kl + 2, kl + 2 + c.len()) =~= c);
    assert(s[q + (kl + 2)] == t[kl + 2]);
    assert(s[c0 + 2] == c[0]);
    lemma_skip_space(s, c0 + 1);
    let q2 = c0 + 2 + c.len();
    if i + 1 == e.len() {
        lemma_pvalue_rt(s, c0 + 2, e[i].1, cd, pad2);
        lemma_close_after(s, z, pad, '}');
        lemma_put_next(e, i);
        assert(e.take(i + 1) =~= e);
    } else {
        let rest = pentries_text(e, i + 1, pad2);
        let hl = head.len() as int;
        let pl = pad2.len() as int;
        assert(s[q + hl] == t[hl]);
        assert(s[q2] == ',');
        lemma_pvalue_rt(s, c0 + 2, e[i].1, cd, pad2);
        lemma_skip_one(s, q2);
        lemma_put_next(e, i);
        assert(rest[0] == '"') by {
            if i + 2 == e.len() {
                assert(rest == quoted(e[i + 1].0) + seq![':', ' '] + pretty(e[i + 1].1, pad2));
            } else {
                assert(rest == quoted(e[i + 1].0) + seq![':', ' '] + pretty(e[i + 1].1, pad2) + seq![',', '\n'] + pad2 + pentries_text(e, i + 2, pad2));
            }
        }
        assert forall|j: int| q2 + 1 <= j < q2 + 2 + pl implies is_ws(#[trigger] s[j]) by {
            assert(s[q + (j - q)] == t[j - q]);
            if j > q2 + 1 {
                assert(t[j - q] == pad2[j - q - hl - 2]);
            }
        }
        assert(s[q + (hl + 2 + pl)] == t[hl + 2 + pl]);
        assert(t[hl + 2 + pl] == rest[0]);
        lemma_skip_run(s, q2 + 1, 1 + pl);
        lemma_holds_part(s, q, t, hl + 2 + pl, t.len() as int);
        assert(t.subrange(hl + 2 + pl, t.len() as int) =~= rest);
        lemma_pmembers_rt(s, q2 + 2 + pl, e, i + 1, cd, pad2, pad);
    }
}

/// The indented text of a well-formed value that nests no deeper than the
/// parser allows parses back to the value.
pub proof fn lemma_pretty_round_trip(v: JValue)
    requires
        v.wf(),
        fits(v, MAX_DEPTH as nat),
    ensures
        parse_text(pretty(v, Seq::empty())) == Ok::<JValue, Fail>(v),
{
    let s = pretty(v, Seq::empty());
    lemma_pretty_first(v, Seq::empty());
    lemma_compact_first(v);
    assert(s.subrange(0, s.len() as int) =~= s);
    lemma_skip_one(s, 0);
    lemma_pvalue_rt(s, 0, v, MAX_DEPTH as nat, Seq::empty());
}

} // verus!
