//! The emitter: compact and indented JSON text, with the escape rules of
//! strings and the shortest decimal text of numbers.
use vstd::prelude::*;
use crate::value::{Value, JValue, Number, model, model_items, model_entries, lemma_model_items, lemma_model_entries};
use crate::text::{chars_of, string_of};

verus! {

broadcast use vstd::std_specs::vec::group_vec_axioms, vstd::seq::group_seq_axioms;

/// The character of decimal digit `d`.
pub open spec fn digit_char(d: nat) -> char {
    ((48 + d) as u32) as char
}

/// The decimal digits of `m`, most significant first; `0` for zero.
pub open spec fn digits(m: nat) -> Seq<char>
    decreases m,
{
    if m < 10 {
        seq![digit_char(m)]
    } else {
        digits(m / 10).push(digit_char(m % 10))
    }
}

/// `n` copies of `c`.
pub open spec fn repeat(c: char, n: nat) -> Seq<char> {
    Seq::new(n, |i: int| c)
}

/// A hexadecimal digit, lower case.
pub open spec fn hex_char(d: nat) -> char {
    if d < 10 { digit_char(d) } else { ((87 + d) as u32) as char }
}

/// How one character of a string is written between the quotes.
pub open spec fn escape_char(c: char) -> Seq<char> {
    if c == '"' {
        seq!['\\', '"']
    } else if c == '\\' {
        seq!['\\', '\\']
    } else if c == '\n' {
        seq!['\\', 'n']
    } else if c == '\r' {
        seq!['\\', 'r']
    } else if c == '\t' {
        seq!['\\', 't']
    } else if c == '\u{8}' {
        seq!['\\', 'b']
    } else if c == '\u{c}' {
        seq!['\\', 'f']
    } else if (c as u32) < 0x20 {
        seq!['\\', 'u', '0', '0', hex_char((c as u32 / 16) as nat), hex_char((c as u32 % 16) as nat)]
    } else {
        seq![c]
    }
}

/// The escaped text of `s`.
pub open spec fn escape(s: Seq<char>) -> Seq<char>
    decreases s.len(),
{
    if s.len() == 0 {
        Seq::empty()
    } else {
        escape(s.drop_last()) + escape_char(s.last())
    }
}

/// `s` as a JSON string literal.
pub open spec fn quoted(s: Seq<char>) -> Seq<char> {
    seq!['"'] + escape(s) + seq!['"']
}

/// The shortest decimal text of a number, without exponent notation.
pub open spec fn number_text(n: Number) -> Seq<char> {
    let d = digits(n.magnitude as nat);
    let body = if n.magnitude == 0 {
        seq!['0']
    } else if n.exponent >= 0 {
        d + repeat('0', n.exponent as nat)
    } else {
        let f = -n.exponent;
        if f < d.len() {
            d.take(d.len() - f) + seq!['.'] + d.skip(d.len() - f)
        } else {
            seq!['0', '.'] + repeat('0', (f - d.len()) as nat) + d
        }
    };
    if n.negative { seq!['-'] + body } else { body }
}

/// The compact text of a value: `", "` between elements, `": "` after keys.
pub open spec fn compact(v: JValue) -> Seq<char>
    decreases v,
{
    match v {
        JValue::Null => "null"@,
        JValue::Bool(b) => if b { "true"@ } else { "false"@ },
        JValue::Number(n) => number_text(n),
        JValue::Str(s) => quoted(s),
        JValue::Array(a) => seq!['['] + compact_items(a) + seq![']'],
        JValue::Object(e) => seq!['{'] + compact_entries(e) + seq!['}'],
    }
}

pub open spec fn compact_items(a: Seq<JValue>) -> Seq<char>
    decreases a,
{
    if a.len() == 0 {
        Seq::empty()
    } else if a.len() == 1 {
        compact(a[0])
    } else {
        compact_items(a.drop_last()) + seq![',', ' '] + compact(a.last())
    }
}

pub open spec fn compact_entries(e: Seq<(Seq<char>, JValue)>) -> Seq<char>
    decreases e,
{
    if e.len() == 0 {
        Seq::empty()
    } else if e.len() == 1 {
        quoted(e[0].0) + seq![':', ' '] + compact(e[0].1)
    } else {
        compact_entries(e.drop_last()) + seq![',', ' '] + quoted(e.last().0) + seq![':', ' ']
            + compact(e.last().1)
    }
}

/// The indented text of a value: one element per line, each level indented
/// by two more spaces than `pad`, empty containers as `[]` and `{}`.
pub open spec fn pretty(v: JValue, pad: Seq<char>) -> Seq<char>
    decreases v,
{
    match v {
        JValue::Array(a) => if a.len() == 0 {
            seq!['[', ']']
        } else {
            seq!['[', '\n'] + pretty_items(a, pad + seq![' ', ' ']) + seq!['\n'] + pad + seq![']']
        },
        JValue::Object(e) => if e.len() == 0 {
            seq!['{', '}']
        } else {
            seq!['{', '\n'] + pretty_entries(e, pad + seq![' ', ' ']) + seq!['\n'] + pad + seq!['}']
        },
        _ => compact(v),
    }
}

pub open spec fn pretty_items(a: Seq<JValue>, pad: Seq<char>) -> Seq<char>
    decreases a,
{
    if a.len() == 0 {
        Seq::empty()
    } else if a.len() == 1 {
        pad + pretty(a[0], pad)
    } else {
        pretty_items(a.drop_last(), pad) + seq![',', '\n'] + pad + pretty(a.last(), pad)
    }
}

pub open spec fn pretty_entries(e: Seq<(Seq<char>, JValue)>, pad: Seq<char>) -> Seq<char>
    decreases e,
{
    if e.len() == 0 {
        Seq::empty()
    } else if e.len() == 1 {
        pad + quoted(e[0].0) + seq![':', ' '] + pretty(e[0].1, pad)
    } else {
        pretty_entries(e.drop_last(), pad) + seq![',', '\n'] + pad + quoted(e.last().0) + seq![
            ':',
            ' ',
        ] + pretty(e.last().1, pad)
    }
}

/// Appends the characters of `s`.
pub fn push_str(out: &mut Vec<char>, s: &str)
    ensures
        final(out)@ == old(out)@ + s@,
{
    let c = chars_of(s);
    let ghost start = out@;
    let mut i: usize = 0;
    while i < c.len()
        invariant
            i <= c.len(),
            c@ == s@,
            out@ == start + c@.take(i as int),
        decreases c.len() - i,
    {
        out.push(c[i]);
        i += 1;
        proof {
            assert(out@ =~= start + c@.take(i as int));
        }
    }
    proof {
        assert(c@.take(c.len() as int) =~= c@);
    }
}

fn digit(d: u64) -> (r: char)
    requires
        d < 16,
    ensures
        r == hex_char(d as nat),
{
    if d < 10 {
        ((48 + d) as u8) as char
    } else {
        ((87 + d) as u8) as char
    }
}

/// Appends the decimal digits of `m`.
pub fn write_digits(m: u64, out: &mut Vec<char>)
    ensures
        final(out)@ == old(out)@ + digits(m as nat),
    decreases m,
{
    if m >= 10 {
        write_digits(m / 10, out);
    }
    out.push(digit(m % 10));
    proof {
        if m >= 10 {
            assert(digits(m as nat) == digits((m / 10) as nat).push(digit_char((m % 10) as nat)));
        }
    }
}

/// Appends a run of `n` zero digits.
fn write_zeros(n: u64, out: &mut Vec<char>)
    ensures
        final(out)@ == old(out)@ + repeat('0', n as nat),
{
    let ghost start = out@;
    let mut i: u64 = 0;
    while i < n
        invariant
            i <= n,
            out@ == start + repeat('0', i as nat),
        decreases n - i,
    {
        out.push('0');
        i += 1;
        proof {
            assert(out@ =~= start + repeat('0', i as nat));
        }
    }
}

/// Appends `d[from..to]`.
fn push_range(out: &mut Vec<char>, d: &Vec<char>, from: usize, to: usize)
    requires
        from <= to <= d.len(),
    ensures
        final(out)@ == old(out)@ + d@.subrange(from as int, to as int),
{
    let ghost start = out@;
    let mut i: usize = from;
    while i < to
        invariant
            from <= i <= to,
            to <= d.len(),
            out@ == start + d@.subrange(from as int, i as int),
        decreases to - i,
    {
        out.push(d[i]);
        i += 1;
        proof {
            assert(out@ =~= start + d@.subrange(from as int, i as int));
        }
    }
}

/// The text of a number without its sign.
fn number_body(n: &Number, out: &mut Vec<char>)
    ensures
        final(out)@ == old(out)@ + (if n.negative { number_text(*n).drop_first() } else { number_text(*n) }),
{
    let ghost start = out@;
    let mut d: Vec<char> = Vec::new();
    write_digits(n.magnitude, &mut d);
    assert(d@ =~= digits(n.magnitude as nat));
    let ghost dd = d@;
    if n.magnitude == 0 {
        out.push('0');
        proof { assert(out@ =~= start + seq!['0']); }
    } else if n.exponent >= 0 {
        push_range(out, &d, 0, d.len());
        write_zeros(n.exponent as u64, out);
        proof { assert(dd.subrange(0, dd.len() as int) =~= dd); }
    } else {
        let f: u64 = if n.exponent == i32::MIN { 2147483648u64 } else { (-n.exponent) as u64 };
        if f < d.len() as u64 {
            let cut: usize = d.len() - f as usize;
            push_range(out, &d, 0, cut);
            out.push('.');
            push_range(out, &d, cut, d.len());
            proof {
                assert(dd.subrange(0, cut as int) =~= dd.take(cut as int));
                assert(dd.subrange(cut as int, dd.len() as int) =~= dd.skip(cut as int));
                assert(out@ =~= start + (dd.take(cut as int) + seq!['.'] + dd.skip(cut as int)));
            }
        } else {
            out.push('0');
            out.push('.');
            write_zeros(f - d.len() as u64, out);
            push_range(out, &d, 0, d.len());
            proof {
                assert(dd.subrange(0, dd.len() as int) =~= dd);
                assert(out@ =~= start + (seq!['0', '.'] + repeat('0', (f - dd.len()) as nat) + dd));
            }
        }
    }
    proof {
        if n.negative {
            let t = number_text(*n);
            assert(t.drop_first() =~= t.subrange(1, t.len() as int));
        }
    }
}

/// Appends the text of a number.
pub fn write_number(n: &Number, out: &mut Vec<char>)
    ensures
        final(out)@ == old(out)@ + number_text(*n),
{
    let ghost start = out@;
    if n.negative {
        out.push('-');
    }
    number_body(n, out);
    proof {
        let t = number_text(*n);
        if n.negative {
            assert(t =~= seq!['-'] + t.drop_first());
            assert(out@ =~= start + t);
        }
    }
}

/// Appends the escaped form of one character.
fn write_escaped_char(c: char, out: &mut Vec<char>)
    ensures
        final(out)@ == old(out)@ + escape_char(c),
{
    if c == '"' {
        out.push('\\');
        out.push('"');
    } else if c == '\\' {
        out.push('\\');
        out.push('\\');
    } else if c == '\n' {
        out.push('\\');
        out.push('n');
    } else if c == '\r' {
        out.push('\\');
        out.push('r');
    } else if c == '\t' {
        out.push('\\');
        out.push('t');
    } else if c == '\u{8}' {
        out.push('\\');
        out.push('b');
    } else if c == '\u{c}' {
        out.push('\\');
        out.push('f');
    } else if (c as u32) < 0x20 {
        let x: u32 = c as u32;
        out.push('\\');
        out.push('u');
        out.push('0');
        out.push('0');
        out.push(digit((x / 16) as u64));
        out.push(digit((x % 16) as u64));
    } else {
        out.push(c);
    }
    proof {
        assert(out@ =~= old(out)@ + escape_char(c));
    }
}

/// Appends `s` as a JSON string literal.
pub fn write_quoted(s: &str, out: &mut Vec<char>)
    ensures
        final(out)@ == old(out)@ + quoted(s@),
{
    let ghost start = out@;
    let c = chars_of(s);
    out.push('"');
    let mut i: usize = 0;
    while i < c.len()
        invariant
            i <= c.len(),
            out@ == start + seq!['"'] + escape(c@.take(i as int)),
        decreases c.len() - i,
    {
        write_escaped_char(c[i], out);
        proof {
            assert(c@.take(i + 1).drop_last() =~= c@.take(i as int));
        }
        i += 1;
    }
    out.push('"');
    proof {
        assert(c@.take(c.len() as int) =~= s@);
        assert(out@ =~= start + quoted(s@));
    }
}

/// Appends the compact text of `v`.
pub fn write_compact(v: &Value, out: &mut Vec<char>)
    ensures
        final(out)@ == old(out)@ + compact(v@),
    decreases v,
{
    let ghost start = out@;
    match v {
        Value::Null => push_str(out, "null"),
        Value::Bool(b) => if *b {
            push_str(out, "true")
        } else {
            push_str(out, "false")
        },
        Value::Number(n) => write_number(n, out),
        Value::String(s) => write_quoted(s.as_str(), out),
        Value::Array(a) => {
            proof {
                lemma_model_items(a@);
                assert forall|j: int| 0 <= j < a.len() implies decreases_to!(*v => a@[j]) by {
                    assert(decreases_to!(*v => v->Array_0));
                    assert(decreases_to!(*a => a@));
                    assert(decreases_to!(a@ => a@[j]));
                }
            }
            let ghost m = model_items(a@);
            out.push('[');
            let mut i: usize = 0;
            while i < a.len()
                invariant
                    i <= a.len(),
                    m == model_items(a@),
                    m.len() == a.len(),
                    forall|j: int| 0 <= j < a.len() ==> #[trigger] m[j] == model(a@[j]),
                    forall|j: int| 0 <= j < a.len() ==> decreases_to!(*v => a@[j]),
                    out@ == start + seq!['['] + compact_items(m.take(i as int)),
                decreases a.len() - i,
            {
                if i > 0 {
                    out.push(',');
                    out.push(' ');
                }
                write_compact(&a[i], out);
                proof {
                    assert(m.take(i + 1).drop_last() =~= m.take(i as int));
                    if i == 0 {
                        assert(compact_items(m.take(1)) == compact(m[0]));
                    }
                    assert(out@ =~= start + seq!['['] + compact_items(m.take(i + 1)));
                }
                i += 1;
            }
            out.push(']');
            proof {
                assert(m.take(a.len() as int) =~= m);
                assert(out@ =~= start + compact(v@));
            }
        },
        Value::Object(e) => {
            proof {
                lemma_model_entries(e@);
                assert forall|j: int| 0 <= j < e.len() implies decreases_to!(*v => e@[j].1) by {
                    assert(decreases_to!(*v => v->Object_0));
                    assert(decreases_to!(*e => e@));
                    assert(decreases_to!(e@ => e@[j]));
                    assert(decreases_to!(e@[j] => e@[j].1));
                }
            }
            let ghost m = model_entries(e@);
            out.push('{');
            let mut i: usize = 0;
            while i < e.len()
                invariant
                    i <= e.len(),
                    m == model_entries(e@),
                    m.len() == e.len(),
                    forall|j: int| 0 <= j < e.len() ==> #[trigger] m[j] == (e@[j].0@, model(e@[j].1)),
                    forall|j: int| 0 <= j < e.len() ==> decreases_to!(*v => e@[j].1),
                    out@ == start + seq!['{'] + compact_entries(m.take(i as int)),
                decreases e.len() - i,
            {
                if i > 0 {
                    out.push(',');
                    out.push(' ');
                }
                write_quoted(e[i].0.as_str(), out);
                out.push(':');
                out.push(' ');
                write_compact(&e[i].1, out);
                proof {
                    assert(m.take(i + 1).drop_last() =~= m.take(i as int));
                    assert(out@ =~= start + seq!['{'] + compact_entries(m.take(i + 1)));
                }
                i += 1;
            }
            out.push('}');
            proof {
                assert(m.take(e.len() as int) =~= m);
                assert(out@ =~= start + compact(v@));
            }
        },
    }
}

/// Appends the indented text of `v`, whose enclosing lines are indented by `pad`.
pub fn write_pretty(v: &Value, pad: &Vec<char>, out: &mut Vec<char>)
    ensures
        final(out)@ == old(out)@ + pretty(v@, pad@),
    decreases v,
{
    let ghost start = out@;
    match v {
        Value::Array(a) => {
            if a.len() == 0 {
                out.push('[');
                out.push(']');
                proof {
                    lemma_model_items(a@);
                    assert(out@ =~= start + pretty(v@, pad@));
                }
                return;
            }
            proof {
                lemma_model_items(a@);
                assert forall|j: int| 0 <= j < a.len() implies decreases_to!(*v => a@[j]) by {
                    assert(decreases_to!(*v => v->Array_0));
                    assert(decreases_to!(*a => a@));
                    assert(decreases_to!(a@ => a@[j]));
                }
            }
            let ghost m = model_items(a@);
            let mut inner: Vec<char> = pad.clone();
            inner.push(' ');
            inner.push(' ');
            let ghost ip = inner@;
            out.push('[');
            out.push('\n');
            let mut i: usize = 0;
            while i < a.len()
                invariant
                    i <= a.len(),
                    m == model_items(a@),
                    m.len() == a.len(),
                    inner@ == ip,
                    forall|j: int| 0 <= j < a.len() ==> #[trigger] m[j] == model(a@[j]),
                    forall|j: int| 0 <= j < a.len() ==> decreases_to!(*v => a@[j]),
                    out@ == start + seq!['[', '\n'] + pretty_items(m.take(i as int), ip),
                decreases a.len() - i,
            {
                if i > 0 {
                    out.push(',');
                    out.push('\n');
                }
                push_range(out, &inner, 0, inner.len());
                write_pretty(&a[i], &inner, out);
                proof {
                    assert(inner@.subrange(0, inner@.len() as int) =~= ip);
                    assert(m.take(i + 1).drop_last() =~= m.take(i as int));
                    assert(out@ =~= start + seq!['[', '\n'] + pretty_items(m.take(i + 1), ip));
                }
                i += 1;
            }
            out.push('\n');
            push_range(out, pad, 0, pad.len());
            out.push(']');
            proof {
                assert(pad@.subrange(0, pad@.len() as int) =~= pad@);
                assert(ip =~= pad@ + seq![' ', ' ']);
                assert(m.take(a.len() as int) =~= m);
                assert(out@ =~= start + pretty(v@, pad@));
            }
        },
        Value::Object(e) => {
            if e.len() == 0 {
                out.push('{');
                out.push('}');
                proof {
                    lemma_model_entries(e@);
                    assert(out@ =~= start + pretty(v@, pad@));
                }
                return;
            }
            proof {
                lemma_model_entries(e@);
                assert forall|j: int| 0 <= j < e.len() implies decreases_to!(*v => e@[j].1) by {
                    assert(decreases_to!(*v => v->Object_0));
                    assert(decreases_to!(*e => e@));
                    assert(decreases_to!(e@ => e@[j]));
                    assert(decreases_to!(e@[j] => e@[j].1));
                }
            }
            let ghost m = model_entries(e@);
            let mut inner: Vec<char> = pad.clone();
            inner.push(' ');
            inner.push(' ');
            let ghost ip = inner@;
            out.push('{');
            out.push('\n');
            let mut i: usize = 0;
            while i < e.len()
                invariant
                    i <= e.len(),
                    m == model_entries(e@),
                    m.len() == e.len(),
                    inner@ == ip,
                    forall|j: int| 0 <= j < e.len() ==> #[trigger] m[j] == (e@[j].0@, model(e@[j].1)),
                    forall|j: int| 0 <= j < e.len() ==> decreases_to!(*v => e@[j].1),
                    out@ == start + seq!['{', '\n'] + pretty_entries(m.take(i as int), ip),
                decreases e.len() - i,
            {
                if i > 0 {
                    out.push(',');
                    out.push('\n');
                }
                push_range(out, &inner, 0, inner.len());
                write_quoted(e[i].0.as_str(), out);
                out.push(':');
                out.push(' ');
                write_pretty(&e[i].1, &inner, out);
                proof {
                    assert(inner@.subrange(0, inner@.len() as int) =~= ip);
                    assert(m.take(i + 1).drop_last() =~= m.take(i as int));
                    assert(out@ =~= start + seq!['{', '\n'] + pretty_entries(m.take(i + 1), ip));
                }
                i += 1;
            }
            out.push('\n');
            push_range(out, pad, 0, pad.len());
            out.push('}');
            proof {
                assert(pad@.subrange(0, pad@.len() as int) =~= pad@);
                assert(ip =~= pad@ + seq![' ', ' ']);
                assert(m.take(e.len() as int) =~= m);
                assert(out@ =~= start + pretty(v@, pad@));
            }
        },
        _ => write_compact(v, out),
    }
}

/// The compact text of `v`.
pub fn emit_compact(v: &Value) -> (r: String)
    ensures
        r@ == compact(v@),
{
    let mut out: Vec<char> = Vec::new();
    write_compact(v, &mut out);
    assert(out@ =~= compact(v@));
    string_of(&out)
}

/// The indented text of `v`.
pub fn emit_pretty(v: &Value) -> (r: String)
    ensures
        r@ == pretty(v@, Seq::empty()),
{
    let mut out: Vec<char> = Vec::new();
    let pad: Vec<char> = Vec::new();
    write_pretty(v, &pad, &mut out);
    assert(out@ =~= pretty(v@, Seq::empty()));
    string_of(&out)
}

} // verus!
