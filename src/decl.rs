//! The declaration surface of records and tagged unions: fields with their
//! directives, variants with their kinds.
use vstd::prelude::*;
use crate::text::{chars_of, string_of};

verus! {

/// A field of a record or of a named variant.
#[derive(Debug)]
pub struct Field {
    /// The field's name in the declaration.
    pub name: String,
    /// The key it is written under, when a `rename` directive gives one.
    pub rename: Option<String>,
    /// The `skip` directive: never written, the carrier's default when read.
    pub skip: bool,
    /// The `skip_if_none` directive: not written when absent.
    pub skip_if_none: bool,
    /// The declared carrier is optional.
    pub is_option: bool,
}

/// The shape of a variant.
#[derive(Debug)]
pub enum VariantKind {
    /// No data.
    Unit,
    /// Positional elements, by declared carrier.
    Tuple(Vec<String>),
    /// Named fields.
    Struct(Vec<Field>),
}

/// A variant of a tagged union.
#[derive(Debug)]
pub struct Variant {
    pub name: String,
    pub rename: Option<String>,
    pub kind: VariantKind,
}

/// A parsed declaration.
#[derive(Debug)]
pub enum InputType {
    Struct { name: String, fields: Vec<Field> },
    Enum { name: String, variants: Vec<Variant> },
    Unknown,
}

/// The key a field is written under: its `rename`, else its name.
pub open spec fn field_wire(f: Field) -> Seq<char> {
    match f.rename {
        Some(r) => r@,
        None => f.name@,
    }
}

/// The tag a variant is written under: its `rename`, else its name.
pub open spec fn variant_wire(v: Variant) -> Seq<char> {
    match v.rename {
        Some(r) => r@,
        None => v.name@,
    }
}

impl Field {
    /// A field with no directives.
    pub fn new(name: &str, is_option: bool) -> (r: Field)
        ensures
            r.name@ == name@,
            r.rename is None,
            !r.skip && !r.skip_if_none,
            r.is_option == is_option,
    {
        Field { name: name.to_string(), rename: None, skip: false, skip_if_none: false, is_option }
    }

    /// A field with the given directives.
    pub fn with(name: &str, rename: Option<&str>, skip: bool, skip_if_none: bool, is_option: bool) -> (r: Field)
        ensures
            r.name@ == name@,
            r.rename matches Some(x) ==> rename matches Some(y) && x@ == y@,
            r.rename is None ==> rename is None,
            r.skip == skip,
            r.skip_if_none == skip_if_none,
            r.is_option == is_option,
    {
        let rename = match rename {
            Some(x) => Some(x.to_string()),
            None => None,
        };
        Field { name: name.to_string(), rename, skip, skip_if_none, is_option }
    }

    /// The key this field is written under.
    pub fn wire_name(&self) -> (r: &str)
        ensures
            r@ == field_wire(*self),
    {
        match &self.rename {
            Some(r) => r.as_str(),
            None => self.name.as_str(),
        }
    }
}

impl Variant {
    /// A variant with an optional `rename` directive.
    pub fn with(name: &str, rename: Option<&str>, kind: VariantKind) -> (r: Variant)
        ensures
            r.name@ == name@,
            r.rename matches Some(x) ==> rename matches Some(y) && x@ == y@,
            r.rename is None ==> rename is None,
            r.kind == kind,
    {
        let rename = match rename {
            Some(x) => Some(x.to_string()),
            None => None,
        };
        Variant { name: name.to_string(), rename, kind }
    }

    /// The tag this variant is written under.
    pub fn wire_name(&self) -> (r: &str)
        ensures
            r@ == variant_wire(*self),
    {
        match &self.rename {
            Some(r) => r.as_str(),
            None => self.name.as_str(),
        }
    }
}


pub open spec fn is_space(c: char) -> bool {
    c == ' ' || c == '\t' || c == '\n' || c == '\r'
}

pub open spec fn is_ident_char(c: char) -> bool {
    ('a' <= c && c <= 'z') || ('A' <= c && c <= 'Z') || ('0' <= c && c <= '9') || c == '_'
}

pub open spec fn opens(c: char) -> bool {
    c == '(' || c == '[' || c == '{' || c == '<'
}

pub open spec fn closes(c: char) -> bool {
    c == ')' || c == ']' || c == '}' || c == '>'
}

/// Position `i` lies inside a string literal that starts at or after
/// `from`; a quote after a backslash does not end one.
pub open spec fn in_str(s: Seq<char>, from: int, i: int) -> bool
    decreases i - from,
{
    if i <= from {
        false
    } else {
        let b = in_str(s, from, i - 1);
        let c = s[i - 1];
        if b {
            !(c == '"' && !(i - 2 >= from && s[i - 2] == '\\'))
        } else {
            c == '"'
        }
    }
}

/// The character at `i` opens a bracket: outside string literals.
pub open spec fn opener(s: Seq<char>, from: int, i: int) -> bool {
    !in_str(s, from, i) && opens(s[i])
}

/// The character at `i` closes a bracket: outside string literals, and not
/// the `>` of an arrow `->`.
pub open spec fn closer(s: Seq<char>, from: int, i: int) -> bool {
    !in_str(s, from, i) && closes(s[i]) && !(s[i] == '>' && i - 1 >= from && s[i - 1] == '-')
}

/// The bracket nesting depth just before position `i` of `s`, counted from
/// position `from`.
pub open spec fn depth(s: Seq<char>, from: int, i: int) -> int
    decreases i - from,
{
    if i <= from {
        0
    } else {
        let d = depth(s, from, i - 1);
        if opener(s, from, i - 1) { d + 1 } else if closer(s, from, i - 1) { d - 1 } else { d }
    }
}

/// The position of the bracket that closes the one opened at `open`: the
/// first position after it where the depth counted from `open` returns to
/// zero, from position `i` on.
pub open spec fn close_from(s: Seq<char>, open: int, i: int) -> Option<int>
    decreases s.len() - i,
{
    if i < 0 || i >= s.len() || i <= open {
        None
    } else if closer(s, open, i) && depth(s, open, i) == 1 {
        Some(i)
    } else {
        close_from(s, open, i + 1)
    }
}

/// The first position at or after `i` holding `c`.
pub open spec fn find_char(s: Seq<char>, c: char, i: int) -> Option<int>
    decreases s.len() - i,
{
    if i < 0 || i >= s.len() {
        None
    } else if s[i] == c {
        Some(i)
    } else {
        find_char(s, c, i + 1)
    }
}

/// The pieces of `s[from..to)` between the commas at nesting depth zero
/// (counted from `from`), pieces of whitespace alone left out; `start` is
/// where the current piece began, `i` the position reached.
pub open spec fn pieces(s: Seq<char>, from: int, to: int, start: int, i: int) -> Seq<(int, int)>
    decreases to - i,
{
    if i >= to {
        if blank(s, start, to) { Seq::empty() } else { seq![(start, to)] }
    } else if s[i] == ',' && depth(s, from, i) == 0 && !in_str(s, from, i) {
        let rest = pieces(s, from, to, i + 1, i + 1);
        if blank(s, start, i) { rest } else { seq![(start, i)] + rest }
    } else {
        pieces(s, from, to, start, i + 1)
    }
}

/// `s[a..b)` is whitespace alone.
pub open spec fn blank(s: Seq<char>, a: int, b: int) -> bool {
    forall|j: int| a <= j < b ==> is_space(#[trigger] s[j])
}

/// The text of `s[a..b)` without the whitespace around it.
pub open spec fn trimmed(s: Seq<char>, a: int, b: int) -> Seq<char>
    decreases b - a,
{
    if a < b && is_space(s[a]) {
        trimmed(s, a + 1, b)
    } else if a < b && is_space(s[b - 1]) {
        trimmed(s, a, b - 1)
    } else if a < b {
        s.subrange(a, b)
    } else {
        Seq::empty()
    }
}

/// The characters of `t` that are not whitespace.
pub open spec fn squeeze(t: Seq<char>) -> Seq<char>
    decreases t.len(),
{
    if t.len() == 0 {
        t
    } else if is_space(t.last()) {
        squeeze(t.drop_last())
    } else {
        squeeze(t.drop_last()).push(t.last())
    }
}


/// The directives read from a declaration's attributes.
pub struct Directives {
    pub skip: bool,
    pub skip_if_none: bool,
    pub rename: Option<Seq<char>>,
}

/// The model of a [`Field`].
pub struct FieldModel {
    pub name: Seq<char>,
    pub rename: Option<Seq<char>>,
    pub skip: bool,
    pub skip_if_none: bool,
    pub is_option: bool,
}

pub open spec fn field_model(f: Field) -> FieldModel {
    FieldModel {
        name: f.name@,
        rename: match f.rename {
            Some(r) => Some(r@),
            None => None,
        },
        skip: f.skip,
        skip_if_none: f.skip_if_none,
        is_option: f.is_option,
    }
}

pub open spec fn fields_model(v: Seq<Field>) -> Seq<FieldModel> {
    Seq::new(v.len(), |i: int| field_model(v[i]))
}

/// The text that opens a group of directives.
pub open spec fn attr_open() -> Seq<char> {
    seq!['#', '[', 'f', 'a', 's', 't', 'j', 's', 'o', 'n', '(']
}

pub open spec fn lit_at(s: Seq<char>, i: int, w: Seq<char>) -> bool {
    0 <= i && i + w.len() <= s.len() && s.subrange(i, i + w.len()) == w
}

/// What one directive item `s[x..y)` sets: `skip`, `skip_if_none`, or
/// `rename = "name"`.
pub open spec fn apply_item(s: Seq<char>, x: int, y: int, d: Directives) -> Directives {
    let t = trimmed(s, x, y);
    if t == seq!['s', 'k', 'i', 'p'] {
        Directives { skip: true, ..d }
    } else if t == seq!['s', 'k', 'i', 'p', '_', 'i', 'f', '_', 'n', 'o', 'n', 'e'] {
        Directives { skip_if_none: true, ..d }
    } else if t.len() >= 6 && t.take(6) == seq!['r', 'e', 'n', 'a', 'm', 'e'] {
        match find_char(s, '"', x) {
            Some(q1) => if q1 < y {
                match find_char(s, '"', q1 + 1) {
                    Some(q2) => if q2 < y {
                        Directives { rename: Some(s.subrange(q1 + 1, q2)), ..d }
                    } else {
                        d
                    },
                    None => d,
                }
            } else {
                d
            },
            None => d,
        }
    } else {
        d
    }
}

pub open spec fn apply_items(s: Seq<char>, items: Seq<(int, int)>, d: Directives) -> Directives
    decreases items.len(),
{
    if items.len() == 0 {
        d
    } else {
        apply_item(s, items.last().0, items.last().1, apply_items(s, items.drop_last(), d))
    }
}

/// The directives of the attribute groups in `s[i..end)`.
pub open spec fn directives_from(s: Seq<char>, i: int, end: int, d: Directives) -> Directives
    decreases end - i,
{
    if i >= end {
        d
    } else if lit_at(s, i, attr_open()) {
        let open = i + 10;
        match close_from(s, open, open + 1) {
            Some(c) => if i < c < end {
                directives_from(s, c + 1, end, apply_items(s, pieces(s, open + 1, c, open + 1, open + 1), d))
            } else {
                d
            },
            None => d,
        }
    } else {
        directives_from(s, i + 1, end, d)
    }
}


/// The first `:` at nesting depth zero in `s[a..b)`, from position `i` on.
pub open spec fn colon_from(s: Seq<char>, a: int, b: int, i: int) -> Option<int>
    decreases b - i,
{
    if i < 0 || i >= b || i >= s.len() {
        None
    } else if s[i] == ':' && depth(s, a, i) == 0 && !in_str(s, a, i) {
        Some(i)
    } else {
        colon_from(s, a, b, i + 1)
    }
}

/// Moves back from `j` over whitespace, not before `a`.
pub open spec fn back_space(s: Seq<char>, a: int, j: int) -> int
    decreases j - a,
{
    if j > a && is_space(s[j - 1]) {
        back_space(s, a, j - 1)
    } else {
        j
    }
}

/// Moves back from `j` over identifier characters, not before `a`.
pub open spec fn back_ident(s: Seq<char>, a: int, j: int) -> int
    decreases j - a,
{
    if j > a && is_ident_char(s[j - 1]) {
        back_ident(s, a, j - 1)
    } else {
        j
    }
}

pub open spec fn option_prefix() -> Seq<char> {
    seq!['O', 'p', 't', 'i', 'o', 'n', '<']
}

pub open spec fn no_directives() -> Directives {
    Directives { skip: false, skip_if_none: false, rename: None }
}

/// The field declared by `s[a..b)`: directives, then its name, a `:` and its
/// carrier, which is optional when it reads `Option<...>`.
pub open spec fn field_of(s: Seq<char>, a: int, b: int) -> Option<FieldModel> {
    match colon_from(s, a, b, a) {
        None => None,
        Some(c) => {
            let ne = back_space(s, a, c);
            let ns = back_ident(s, a, ne);
            let d = directives_from(s, a, ns, no_directives());
            let ty = squeeze(s.subrange(c + 1, b));
            Some(FieldModel {
                name: s.subrange(ns, ne),
                rename: d.rename,
                skip: d.skip,
                skip_if_none: d.skip_if_none,
                is_option: ty.len() >= 7 && ty.take(7) == option_prefix(),
            })
        },
    }
}

/// The fields declared by the pieces `ps` of `s`, in order.
pub open spec fn fields_of(s: Seq<char>, ps: Seq<(int, int)>) -> Seq<FieldModel>
    decreases ps.len(),
{
    if ps.len() == 0 {
        Seq::empty()
    } else {
        let r = fields_of(s, ps.drop_last());
        match field_of(s, ps.last().0, ps.last().1) {
            Some(f) => r.push(f),
            None => r,
        }
    }
}

/// The body `{ ... }` of a declaration: the first `{` and its closing `}`.
pub open spec fn body_of(s: Seq<char>) -> Option<(int, int)> {
    let from = match item_keyword(s) {
        Some((k, _)) => k,
        None => 0,
    };
    match find_char(s, '{', from) {
        Some(o) => match close_from(s, o, o + 1) {
            Some(c) => Some((o + 1, c)),
            None => None,
        },
        None => None,
    }
}

/// The fields of a record declaration.
pub open spec fn struct_fields(s: Seq<char>) -> Seq<FieldModel> {
    match body_of(s) {
        Some((x, y)) => fields_of(s, pieces(s, x, y, x, x)),
        None => Seq::empty(),
    }
}

fn find_char_exec(s: &Vec<char>, c: char, i: usize) -> (r: Option<usize>)
    ensures
        r matches Some(k) ==> find_char(s@, c, i as int) == Some(k as int) && i <= k < s.len(),
        r is None ==> find_char(s@, c, i as int) is None,
{
    let mut k = i;
    while k < s.len()
        invariant
            i <= k,
            find_char(s@, c, i as int) == find_char(s@, c, k as int),
        decreases s.len() - k,
    {
        if s[k] == c {
            return Some(k);
        }
        k += 1;
    }
    None
}

/// The scan state after position `i`: bracket depth and string literal.
fn scan_step(s: &Vec<char>, from: usize, i: usize, d: i128, q: bool) -> (r: (i128, bool))
    requires
        from <= i < s.len(),
        d == depth(s@, from as int, i as int),
        q == in_str(s@, from as int, i as int),
        -0x1_0000_0000_0000_0000 < d < 0x1_0000_0000_0000_0000,
    ensures
        r.0 == depth(s@, from as int, i + 1),
        r.1 == in_str(s@, from as int, i + 1),
{
    let c = s[i];
    let nq = if q {
        !(c == '"' && !(i > from && s[i - 1] == '\\'))
    } else {
        c == '"'
    };
    let nd = if closer_exec(s, from, i, q) {
        d - 1
    } else if !q && (c == '(' || c == '[' || c == '{' || c == '<') {
        d + 1
    } else {
        d
    };
    (nd, nq)
}

fn closer_exec(s: &Vec<char>, from: usize, i: usize, q: bool) -> (r: bool)
    requires
        from <= i < s.len(),
        q == in_str(s@, from as int, i as int),
    ensures
        r == closer(s@, from as int, i as int),
{
    let c = s[i];
    !q && (c == ')' || c == ']' || c == '}' || c == '>') && !(c == '>' && i > from && s[i - 1] == '-')
}

pub proof fn lemma_depth_bound(s: Seq<char>, from: int, i: int)
    ensures
        i >= from ==> -(i - from) <= depth(s, from, i) <= i - from,
    decreases i - from,
{
    if i > from {
        lemma_depth_bound(s, from, i - 1);
    }
}

/// The position of the bracket that closes the one at `open`.
fn close_exec(s: &Vec<char>, open: usize) -> (r: Option<usize>)
    requires
        open < s.len(),
    ensures
        r matches Some(k) ==> close_from(s@, open as int, open + 1) == Some(k as int) && open < k < s.len(),
        r is None ==> close_from(s@, open as int, open + 1) is None,
{
    let mut k = open + 1;
    let (d0, q0) = scan_step(s, open, open, 0, false);
    let mut d: i128 = d0;
    let mut q: bool = q0;
    while k < s.len()
        invariant
            open < k <= s.len(),
            d == depth(s@, open as int, k as int),
            q == in_str(s@, open as int, k as int),
            close_from(s@, open as int, open + 1) == close_from(s@, open as int, k as int),
        decreases s.len() - k,
    {
        proof {
            lemma_depth_bound(s@, open as int, k as int);
        }
        if closer_exec(s, open, k, q) && d == 1 {
            return Some(k);
        }
        let (nd, nq) = scan_step(s, open, k, d, q);
        d = nd;
        q = nq;
        k += 1;
    }
    None
}


fn blank_exec(s: &Vec<char>, a: usize, b: usize) -> (r: bool)
    requires
        a <= b <= s.len(),
    ensures
        r == blank(s@, a as int, b as int),
{
    let mut k = a;
    while k < b
        invariant
            a <= k <= b,
            b <= s.len(),
            blank(s@, a as int, k as int),
        decreases b - k,
    {
        if !(s[k] == ' ' || s[k] == '\t' || s[k] == '\n' || s[k] == '\r') {
            return false;
        }
        k += 1;
    }
    true
}

/// The pieces of `s[from..to)` between commas at nesting depth zero.
fn pieces_exec(s: &Vec<char>, from: usize, to: usize) -> (r: Vec<(usize, usize)>)
    requires
        from <= to <= s.len(),
    ensures
        r@.len() == pieces(s@, from as int, to as int, from as int, from as int).len(),
        forall|j: int| 0 <= j < r@.len() ==> (#[trigger] r@[j]).0 as int == pieces(s@, from as int, to as int, from as int, from as int)[j].0
            && r@[j].1 as int == pieces(s@, from as int, to as int, from as int, from as int)[j].1,
        forall|j: int| 0 <= j < r@.len() ==> from <= (#[trigger] r@[j]).0 <= r@[j].1 <= to,
{
    let ghost total = pieces(s@, from as int, to as int, from as int, from as int);
    let mut out: Vec<(usize, usize)> = Vec::new();
    let ghost acc: Seq<(int, int)> = Seq::empty();
    let mut start = from;
    let mut k = from;
    let mut d: i128 = 0;
    let mut q: bool = false;
    while k < to
        invariant
            from <= start <= k <= to,
            to <= s.len(),
            d == depth(s@, from as int, k as int),
            q == in_str(s@, from as int, k as int),
            total == acc + pieces(s@, from as int, to as int, start as int, k as int),
            out@.len() == acc.len(),
            forall|j: int| 0 <= j < acc.len() ==> (#[trigger] out@[j]).0 as int == acc[j].0 && out@[j].1 as int == acc[j].1,
            forall|j: int| 0 <= j < acc.len() ==> from <= (#[trigger] out@[j]).0 <= out@[j].1 <= to,
        decreases to - k,
    {
        proof {
            lemma_depth_bound(s@, from as int, k as int);
        }
        let c = s[k];
        if c == ',' && d == 0 && !q {
            if !blank_exec(s, start, k) {
                out.push((start, k));
                proof {
                    acc = acc.push((start as int, k as int));
                    assert(seq![(start as int, k as int)] + pieces(s@, from as int, to as int, k + 1, k + 1) =~= seq![(start as int, k as int)].add(pieces(s@, from as int, to as int, k + 1, k + 1)));
                    assert(total =~= acc + pieces(s@, from as int, to as int, k + 1, k + 1));
                }
            }
            start = k + 1;
        }
        let (nd, nq) = scan_step(s, from, k, d, q);
        d = nd;
        q = nq;
        k += 1;
    }
    if !blank_exec(s, start, to) {
        out.push((start, to));
        proof {
            acc = acc.push((start as int, to as int));
            assert(total =~= acc);
        }
    } else {
        proof {
            assert(total =~= acc);
        }
    }
    out
}

/// The bounds of `s[a..b)` without the whitespace around it.
fn trim_range(s: &Vec<char>, a: usize, b: usize) -> (r: (usize, usize))
    requires
        a <= b <= s.len(),
    ensures
        a <= r.0 <= r.1 <= b,
        trimmed(s@, a as int, b as int) == s@.subrange(r.0 as int, r.1 as int),
{
    let mut x = a;
    let mut y = b;
    while x < y && (s[x] == ' ' || s[x] == '\t' || s[x] == '\n' || s[x] == '\r')
        invariant
            a <= x <= y,
            y == b,
            b <= s.len(),
            trimmed(s@, a as int, b as int) == trimmed(s@, x as int, y as int),
        decreases y - x,
    {
        x += 1;
    }
    while x < y && (s[y - 1] == ' ' || s[y - 1] == '\t' || s[y - 1] == '\n' || s[y - 1] == '\r')
        invariant
            a <= x <= y <= b,
            b <= s.len(),
            x < y ==> !is_space(s@[x as int]),
            trimmed(s@, a as int, b as int) == trimmed(s@, x as int, y as int),
        decreases y - x,
    {
        y -= 1;
    }
    proof {
        if x == y {
            assert(s@.subrange(x as int, y as int) =~= Seq::<char>::empty());
        }
    }
    (x, y)
}

/// The characters of `s[a..b)` that are not whitespace.
fn squeeze_exec(s: &Vec<char>, a: usize, b: usize) -> (r: Vec<char>)
    requires
        a <= b <= s.len(),
    ensures
        r@ == squeeze(s@.subrange(a as int, b as int)),
{
    let mut out: Vec<char> = Vec::new();
    let mut k = a;
    proof {
        assert(s@.subrange(a as int, a as int) =~= Seq::<char>::empty());
    }
    while k < b
        invariant
            a <= k <= b,
            b <= s.len(),
            out@ == squeeze(s@.subrange(a as int, k as int)),
        decreases b - k,
    {
        proof {
            assert(s@.subrange(a as int, k + 1).drop_last() =~= s@.subrange(a as int, k as int));
        }
        let c = s[k];
        if !(c == ' ' || c == '\t' || c == '\n' || c == '\r') {
            out.push(c);
        }
        k += 1;
    }
    out
}

/// `s[x..y)` reads `w`.
fn range_is(s: &Vec<char>, x: usize, y: usize, w: &str) -> (r: bool)
    requires
        x <= y <= s.len(),
    ensures
        r == (s@.subrange(x as int, y as int) == w@),
{
    let c = chars_of(w);
    if c.len() != y - x {
        return false;
    }
    let mut i: usize = 0;
    while i < c.len()
        invariant
            c@ == w@,
            c.len() == y - x,
            x <= y <= s.len(),
            i <= c.len(),
            forall|j: int| 0 <= j < i ==> s@[x + j] == c@[j],
        decreases c.len() - i,
    {
        if s[x + i] != c[i] {
            proof {
                assert(s@.subrange(x as int, y as int)[i as int] != w@[i as int]);
            }
            return false;
        }
        i += 1;
    }
    proof {
        assert(s@.subrange(x as int, y as int) =~= w@);
    }
    true
}


/// Directives as read so far; a rename as a range of the text.
struct Dir {
    skip: bool,
    skip_if_none: bool,
    rename: Option<(usize, usize)>,
}

spec fn dir_model(s: Seq<char>, d: Dir) -> Directives {
    Directives {
        skip: d.skip,
        skip_if_none: d.skip_if_none,
        rename: match d.rename {
            Some((a, b)) => Some(s.subrange(a as int, b as int)),
            None => None,
        },
    }
}

spec fn dir_ok(s: Seq<char>, d: Dir) -> bool {
    d.rename matches Some((a, b)) ==> a <= b <= s.len()
}

fn apply_item_exec(s: &Vec<char>, x: usize, y: usize, d: Dir) -> (r: Dir)
    requires
        x <= y <= s.len(),
        dir_ok(s@, d),
    ensures
        dir_model(s@, r) == apply_item(s@, x as int, y as int, dir_model(s@, d)),
        dir_ok(s@, r),
{
    let (tx, ty) = trim_range(s, x, y);
    proof {
        reveal_strlit("skip");
        reveal_strlit("skip_if_none");
        reveal_strlit("rename");
        assert("skip"@ =~= seq!['s', 'k', 'i', 'p']);
        assert("skip_if_none"@ =~= seq!['s', 'k', 'i', 'p', '_', 'i', 'f', '_', 'n', 'o', 'n', 'e']);
        assert("rename"@ =~= seq!['r', 'e', 'n', 'a', 'm', 'e']);
    }
    if range_is(s, tx, ty, "skip") {
        return Dir { skip: true, ..d };
    }
    if range_is(s, tx, ty, "skip_if_none") {
        return Dir { skip_if_none: true, ..d };
    }
    if ty - tx >= 6 && range_is(s, tx, tx + 6, "rename") {
        proof {
            assert(s@.subrange(tx as int, ty as int).take(6) =~= s@.subrange(tx as int, tx + 6));
        }
        match find_char_exec(s, '"', x) {
            Some(q1) => {
                if q1 < y {
                    match find_char_exec(s, '"', q1 + 1) {
                        Some(q2) => {
                            if q2 < y {
                                return Dir { rename: Some((q1 + 1, q2)), ..d };
                            }
                        },
                        None => {},
                    }
                }
            },
            None => {},
        }
        return d;
    }
    proof {
        if ty - tx >= 6 {
            assert(s@.subrange(tx as int, ty as int).take(6) =~= s@.subrange(tx as int, tx + 6));
        }
    }
    d
}

/// The directives of the attribute groups in `s[a..end)`.
fn directives_exec(s: &Vec<char>, a: usize, end: usize) -> (r: Dir)
    requires
        a <= end <= s.len(),
    ensures
        dir_model(s@, r) == directives_from(s@, a as int, end as int, no_directives()),
        dir_ok(s@, r),
{
    let mut d = Dir { skip: false, skip_if_none: false, rename: None };
    let mut i = a;
    proof {
        reveal_strlit("#[fastjson(");
        assert("#[fastjson("@ =~= attr_open());
        assert(dir_model(s@, d) == no_directives());
    }
    while i < end
        invariant
            a <= i,
            end <= s.len(),
            dir_ok(s@, d),
            directives_from(s@, a as int, end as int, no_directives()) == directives_from(s@, i as int, end as int, dir_model(s@, d)),
        decreases end - i,
    {
        proof {
            reveal_strlit("#[fastjson(");
            assert("#[fastjson("@ =~= attr_open());
        }
        let at = s.len() >= 11 && i <= s.len() - 11 && range_is(s, i, i + 11, "#[fastjson(");
        if at {
            let open = i + 10;
            match close_exec(s, open) {
                Some(c) => {
                    if i < c && c < end {
                        let ps = pieces_exec(s, open + 1, c);
                        let ghost items = pieces(s@, open + 1, c as int, open + 1, open + 1);
                        let mut j: usize = 0;
                        let ghost d0 = dir_model(s@, d);
                        proof {
                            assert(items.take(0) =~= Seq::<(int, int)>::empty());
                        }
                        while j < ps.len()
                            invariant
                                j <= ps.len(),
                                ps@.len() == items.len(),
                                forall|t: int| 0 <= t < ps@.len() ==> (#[trigger] ps@[t]).0 as int == items[t].0 && ps@[t].1 as int == items[t].1,
                                forall|t: int| 0 <= t < ps@.len() ==> open + 1 <= (#[trigger] ps@[t]).0 <= ps@[t].1 <= c,
                                c < s.len(),
                                dir_ok(s@, d),
                                dir_model(s@, d) == apply_items(s@, items.take(j as int), d0),
                            decreases ps.len() - j,
                        {
                            proof {
                                assert(items.take(j + 1).drop_last() =~= items.take(j as int));
                            }
                            d = apply_item_exec(s, ps[j].0, ps[j].1, d);
                            j += 1;
                        }
                        proof {
                            assert(items.take(ps.len() as int) =~= items);
                        }
                        i = c + 1;
                    } else {
                        return d;
                    }
                },
                None => {
                    return d;
                },
            }
        } else {
            i += 1;
        }
    }
    d
}


/// The text `s[a..b)`.
fn text_of(s: &Vec<char>, a: usize, b: usize) -> (r: String)
    requires
        a <= b <= s.len(),
    ensures
        r@ == s@.subrange(a as int, b as int),
{
    let mut v: Vec<char> = Vec::new();
    let mut k = a;
    while k < b
        invariant
            a <= k <= b,
            b <= s.len(),
            v@ == s@.subrange(a as int, k as int),
        decreases b - k,
    {
        v.push(s[k]);
        k += 1;
        proof {
            assert(v@ =~= s@.subrange(a as int, k as int));
        }
    }
    string_of(&v)
}

fn colon_exec(s: &Vec<char>, a: usize, b: usize) -> (r: Option<usize>)
    requires
        a <= b <= s.len(),
    ensures
        r matches Some(c) ==> colon_from(s@, a as int, b as int, a as int) == Some(c as int) && a <= c < b,
        r is None ==> colon_from(s@, a as int, b as int, a as int) is None,
{
    let mut k = a;
    let mut d: i128 = 0;
    let mut q: bool = false;
    while k < b
        invariant
            a <= k <= b,
            b <= s.len(),
            d == depth(s@, a as int, k as int),
            q == in_str(s@, a as int, k as int),
            colon_from(s@, a as int, b as int, a as int) == colon_from(s@, a as int, b as int, k as int),
        decreases b - k,
    {
        proof {
            lemma_depth_bound(s@, a as int, k as int);
        }
        if s[k] == ':' && d == 0 && !q {
            return Some(k);
        }
        let (nd, nq) = scan_step(s, a, k, d, q);
        d = nd;
        q = nq;
        k += 1;
    }
    None
}

fn back_space_exec(s: &Vec<char>, a: usize, j: usize) -> (r: usize)
    requires
        a <= j <= s.len(),
    ensures
        r == back_space(s@, a as int, j as int),
        a <= r <= j,
{
    let mut k = j;
    while k > a && (s[k - 1] == ' ' || s[k - 1] == '\t' || s[k - 1] == '\n' || s[k - 1] == '\r')
        invariant
            a <= k <= j,
            j <= s.len(),
            back_space(s@, a as int, j as int) == back_space(s@, a as int, k as int),
        decreases k,
    {
        k -= 1;
    }
    k
}

fn is_ident_exec(c: char) -> (r: bool)
    ensures
        r == is_ident_char(c),
{
    ('a' <= c && c <= 'z') || ('A' <= c && c <= 'Z') || ('0' <= c && c <= '9') || c == '_'
}

fn back_ident_exec(s: &Vec<char>, a: usize, j: usize) -> (r: usize)
    requires
        a <= j <= s.len(),
    ensures
        r == back_ident(s@, a as int, j as int),
        a <= r <= j,
{
    let mut k = j;
    while k > a && is_ident_exec(s[k - 1])
        invariant
            a <= k <= j,
            j <= s.len(),
            back_ident(s@, a as int, j as int) == back_ident(s@, a as int, k as int),
        decreases k,
    {
        k -= 1;
    }
    k
}

/// The field declared by `s[a..b)`.
fn extract_field(s: &Vec<char>, a: usize, b: usize) -> (r: Option<Field>)
    requires
        a <= b <= s.len(),
    ensures
        r matches Some(f) ==> field_of(s@, a as int, b as int) == Some(field_model(f)),
        r is None ==> field_of(s@, a as int, b as int) is None,
{
    let c = match colon_exec(s, a, b) {
        Some(c) => c,
        None => {
            return None;
        },
    };
    let ne = back_space_exec(s, a, c);
    let ns = back_ident_exec(s, a, ne);
    let d = directives_exec(s, a, ns);
    let ty = squeeze_exec(s, c + 1, b);
    proof {
        reveal_strlit("Option<");
        assert("Option<"@ =~= option_prefix());
    }
    let is_option = ty.len() >= 7 && range_is(&ty, 0, 7, "Option<");
    proof {
        if ty.len() >= 7 {
            assert(ty@.subrange(0, 7) =~= ty@.take(7));
        }
    }
    let rename = match d.rename {
        Some((x, y)) => Some(text_of(s, x, y)),
        None => None,
    };
    Some(Field { name: text_of(s, ns, ne), rename, skip: d.skip, skip_if_none: d.skip_if_none, is_option })
}

/// The fields declared by the pieces `ps` of `s`.
fn fields_exec(s: &Vec<char>, ps: &Vec<(usize, usize)>, ghost_ps: Ghost<Seq<(int, int)>>) -> (r: Vec<Field>)
    requires
        ps@.len() == ghost_ps@.len(),
        forall|j: int| 0 <= j < ps@.len() ==> (#[trigger] ps@[j]).0 as int == ghost_ps@[j].0 && ps@[j].1 as int == ghost_ps@[j].1,
        forall|j: int| 0 <= j < ps@.len() ==> (#[trigger] ps@[j]).0 <= ps@[j].1 <= s.len(),
    ensures
        fields_model(r@) == fields_of(s@, ghost_ps@),
{
    let mut out: Vec<Field> = Vec::new();
    let mut j: usize = 0;
    proof {
        assert(ghost_ps@.take(0) =~= Seq::<(int, int)>::empty());
        assert(fields_model(out@) =~= Seq::<FieldModel>::empty());
    }
    while j < ps.len()
        invariant
            j <= ps.len(),
            ps@.len() == ghost_ps@.len(),
            forall|t: int| 0 <= t < ps@.len() ==> (#[trigger] ps@[t]).0 as int == ghost_ps@[t].0 && ps@[t].1 as int == ghost_ps@[t].1,
            forall|t: int| 0 <= t < ps@.len() ==> (#[trigger] ps@[t]).0 <= ps@[t].1 <= s.len(),
            fields_model(out@) == fields_of(s@, ghost_ps@.take(j as int)),
        decreases ps.len() - j,
    {
        proof {
            assert(ghost_ps@.take(j + 1).drop_last() =~= ghost_ps@.take(j as int));
        }
        let ghost before = out@;
        match extract_field(s, ps[j].0, ps[j].1) {
            Some(f) => {
                out.push(f);
                proof {
                    assert(fields_model(out@) =~= fields_model(before).push(field_model(f)));
                }
            },
            None => {},
        }
        j += 1;
    }
    proof {
        assert(ghost_ps@.take(ps.len() as int) =~= ghost_ps@);
    }
    out
}

fn body_exec(s: &Vec<char>) -> (r: Option<(usize, usize)>)
    ensures
        r matches Some((x, y)) ==> body_of(s@) == Some((x as int, y as int)) && x <= y <= s.len(),
        r is None ==> body_of(s@) is None,
{
    let from = match keyword_exec(s) {
        Some((k, _)) => k,
        None => 0,
    };
    match find_char_exec(s, '{', from) {
        Some(o) => match close_exec(s, o) {
            Some(c) => Some((o + 1, c)),
            None => None,
        },
        None => None,
    }
}

/// The fields of the record declared in `input`.
pub fn extract_struct_fields(input: &str) -> (r: Vec<Field>)
    ensures
        fields_model(r@) == struct_fields(input@),
{
    let s = chars_of(input);
    match body_exec(&s) {
        Some((x, y)) => {
            let ps = pieces_exec(&s, x, y);
            fields_exec(&s, &ps, Ghost(pieces(s@, x as int, y as int, x as int, x as int)))
        },
        None => {
            proof {
                assert(fields_model(Seq::<Field>::empty()) =~= Seq::<FieldModel>::empty());
            }
            Vec::new()
        },
    }
}


/// Moves from `i` over whitespace and attribute groups `#[...]`.
pub open spec fn skip_attrs(s: Seq<char>, i: int, b: int) -> int
    decreases b - i,
{
    if i < 0 || i >= b || i >= s.len() {
        i
    } else if is_space(s[i]) {
        skip_attrs(s, i + 1, b)
    } else if s[i] == '#' && i + 1 < b && s[i + 1] == '[' {
        match close_from(s, i + 1, i + 2) {
            Some(c) => if i < c < b {
                skip_attrs(s, c + 1, b)
            } else {
                b
            },
            None => b,
        }
    } else {
        i
    }
}

/// Moves from `i` over identifier characters, not past `b`.
pub open spec fn fwd_ident(s: Seq<char>, i: int, b: int) -> int
    decreases b - i,
{
    if 0 <= i < b && i < s.len() && is_ident_char(s[i]) {
        fwd_ident(s, i + 1, b)
    } else {
        i
    }
}

/// Moves from `i` over whitespace, not past `b`.
pub open spec fn fwd_space(s: Seq<char>, i: int, b: int) -> int
    decreases b - i,
{
    if 0 <= i < b && i < s.len() && is_space(s[i]) {
        fwd_space(s, i + 1, b)
    } else {
        i
    }
}

pub enum KindModel {
    Unit,
    Tuple(Seq<Seq<char>>),
    Struct(Seq<FieldModel>),
}

pub struct VariantModel {
    pub name: Seq<char>,
    pub rename: Option<Seq<char>>,
    pub kind: KindModel,
}

pub open spec fn texts_model(v: Seq<String>) -> Seq<Seq<char>> {
    Seq::new(v.len(), |i: int| v[i]@)
}

pub open spec fn variant_model(v: Variant) -> VariantModel {
    VariantModel {
        name: v.name@,
        rename: match v.rename {
            Some(r) => Some(r@),
            None => None,
        },
        kind: match v.kind {
            VariantKind::Unit => KindModel::Unit,
            VariantKind::Tuple(ts) => KindModel::Tuple(texts_model(ts@)),
            VariantKind::Struct(fs) => KindModel::Struct(fields_model(fs@)),
        },
    }
}

pub open spec fn variants_model(v: Seq<Variant>) -> Seq<VariantModel> {
    Seq::new(v.len(), |i: int| variant_model(v[i]))
}

/// The carriers listed in the pieces `ps`, trimmed.
pub open spec fn types_of(s: Seq<char>, ps: Seq<(int, int)>) -> Seq<Seq<char>> {
    Seq::new(ps.len(), |i: int| trimmed(s, ps[i].0, ps[i].1))
}

/// The variant declared by `s[a..b)`: directives, its name, then `(...)`
/// with positional carriers, `{...}` with named fields, or nothing.
pub open spec fn variant_of(s: Seq<char>, a: int, b: int) -> Option<VariantModel> {
    let ns = skip_attrs(s, a, b);
    let ne = fwd_ident(s, ns, b);
    if ne == ns {
        None
    } else {
        let d = directives_from(s, a, ns, no_directives());
        let p = fwd_space(s, ne, b);
        let kind = if p < b && (s[p] == '(' || s[p] == '{') {
            match close_from(s, p, p + 1) {
                Some(c) => if c < b {
                    if s[p] == '(' {
                        KindModel::Tuple(types_of(s, pieces(s, p + 1, c, p + 1, p + 1)))
                    } else {
                        KindModel::Struct(fields_of(s, pieces(s, p + 1, c, p + 1, p + 1)))
                    }
                } else {
                    KindModel::Unit
                },
                None => KindModel::Unit,
            }
        } else {
            KindModel::Unit
        };
        Some(VariantModel { name: s.subrange(ns, ne), rename: d.rename, kind })
    }
}

pub open spec fn variants_of(s: Seq<char>, ps: Seq<(int, int)>) -> Seq<VariantModel>
    decreases ps.len(),
{
    if ps.len() == 0 {
        Seq::empty()
    } else {
        let r = variants_of(s, ps.drop_last());
        match variant_of(s, ps.last().0, ps.last().1) {
            Some(v) => r.push(v),
            None => r,
        }
    }
}

/// The variants of a tagged-union declaration.
pub open spec fn enum_variants(s: Seq<char>) -> Seq<VariantModel> {
    match body_of(s) {
        Some((x, y)) => variants_of(s, pieces(s, x, y, x, x)),
        None => Seq::empty(),
    }
}

fn skip_attrs_exec(s: &Vec<char>, a: usize, b: usize) -> (r: usize)
    requires
        a <= b <= s.len(),
    ensures
        r == skip_attrs(s@, a as int, b as int),
        a <= r <= b,
{
    let mut i = a;
    while i < b
        invariant
            a <= i <= b,
            b <= s.len(),
            skip_attrs(s@, a as int, b as int) == skip_attrs(s@, i as int, b as int),
        decreases b - i,
    {
        let c = s[i];
        if c == ' ' || c == '\t' || c == '\n' || c == '\r' {
            i += 1;
        } else if c == '#' && i + 1 < b && s[i + 1] == '[' {
            match close_exec(s, i + 1) {
                Some(k) => {
                    if i < k && k < b {
                        i = k + 1;
                    } else {
                        return b;
                    }
                },
                None => {
                    return b;
                },
            }
        } else {
            return i;
        }
    }
    i
}

fn fwd_ident_exec(s: &Vec<char>, i: usize, b: usize) -> (r: usize)
    requires
        i <= b <= s.len(),
    ensures
        r == fwd_ident(s@, i as int, b as int),
        i <= r <= b,
{
    let mut k = i;
    while k < b && is_ident_exec(s[k])
        invariant
            i <= k <= b,
            b <= s.len(),
            fwd_ident(s@, i as int, b as int) == fwd_ident(s@, k as int, b as int),
        decreases b - k,
    {
        k += 1;
    }
    k
}

fn fwd_space_exec(s: &Vec<char>, i: usize, b: usize) -> (r: usize)
    requires
        i <= b <= s.len(),
    ensures
        r == fwd_space(s@, i as int, b as int),
        i <= r <= b,
{
    let mut k = i;
    while k < b && (s[k] == ' ' || s[k] == '\t' || s[k] == '\n' || s[k] == '\r')
        invariant
            i <= k <= b,
            b <= s.len(),
            fwd_space(s@, i as int, b as int) == fwd_space(s@, k as int, b as int),
        decreases b - k,
    {
        k += 1;
    }
    k
}

fn types_exec(s: &Vec<char>, ps: &Vec<(usize, usize)>, ghost_ps: Ghost<Seq<(int, int)>>) -> (r: Vec<String>)
    requires
        ps@.len() == ghost_ps@.len(),
        forall|j: int| 0 <= j < ps@.len() ==> (#[trigger] ps@[j]).0 as int == ghost_ps@[j].0 && ps@[j].1 as int == ghost_ps@[j].1,
        forall|j: int| 0 <= j < ps@.len() ==> (#[trigger] ps@[j]).0 <= ps@[j].1 <= s.len(),
    ensures
        texts_model(r@) == types_of(s@, ghost_ps@),
{
    let mut out: Vec<String> = Vec::new();
    let mut j: usize = 0;
    while j < ps.len()
        invariant
            j <= ps.len(),
            out.len() == j,
            ps@.len() == ghost_ps@.len(),
            forall|t: int| 0 <= t < ps@.len() ==> (#[trigger] ps@[t]).0 as int == ghost_ps@[t].0 && ps@[t].1 as int == ghost_ps@[t].1,
            forall|t: int| 0 <= t < ps@.len() ==> (#[trigger] ps@[t]).0 <= ps@[t].1 <= s.len(),
            forall|t: int| 0 <= t < j ==> (#[trigger] out@[t])@ == trimmed(s@, ghost_ps@[t].0, ghost_ps@[t].1),
        decreases ps.len() - j,
    {
        let (x, y) = trim_range(s, ps[j].0, ps[j].1);
        out.push(text_of(s, x, y));
        j += 1;
    }
    proof {
        assert(texts_model(out@) =~= types_of(s@, ghost_ps@));
    }
    out
}

/// The variant declared by `s[a..b)`.
fn extract_single_variant(s: &Vec<char>, a: usize, b: usize) -> (r: Option<Variant>)
    requires
        a <= b <= s.len(),
    ensures
        r matches Some(v) ==> variant_of(s@, a as int, b as int) == Some(variant_model(v)),
        r is None ==> variant_of(s@, a as int, b as int) is None,
{
    let ns = skip_attrs_exec(s, a, b);
    let ne = fwd_ident_exec(s, ns, b);
    if ne == ns {
        return None;
    }
    let d = directives_exec(s, a, ns);
    let p = fwd_space_exec(s, ne, b);
    let mut kind = VariantKind::Unit;
    if p < b && (s[p] == '(' || s[p] == '{') {
        match close_exec(s, p) {
            Some(c) => {
                if c < b {
                    let ps = pieces_exec(s, p + 1, c);
                    let ghost gp = pieces(s@, p + 1, c as int, p + 1, p + 1);
                    if s[p] == '(' {
                        kind = VariantKind::Tuple(types_exec(s, &ps, Ghost(gp)));
                    } else {
                        kind = VariantKind::Struct(fields_exec(s, &ps, Ghost(gp)));
                    }
                }
            },
            None => {},
        }
    }
    let rename = match d.rename {
        Some((x, y)) => Some(text_of(s, x, y)),
        None => None,
    };
    Some(Variant { name: text_of(s, ns, ne), rename, kind })
}

fn variants_exec(s: &Vec<char>, ps: &Vec<(usize, usize)>, ghost_ps: Ghost<Seq<(int, int)>>) -> (r: Vec<Variant>)
    requires
        ps@.len() == ghost_ps@.len(),
        forall|j: int| 0 <= j < ps@.len() ==> (#[trigger] ps@[j]).0 as int == ghost_ps@[j].0 && ps@[j].1 as int == ghost_ps@[j].1,
        forall|j: int| 0 <= j < ps@.len() ==> (#[trigger] ps@[j]).0 <= ps@[j].1 <= s.len(),
    ensures
        variants_model(r@) == variants_of(s@, ghost_ps@),
{
    let mut out: Vec<Variant> = Vec::new();
    let mut j: usize = 0;
    proof {
        assert(ghost_ps@.take(0) =~= Seq::<(int, int)>::empty());
        assert(variants_model(out@) =~= Seq::<VariantModel>::empty());
    }
    while j < ps.len()
        invariant
            j <= ps.len(),
            ps@.len() == ghost_ps@.len(),
            forall|t: int| 0 <= t < ps@.len() ==> (#[trigger] ps@[t]).0 as int == ghost_ps@[t].0 && ps@[t].1 as int == ghost_ps@[t].1,
            forall|t: int| 0 <= t < ps@.len() ==> (#[trigger] ps@[t]).0 <= ps@[t].1 <= s.len(),
            variants_model(out@) == variants_of(s@, ghost_ps@.take(j as int)),
        decreases ps.len() - j,
    {
        proof {
            assert(ghost_ps@.take(j + 1).drop_last() =~= ghost_ps@.take(j as int));
        }
        let ghost before = out@;
        match extract_single_variant(s, ps[j].0, ps[j].1) {
            Some(v) => {
                out.push(v);
                proof {
                    assert(variants_model(out@) =~= variants_model(before).push(variant_model(v)));
                }
            },
            None => {},
        }
        j += 1;
    }
    proof {
        assert(ghost_ps@.take(ps.len() as int) =~= ghost_ps@);
    }
    out
}

/// The variants of the tagged union declared in `input`.
pub fn extract_enum_variants(input: &str) -> (r: Vec<Variant>)
    ensures
        variants_model(r@) == enum_variants(input@),
{
    let s = chars_of(input);
    match body_exec(&s) {
        Some((x, y)) => {
            let ps = pieces_exec(&s, x, y);
            variants_exec(&s, &ps, Ghost(pieces(s@, x as int, y as int, x as int, x as int)))
        },
        None => {
            proof {
                assert(variants_model(Seq::<Variant>::empty()) =~= Seq::<VariantModel>::empty());
            }
            Vec::new()
        },
    }
}


/// The word `w` stands alone at position `i`.
pub open spec fn word_at(s: Seq<char>, i: int, w: Seq<char>) -> bool {
    &&& lit_at(s, i, w)
    &&& (i == 0 || !is_ident_char(s[i - 1]))
    &&& (i + w.len() == s.len() || !is_ident_char(s[i + w.len()]))
}

pub open spec fn struct_kw() -> Seq<char> {
    seq!['s', 't', 'r', 'u', 'c', 't']
}

pub open spec fn enum_kw() -> Seq<char> {
    seq!['e', 'n', 'u', 'm']
}

pub open spec fn pub_kw() -> Seq<char> {
    seq!['p', 'u', 'b']
}

/// Where the item's own words begin: after whitespace, attribute groups
/// `#[...]` (doc comments among them) and a visibility `pub` or `pub(...)`.
pub open spec fn item_start(s: Seq<char>) -> int {
    let j = skip_attrs(s, 0, s.len() as int);
    if word_at(s, j, pub_kw()) {
        let k = fwd_space(s, j + 3, s.len() as int);
        if k < s.len() && s[k] == '(' {
            match close_from(s, k, k + 1) {
                Some(c) => fwd_space(s, c + 1, s.len() as int),
                None => k,
            }
        } else {
            k
        }
    } else {
        j
    }
}

/// The keyword that starts the item, with its position: `struct` (true) or
/// `enum` (false). A keyword elsewhere, in a doc comment say, is no item's.
pub open spec fn item_keyword(s: Seq<char>) -> Option<(int, bool)> {
    let k = item_start(s);
    if word_at(s, k, struct_kw()) {
        Some((k, true))
    } else if word_at(s, k, enum_kw()) {
        Some((k, false))
    } else {
        None
    }
}

/// The identifier that follows position `k`, after whitespace.
pub open spec fn name_after(s: Seq<char>, k: int) -> Seq<char> {
    let ns = fwd_space(s, k, s.len() as int);
    s.subrange(ns, fwd_ident(s, ns, s.len() as int))
}

/// The name of the declared type: the identifier after the first `struct`
/// or `enum` keyword; empty when there is none.
pub open spec fn decl_name(s: Seq<char>) -> Seq<char> {
    match item_keyword(s) {
        Some((i, true)) => name_after(s, i + 6),
        Some((i, false)) => name_after(s, i + 4),
        None => Seq::empty(),
    }
}

/// The model of an [`InputType`].
pub enum InputModel {
    Struct { name: Seq<char>, fields: Seq<FieldModel> },
    Enum { name: Seq<char>, variants: Seq<VariantModel> },
    Unknown,
}

pub open spec fn input_model(t: InputType) -> InputModel {
    match t {
        InputType::Struct { name, fields } => InputModel::Struct { name: name@, fields: fields_model(fields@) },
        InputType::Enum { name, variants } => InputModel::Enum { name: name@, variants: variants_model(variants@) },
        InputType::Unknown => InputModel::Unknown,
    }
}

/// What a declaration text declares.
pub open spec fn declared(s: Seq<char>) -> InputModel {
    match item_keyword(s) {
        Some((_, true)) => InputModel::Struct { name: decl_name(s), fields: struct_fields(s) },
        Some((_, false)) => InputModel::Enum { name: decl_name(s), variants: enum_variants(s) },
        None => InputModel::Unknown,
    }
}

fn word_exec(s: &Vec<char>, i: usize, w: &str) -> (r: bool)
    requires
        i <= s.len(),
    ensures
        r == word_at(s@, i as int, w@),
{
    let n = chars_of(w).len();
    s.len() - i >= n && range_is(s, i, i + n, w) && (i == 0 || !is_ident_exec(s[i - 1])) && (i + n == s.len()
        || !is_ident_exec(s[i + n]))
}

fn item_start_exec(s: &Vec<char>) -> (r: usize)
    ensures
        r == item_start(s@),
        r <= s.len(),
{
    proof {
        reveal_strlit("pub");
        assert("pub"@ =~= pub_kw());
    }
    let j = skip_attrs_exec(s, 0, s.len());
    if word_exec(s, j, "pub") {
        let k = fwd_space_exec(s, j + 3, s.len());
        if k < s.len() && s[k] == '(' {
            match close_exec(s, k) {
                Some(c) => fwd_space_exec(s, c + 1, s.len()),
                None => k,
            }
        } else {
            k
        }
    } else {
        j
    }
}

fn keyword_exec(s: &Vec<char>) -> (r: Option<(usize, bool)>)
    ensures
        r matches Some((i, st)) ==> item_keyword(s@) == Some((i as int, st)) && i < s.len()
            && (if st { i + 6 <= s.len() } else { i + 4 <= s.len() }),
        r is None ==> item_keyword(s@) is None,
{
    proof {
        reveal_strlit("struct");
        reveal_strlit("enum");
        assert("struct"@ =~= struct_kw());
        assert("enum"@ =~= enum_kw());
    }
    let k = item_start_exec(s);
    if word_exec(s, k, "struct") {
        Some((k, true))
    } else if word_exec(s, k, "enum") {
        Some((k, false))
    } else {
        None
    }
}

fn name_exec(s: &Vec<char>, k: usize) -> (r: String)
    requires
        k <= s.len(),
    ensures
        r@ == name_after(s@, k as int),
{
    let ns = fwd_space_exec(s, k, s.len());
    let ne = fwd_ident_exec(s, ns, s.len());
    text_of(s, ns, ne)
}

/// The name of the type declared in `input`.
pub fn extract_name(input: &str) -> (r: String)
    ensures
        r@ == decl_name(input@),
{
    let s = chars_of(input);
    match keyword_exec(&s) {
        Some((i, true)) => if s.len() - i >= 6 {
            name_exec(&s, i + 6)
        } else {
            String::new()
        },
        Some((i, false)) => if s.len() - i >= 4 {
            name_exec(&s, i + 4)
        } else {
            String::new()
        },
        None => String::new(),
    }
}

/// Reads a record or tagged-union declaration.
pub fn parse_input(input: &str) -> (r: InputType)
    ensures
        input_model(r) == declared(input@),
{
    let s = chars_of(input);
    match keyword_exec(&s) {
        Some((_, true)) => InputType::Struct { name: extract_name(input), fields: extract_struct_fields(input) },
        Some((_, false)) => InputType::Enum { name: extract_name(input), variants: extract_enum_variants(input) },
        None => InputType::Unknown,
    }
}

} // verus!
