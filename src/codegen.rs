//! Renders the source text of `Serialize` and `Deserialize` impls for a
//! declared record or tagged union; the impls call the schema functions of
//! this library.
use vstd::prelude::*;
use crate::decl::{Field, Variant, VariantKind, FieldModel, field_model, fields_model, variant_model, variants_model, VariantModel, KindModel, variant_wire};
use crate::emit::{push_str, repeat, digits, write_digits};
use crate::text::string_of;

verus! {

broadcast use vstd::std_specs::vec::group_vec_axioms, vstd::seq::group_seq_axioms;

/// Accumulates lines of code, each indented by `indent_size` spaces per
/// level.
pub struct CodeBuilder {
    pub code: Vec<char>,
    pub indent_level: usize,
    pub indent_size: usize,
}

/// A line of code at nesting `level`, four spaces per level.
pub open spec fn gen_line(level: nat, t: Seq<char>) -> Seq<char> {
    repeat(' ', 4 * level) + t + seq!['\n']
}

/// The number of each kind of bracket opened minus the number closed.
pub open spec fn net(s: Seq<char>, open: char, close: char) -> int
    decreases s.len(),
{
    if s.len() == 0 {
        0
    } else {
        net(s.drop_last(), open, close) + if s.last() == open { 1int } else if s.last() == close { -1int } else { 0int }
    }
}

pub open spec fn balanced(s: Seq<char>) -> bool {
    net(s, '{', '}') == 0 && net(s, '(', ')') == 0 && net(s, '[', ']') == 0
}

impl CodeBuilder {
    /// An empty builder, four spaces per level.
    pub fn new() -> (r: CodeBuilder)
        ensures
            r.code@ == Seq::<char>::empty(),
            r.indent_level == 0,
            r.indent_size == 4,
    {
        CodeBuilder { code: Vec::new(), indent_level: 0, indent_size: 4 }
    }

    fn push_indent(&mut self)
        requires
            old(self).indent_level * old(self).indent_size <= usize::MAX,
        ensures
            final(self).code@ == old(self).code@ + repeat(' ', (old(self).indent_level * old(self).indent_size) as nat),
            final(self).indent_level == old(self).indent_level,
            final(self).indent_size == old(self).indent_size,
    {
        let n = self.indent_level * self.indent_size;
        let ghost start = self.code@;
        let mut i: usize = 0;
        while i < n
            invariant
                i <= n,
                self.code@ == start + repeat(' ', i as nat),
                self.indent_level == old(self).indent_level,
                self.indent_size == old(self).indent_size,
            decreases n - i,
        {
            self.code.push(' ');
            i += 1;
            proof {
                assert(self.code@ =~= start + repeat(' ', i as nat));
            }
        }
    }

    /// Adds a line at the current indentation.
    pub fn line(&mut self, text: &str)
        requires
            old(self).indent_level * old(self).indent_size <= usize::MAX,
        ensures
            final(self).code@ == old(self).code@ + repeat(' ', (old(self).indent_level * old(self).indent_size) as nat) + text@ + seq!['\n'],
            final(self).indent_level == old(self).indent_level,
            final(self).indent_size == old(self).indent_size,
    {
        self.push_indent();
        push_str(&mut self.code, text);
        self.code.push('\n');
    }

    /// Adds a line made of the characters `text`.
    pub fn line_chars(&mut self, text: &Vec<char>)
        requires
            old(self).indent_level * old(self).indent_size <= usize::MAX,
        ensures
            final(self).code@ == old(self).code@ + repeat(' ', (old(self).indent_level * old(self).indent_size) as nat) + text@ + seq!['\n'],
            final(self).indent_level == old(self).indent_level,
            final(self).indent_size == old(self).indent_size,
    {
        self.push_indent();
        let ghost mid = self.code@;
        let mut i: usize = 0;
        while i < text.len()
            invariant
                i <= text.len(),
                self.code@ == mid + text@.take(i as int),
                self.indent_level == old(self).indent_level,
                self.indent_size == old(self).indent_size,
            decreases text.len() - i,
        {
            self.code.push(text[i]);
            i += 1;
            proof {
                assert(self.code@ =~= mid + text@.take(i as int));
            }
        }
        proof {
            assert(text@.take(text.len() as int) =~= text@);
        }
        self.code.push('\n');
    }

    /// Adds several lines at the current indentation.
    pub fn lines(&mut self, texts: &Vec<&str>)
        requires
            old(self).indent_level * old(self).indent_size <= usize::MAX,
        ensures
            final(self).indent_level == old(self).indent_level,
            final(self).indent_size == old(self).indent_size,
            final(self).code@ == old(self).code@ + lines_text(texts@, repeat(' ', (old(self).indent_level * old(self).indent_size) as nat)),
    {
        let ghost start = self.code@;
        let ghost pad = repeat(' ', (self.indent_level * self.indent_size) as nat);
        let mut i: usize = 0;
        while i < texts.len()
            invariant
                i <= texts.len(),
                self.indent_level == old(self).indent_level,
                self.indent_size == old(self).indent_size,
                self.indent_level * self.indent_size <= usize::MAX,
                pad == repeat(' ', (self.indent_level * self.indent_size) as nat),
                self.code@ == start + lines_text(texts@.take(i as int), pad),
            decreases texts.len() - i,
        {
            self.line(texts[i]);
            proof {
                assert(texts@.take(i + 1).drop_last() =~= texts@.take(i as int));
                assert(self.code@ =~= start + lines_text(texts@.take(i + 1), pad));
            }
            i += 1;
        }
        proof {
            assert(texts@.take(texts.len() as int) =~= texts@);
        }
    }

    /// Adds `start`, then the lines of `body` one level deeper, then `end`.
    pub fn block(&mut self, start: &str, end: &str, body: &Vec<&str>)
        requires
            old(self).indent_level < usize::MAX,
            (old(self).indent_level + 1) * old(self).indent_size <= usize::MAX,
        ensures
            final(self).indent_level == old(self).indent_level,
            final(self).indent_size == old(self).indent_size,
            final(self).code@ == old(self).code@ + repeat(' ', (old(self).indent_level * old(self).indent_size) as nat) + start@ + seq!['\n']
                + lines_text(body@, repeat(' ', ((old(self).indent_level + 1) * old(self).indent_size) as nat))
                + repeat(' ', (old(self).indent_level * old(self).indent_size) as nat) + end@ + seq!['\n'],
    {
        let l = self.indent_level;
        let z = self.indent_size;
        proof {
            assert(l * z <= (l + 1) * z) by (nonlinear_arith);
        }
        self.line(start);
        self.indent_level = self.indent_level + 1;
        self.lines(body);
        self.indent_level = self.indent_level - 1;
        self.line(end);
    }

    /// The code, with a warning comment after it when its brackets do not
    /// balance.
    pub fn build(&self) -> (r: String)
        ensures
            r@ == self.code@ + if balanced(self.code@) { Seq::<char>::empty() } else { warning_text() },
    {
        let mut braces: i128 = 0;
        let mut parens: i128 = 0;
        let mut brackets: i128 = 0;
        let mut i: usize = 0;
        proof {
            assert(self.code@.take(0) =~= Seq::<char>::empty());
        }
        while i < self.code.len()
            invariant
                i <= self.code.len(),
                braces == net(self.code@.take(i as int), '{', '}'),
                parens == net(self.code@.take(i as int), '(', ')'),
                brackets == net(self.code@.take(i as int), '[', ']'),
                -(i as int) <= braces <= i,
                -(i as int) <= parens <= i,
                -(i as int) <= brackets <= i,
            decreases self.code.len() - i,
        {
            let c = self.code[i];
            proof {
                assert(self.code@.take(i + 1).drop_last() =~= self.code@.take(i as int));
            }
            if c == '{' {
                braces = braces + 1;
            } else if c == '}' {
                braces = braces - 1;
            } else if c == '(' {
                parens = parens + 1;
            } else if c == ')' {
                parens = parens - 1;
            } else if c == '[' {
                brackets = brackets + 1;
            } else if c == ']' {
                brackets = brackets - 1;
            }
            i += 1;
        }
        proof {
            assert(self.code@.take(self.code.len() as int) =~= self.code@);
        }
        let mut out: Vec<char> = Vec::new();
        let mut j: usize = 0;
        while j < self.code.len()
            invariant
                j <= self.code.len(),
                out@ == self.code@.take(j as int),
            decreases self.code.len() - j,
        {
            out.push(self.code[j]);
            j += 1;
            proof {
                assert(out@ =~= self.code@.take(j as int));
            }
        }
        proof {
            assert(self.code@.take(self.code.len() as int) =~= self.code@);
        }
        if braces != 0 || parens != 0 || brackets != 0 {
            push_str(&mut out, "// WARNING: unbalanced delimiters\n");
        } else {
            proof {
                assert(out@ =~= out@ + Seq::<char>::empty());
            }
        }
        string_of(&out)
    }
}

pub open spec fn warning_text() -> Seq<char> {
    "// WARNING: unbalanced delimiters\n"@
}

/// The lines `ts`, each after `pad`.
pub open spec fn lines_text(ts: Seq<&str>, pad: Seq<char>) -> Seq<char>
    decreases ts.len(),
{
    if ts.len() == 0 {
        Seq::empty()
    } else {
        lines_text(ts.drop_last(), pad) + pad + ts.last()@ + seq!['\n']
    }
}


/// `t` between double quotes.
pub open spec fn lit(t: Seq<char>) -> Seq<char> {
    seq!['"'] + t + seq!['"']
}

/// The key a field is written and read under.
pub open spec fn field_wire_m(f: FieldModel) -> Seq<char> {
    match f.rename {
        Some(r) => r,
        None => f.name,
    }
}

/// The tag a variant is written under.
pub open spec fn wire_of(v: VariantModel) -> Seq<char> {
    match v.rename {
        Some(r) => r,
        None => v.name,
    }
}

/// `::std::string::String::from("t")`.
pub open spec fn string_expr(t: Seq<char>) -> Seq<char> {
    "::std::string::String::from("@ + lit(t) + ")"@
}

/// The statement that writes a field reached through `access` under its
/// wire name: only when present under `skip_if_none`, always otherwise.
pub open spec fn put_stmt(f: FieldModel, access: Seq<char>) -> Seq<char> {
    if f.skip_if_none && f.is_option {
        "if let ::std::option::Option::Some(v) = "@ + access + " { ::fastjson::object_insert(&mut entries, "@
            + string_expr(field_wire_m(f)) + ", ::fastjson::Serialize::serialize(v)?); }"@
    } else {
        "::fastjson::object_insert(&mut entries, "@ + string_expr(field_wire_m(f)) + ", ::fastjson::Serialize::serialize("@
            + access + ")?);"@
    }
}

/// How a field is reached: through `self` in a record, by its bound name in
/// a variant.
pub open spec fn access_of(f: FieldModel, through_self: bool) -> Seq<char> {
    if through_self { "&self."@ + f.name } else { f.name }
}

/// The statements that write the fields `fs`; a skipped field writes none.
pub open spec fn put_lines(fs: Seq<FieldModel>, level: nat, through_self: bool) -> Seq<char>
    decreases fs.len(),
{
    if fs.len() == 0 {
        Seq::empty()
    } else {
        let prev = put_lines(fs.drop_last(), level, through_self);
        if fs.last().skip {
            prev
        } else {
            prev + gen_line(level, put_stmt(fs.last(), access_of(fs.last(), through_self)))
        }
    }
}

/// The line that reads a field into its place in a struct literal: a skipped
/// field takes its carrier's default; an optional one is absent when its key
/// is absent or null; one under `skip_if_none` takes the default when its key
/// is absent; any other reports its missing key.
pub open spec fn read_expr(f: FieldModel) -> Seq<char> {
    let get = "match value.get("@ + lit(field_wire_m(f)) + ") { "@;
    if f.skip {
        f.name + ": ::std::default::Default::default(),"@
    } else if f.is_option {
        f.name + ": "@ + get
            + "::std::option::Option::Some(v) if !v.is_null() => ::std::option::Option::Some(::fastjson::Deserialize::deserialize(v)?), _ => ::std::option::Option::None },"@
    } else if f.skip_if_none {
        f.name + ": "@ + get
            + "::std::option::Option::Some(v) => ::fastjson::Deserialize::deserialize(v)?, ::std::option::Option::None => ::std::default::Default::default() },"@
    } else {
        f.name + ": "@ + get
            + "::std::option::Option::Some(v) => ::fastjson::Deserialize::deserialize(v)?, ::std::option::Option::None => return ::std::result::Result::Err(::fastjson::Error::MissingField("@
            + string_expr(field_wire_m(f)) + ")) },"@
    }
}

pub open spec fn read_lines(fs: Seq<FieldModel>, level: nat) -> Seq<char>
    decreases fs.len(),
{
    if fs.len() == 0 {
        Seq::empty()
    } else {
        read_lines(fs.drop_last(), level) + gen_line(level, read_expr(fs.last()))
    }
}

pub open spec fn entries_decl() -> Seq<char> {
    "let mut entries: ::std::vec::Vec<(::std::string::String, ::fastjson::Value)> = ::std::vec::Vec::new();"@
}

/// The `Serialize` impl of a record named `name` with fields `fs`.
pub open spec fn struct_serialize_text(name: Seq<char>, fs: Seq<FieldModel>) -> Seq<char> {
    gen_line(0, "impl ::fastjson::Serialize for "@ + name + " {"@)
        + gen_line(1, "fn serialize(&self) -> ::std::result::Result<::fastjson::Value, ::fastjson::Error> {"@)
        + gen_line(2, entries_decl()) + put_lines(fs, 2, true)
        + gen_line(2, "::std::result::Result::Ok(::fastjson::Value::Object(entries))"@)
        + gen_line(1, "}"@) + gen_line(0, "}"@)
}

/// The `Deserialize` impl of a record named `name` with fields `fs`.
pub open spec fn struct_deserialize_text(name: Seq<char>, fs: Seq<FieldModel>) -> Seq<char> {
    gen_line(0, "impl ::fastjson::Deserialize for "@ + name + " {"@)
        + gen_line(1, "fn deserialize(value: &::fastjson::Value) -> ::std::result::Result<Self, ::fastjson::Error> {"@)
        + gen_line(2, "::fastjson::object_entries(value)?;"@)
        + gen_line(2, "::std::result::Result::Ok(Self {"@) + read_lines(fs, 3) + gen_line(2, "})"@)
        + gen_line(1, "}"@) + gen_line(0, "}"@)
}

fn put(l: &mut Vec<char>, t: &str)
    ensures
        final(l)@ == old(l)@ + t@,
{
    push_str(l, t);
}

fn put_text(l: &mut Vec<char>, t: &String)
    ensures
        final(l)@ == old(l)@ + t@,
{
    push_str(l, t.as_str());
}

fn put_lit(l: &mut Vec<char>, t: &String)
    ensures
        final(l)@ == old(l)@ + lit(t@),
{
    l.push('"');
    push_str(l, t.as_str());
    l.push('"');
    proof {
        assert(final(l)@ =~= old(l)@ + lit(t@));
    }
}

fn put_string_expr(l: &mut Vec<char>, t: &String)
    ensures
        final(l)@ == old(l)@ + string_expr(t@),
{
    let ghost start = l@;
    put(l, "::std::string::String::from(");
    put_lit(l, t);
    put(l, ")");
    proof {
        assert(l@ =~= start + string_expr(t@));
    }
}

fn field_wire_text(f: &Field) -> (r: &String)
    ensures
        r@ == field_wire_m(field_model(*f)),
{
    match &f.rename {
        Some(r) => r,
        None => &f.name,
    }
}

fn variant_wire_text(v: &Variant) -> (r: &String)
    ensures
        r@ == wire_of(variant_model(*v)),
{
    match &v.rename {
        Some(r) => r,
        None => &v.name,
    }
}

/// Adds a line at `level`.
fn emit_line(b: &mut CodeBuilder, level: usize, t: &Vec<char>)
    requires
        old(b).indent_size == 4,
        level <= 16,
    ensures
        final(b).code@ == old(b).code@ + gen_line(level as nat, t@),
        final(b).indent_size == 4,
{
    b.indent_level = level;
    b.line_chars(t);
    proof {
        assert(final(b).code@ =~= old(b).code@ + gen_line(level as nat, t@));
    }
}

fn emit_line_str(b: &mut CodeBuilder, level: usize, t: &str)
    requires
        old(b).indent_size == 4,
        level <= 16,
    ensures
        final(b).code@ == old(b).code@ + gen_line(level as nat, t@),
        final(b).indent_size == 4,
{
    let mut l: Vec<char> = Vec::new();
    put(&mut l, t);
    emit_line(b, level, &l);
}

#[verifier::rlimit(40)]
fn put_put_stmt(l: &mut Vec<char>, f: &Field, through_self: bool)
    ensures
        final(l)@ == old(l)@ + put_stmt(field_model(*f), access_of(field_model(*f), through_self)),
{
    let ghost start = l@;
    let w = field_wire_text(f);
    if f.skip_if_none && f.is_option {
        put(l, "if let ::std::option::Option::Some(v) = ");
        if through_self {
            put(l, "&self.");
        }
        put_text(l, &f.name);
        put(l, " { ::fastjson::object_insert(&mut entries, ");
        put_string_expr(l, w);
        put(l, ", ::fastjson::Serialize::serialize(v)?); }");
    } else {
        put(l, "::fastjson::object_insert(&mut entries, ");
        put_string_expr(l, w);
        put(l, ", ::fastjson::Serialize::serialize(");
        if through_self {
            put(l, "&self.");
        }
        put_text(l, &f.name);
        put(l, ")?);");
    }
    proof {
        assert(l@ =~= start + put_stmt(field_model(*f), access_of(field_model(*f), through_self)));
    }
}

fn emit_put_lines(b: &mut CodeBuilder, fields: &Vec<Field>, level: usize, through_self: bool)
    requires
        old(b).indent_size == 4,
        level <= 16,
    ensures
        final(b).code@ == old(b).code@ + put_lines(fields_model(fields@), level as nat, through_self),
        final(b).indent_size == 4,
{
    let ghost start = b.code@;
    let ghost fm = fields_model(fields@);
    let mut i: usize = 0;
    proof {
        assert(fm.take(0) =~= Seq::<FieldModel>::empty());
    }
    while i < fields.len()
        invariant
            i <= fields.len(),
            level <= 16,
            b.indent_size == 4,
            fm == fields_model(fields@),
            b.code@ == start + put_lines(fm.take(i as int), level as nat, through_self),
        decreases fields.len() - i,
    {
        proof {
            assert(fm.take(i + 1).drop_last() =~= fm.take(i as int));
            assert(fm.take(i + 1).last() == field_model(fields@[i as int]));
        }
        if !fields[i].skip {
            let mut l: Vec<char> = Vec::new();
            put_put_stmt(&mut l, &fields[i], through_self);
            emit_line(b, level, &l);
        }
        proof {
            assert(b.code@ =~= start + put_lines(fm.take(i + 1), level as nat, through_self));
        }
        i += 1;
    }
    proof {
        assert(fm.take(fields.len() as int) =~= fm);
    }
}

#[verifier::rlimit(40)]
fn put_read_expr(l: &mut Vec<char>, f: &Field)
    ensures
        final(l)@ == old(l)@ + read_expr(field_model(*f)),
{
    let ghost start = l@;
    let w = field_wire_text(f);
    put_text(l, &f.name);
    if f.skip {
        put(l, ": ::std::default::Default::default(),");
    } else {
        put(l, ": ");
        put(l, "match value.get(");
        put_lit(l, w);
        put(l, ") { ");
        if f.is_option {
            put(l, "::std::option::Option::Some(v) if !v.is_null() => ::std::option::Option::Some(::fastjson::Deserialize::deserialize(v)?), _ => ::std::option::Option::None },");
        } else if f.skip_if_none {
            put(l, "::std::option::Option::Some(v) => ::fastjson::Deserialize::deserialize(v)?, ::std::option::Option::None => ::std::default::Default::default() },");
        } else {
            put(l, "::std::option::Option::Some(v) => ::fastjson::Deserialize::deserialize(v)?, ::std::option::Option::None => return ::std::result::Result::Err(::fastjson::Error::MissingField(");
            put_string_expr(l, w);
            put(l, ")) },");
        }
    }
    proof {
        assert(l@ =~= start + read_expr(field_model(*f)));
    }
}

fn emit_read_lines(b: &mut CodeBuilder, fields: &Vec<Field>, level: usize)
    requires
        old(b).indent_size == 4,
        level <= 16,
    ensures
        final(b).code@ == old(b).code@ + read_lines(fields_model(fields@), level as nat),
        final(b).indent_size == 4,
{
    let ghost start = b.code@;
    let ghost fm = fields_model(fields@);
    let mut i: usize = 0;
    proof {
        assert(fm.take(0) =~= Seq::<FieldModel>::empty());
    }
    while i < fields.len()
        invariant
            i <= fields.len(),
            level <= 16,
            b.indent_size == 4,
            fm == fields_model(fields@),
            b.code@ == start + read_lines(fm.take(i as int), level as nat),
        decreases fields.len() - i,
    {
        let mut l: Vec<char> = Vec::new();
        put_read_expr(&mut l, &fields[i]);
        emit_line(b, level, &l);
        proof {
            assert(fm.take(i + 1).drop_last() =~= fm.take(i as int));
            assert(fm.take(i + 1).last() == field_model(fields@[i as int]));
            assert(b.code@ =~= start + read_lines(fm.take(i + 1), level as nat));
        }
        i += 1;
    }
    proof {
        assert(fm.take(fields.len() as int) =~= fm);
    }
}

/// Renders the `Serialize` impl of a record.
pub fn generate_struct_serialize(name: &str, fields: &Vec<Field>) -> (r: String)
    ensures
        r@ == struct_serialize_text(name@, fields_model(fields@)),
{
    let mut b = CodeBuilder::new();
    let mut head: Vec<char> = Vec::new();
    put(&mut head, "impl ::fastjson::Serialize for ");
    put(&mut head, name);
    put(&mut head, " {");
    emit_line(&mut b, 0, &head);
    emit_line_str(&mut b, 1, "fn serialize(&self) -> ::std::result::Result<::fastjson::Value, ::fastjson::Error> {");
    emit_line_str(&mut b, 2, "let mut entries: ::std::vec::Vec<(::std::string::String, ::fastjson::Value)> = ::std::vec::Vec::new();");
    emit_put_lines(&mut b, fields, 2, true);
    emit_line_str(&mut b, 2, "::std::result::Result::Ok(::fastjson::Value::Object(entries))");
    emit_line_str(&mut b, 1, "}");
    emit_line_str(&mut b, 0, "}");
    proof {
        assert(b.code@ =~= struct_serialize_text(name@, fields_model(fields@)));
    }
    string_of(&b.code)
}

/// Renders the `Deserialize` impl of a record.
pub fn generate_struct_deserialize(name: &str, fields: &Vec<Field>) -> (r: String)
    ensures
        r@ == struct_deserialize_text(name@, fields_model(fields@)),
{
    let mut b = CodeBuilder::new();
    let mut head: Vec<char> = Vec::new();
    put(&mut head, "impl ::fastjson::Deserialize for ");
    put(&mut head, name);
    put(&mut head, " {");
    emit_line(&mut b, 0, &head);
    emit_line_str(&mut b, 1, "fn deserialize(value: &::fastjson::Value) -> ::std::result::Result<Self, ::fastjson::Error> {");
    emit_line_str(&mut b, 2, "::fastjson::object_entries(value)?;");
    emit_line_str(&mut b, 2, "::std::result::Result::Ok(Self {");
    emit_read_lines(&mut b, fields, 3);
    emit_line_str(&mut b, 2, "})");
    emit_line_str(&mut b, 1, "}");
    emit_line_str(&mut b, 0, "}");
    proof {
        assert(b.code@ =~= struct_deserialize_text(name@, fields_model(fields@)));
    }
    string_of(&b.code)
}


/// `x0, x1, ...`: the names bound to the elements of a positional variant.
pub open spec fn binders(n: nat) -> Seq<char>
    decreases n,
{
    if n == 0 {
        Seq::empty()
    } else if n == 1 {
        "x"@ + digits(0)
    } else {
        binders((n - 1) as nat) + ", x"@ + digits((n - 1) as nat)
    }
}

/// The encodings of the bound elements, comma separated.
pub open spec fn ser_items(n: nat) -> Seq<char>
    decreases n,
{
    if n == 0 {
        Seq::empty()
    } else {
        ser_items((n - 1) as nat) + "::fastjson::Serialize::serialize(x"@ + digits((n - 1) as nat) + ")?, "@
    }
}

/// The decodings of the elements found, comma separated.
pub open spec fn de_items(n: nat) -> Seq<char>
    decreases n,
{
    if n == 0 {
        Seq::empty()
    } else {
        de_items((n - 1) as nat) + "::fastjson::Deserialize::deserialize(&items["@ + digits((n - 1) as nat) + "])?, "@
    }
}

/// The names of the fields, comma separated.
pub open spec fn names_list(fs: Seq<FieldModel>) -> Seq<char>
    decreases fs.len(),
{
    if fs.len() == 0 {
        Seq::empty()
    } else if fs.len() == 1 {
        fs[0].name
    } else {
        names_list(fs.drop_last()) + ", "@ + fs.last().name
    }
}

/// The match arm that encodes variant `v` of the union `name`: a unit as
/// its bare tag; a positional variant with its tag and elements; a named one
/// as an object with its tag under `"type"` and its written fields.
pub open spec fn ser_arm(name: Seq<char>, v: VariantModel) -> Seq<char> {
    let head = name + "::"@ + v.name;
    match v.kind {
        KindModel::Unit => gen_line(3, head + " => ::std::result::Result::Ok(::fastjson::encode_unit("@ + lit(wire_of(v)) + ")),"@),
        KindModel::Tuple(ts) => gen_line(3, head + "("@ + binders(ts.len()) + ") => ::std::result::Result::Ok(::fastjson::encode_tuple("@
            + lit(wire_of(v)) + ", ::std::vec::Vec::from(["@ + ser_items(ts.len()) + "]))),"@),
        KindModel::Struct(fs) => gen_line(3, head + " { "@ + names_list(fs) + " } => {"@)
            + gen_line(4, entries_decl())
            + gen_line(4, "::fastjson::object_insert(&mut entries, ::std::string::String::from(\"type\"), ::fastjson::Value::String("@
                + string_expr(wire_of(v)) + "));"@)
            + put_lines(fs, 4, false)
            + gen_line(4, "::std::result::Result::Ok(::fastjson::Value::Object(entries))"@)
            + gen_line(3, "}"@),
    }
}

pub open spec fn ser_arms(name: Seq<char>, vs: Seq<VariantModel>) -> Seq<char>
    decreases vs.len(),
{
    if vs.len() == 0 {
        Seq::empty()
    } else {
        ser_arms(name, vs.drop_last()) + ser_arm(name, vs.last())
    }
}

/// The `Serialize` impl of a tagged union named `name` with variants `vs`.
pub open spec fn enum_serialize_text(name: Seq<char>, vs: Seq<VariantModel>) -> Seq<char> {
    gen_line(0, "impl ::fastjson::Serialize for "@ + name + " {"@)
        + gen_line(1, "fn serialize(&self) -> ::std::result::Result<::fastjson::Value, ::fastjson::Error> {"@)
        + gen_line(2, "match self {"@) + ser_arms(name, vs) + gen_line(2, "}"@)
        + gen_line(1, "}"@) + gen_line(0, "}"@)
}

/// The arms that read a bare tag: one per unit variant, in order.
pub open spec fn unit_arms(name: Seq<char>, vs: Seq<VariantModel>) -> Seq<char>
    decreases vs.len(),
{
    if vs.len() == 0 {
        Seq::empty()
    } else {
        let prev = unit_arms(name, vs.drop_last());
        let v = vs.last();
        if v.kind is Unit {
            prev + gen_line(4, lit(wire_of(v)) + " => ::std::result::Result::Ok("@ + name + "::"@ + v.name + "),"@)
        } else {
            prev
        }
    }
}

/// The arm that reads variant `v` from an object tagged with its tag: a
/// positional variant from a `"data"` array of exactly its arity, a named one
/// from the object's fields.
pub open spec fn tag_arm(name: Seq<char>, v: VariantModel) -> Seq<char> {
    let ctor = name + "::"@ + v.name;
    match v.kind {
        KindModel::Unit => Seq::empty(),
        KindModel::Tuple(ts) => gen_line(6, lit(wire_of(v))
            + " => match value.get(\"data\") { ::std::option::Option::Some(::fastjson::Value::Array(items)) if items.len() == "@
            + digits(ts.len()) + " => ::std::result::Result::Ok("@ + ctor + "("@ + de_items(ts.len())
            + ")), _ => ::std::result::Result::Err(::fastjson::Error::TypeError(::std::string::String::from(\"wrong data for enum variant\"))) },"@),
        KindModel::Struct(fs) => gen_line(6, lit(wire_of(v)) + " => ::std::result::Result::Ok("@ + ctor + " {"@)
            + read_lines(fs, 7) + gen_line(6, "}),"@),
    }
}

pub open spec fn tag_arms(name: Seq<char>, vs: Seq<VariantModel>) -> Seq<char>
    decreases vs.len(),
{
    if vs.len() == 0 {
        Seq::empty()
    } else {
        tag_arms(name, vs.drop_last()) + tag_arm(name, vs.last())
    }
}

/// The `Deserialize` impl of a tagged union named `name` with variants `vs`:
/// a string names a unit variant; an object names another variant under
/// `"type"`; the first variant declared with a tag wins.
pub open spec fn enum_deserialize_text(name: Seq<char>, vs: Seq<VariantModel>) -> Seq<char> {
    gen_line(0, "impl ::fastjson::Deserialize for "@ + name + " {"@)
        + gen_line(1, "fn deserialize(value: &::fastjson::Value) -> ::std::result::Result<Self, ::fastjson::Error> {"@)
        + gen_line(2, "match value {"@)
        + gen_line(3, "::fastjson::Value::String(s) => match s.as_str() {"@)
        + unit_arms(name, vs)
        + gen_line(4, "_ => ::std::result::Result::Err(::fastjson::Error::TypeError(::std::string::String::from(\"unknown enum variant\"))),"@)
        + gen_line(3, "},"@)
        + gen_line(3, "::fastjson::Value::Object(_) => match value.get(\"type\") {"@)
        + gen_line(4, "::std::option::Option::Some(::fastjson::Value::String(t)) => match t.as_str() {"@)
        + tag_arms(name, vs)
        + gen_line(6, "_ => ::std::result::Result::Err(::fastjson::Error::TypeError(::std::string::String::from(\"unknown enum variant type\"))),"@)
        + gen_line(4, "},"@)
        + gen_line(4, "_ => ::std::result::Result::Err(::fastjson::Error::MissingField(::std::string::String::from(\"type\"))),"@)
        + gen_line(3, "},"@)
        + gen_line(3, "_ => ::std::result::Result::Err(::fastjson::Error::TypeError(::std::string::String::from(\"expected string or object for enum\"))),"@)
        + gen_line(2, "}"@) + gen_line(1, "}"@) + gen_line(0, "}"@)
}

fn put_digits(l: &mut Vec<char>, n: usize)
    ensures
        final(l)@ == old(l)@ + digits(n as nat),
{
    write_digits(n as u64, l);
}

fn put_binders(l: &mut Vec<char>, n: usize)
    ensures
        final(l)@ == old(l)@ + binders(n as nat),
{
    let ghost start = l@;
    let mut i: usize = 0;
    while i < n
        invariant
            i <= n,
            l@ == start + binders(i as nat),
        decreases n - i,
    {
        if i == 0 {
            put(l, "x");
        } else {
            put(l, ", x");
        }
        put_digits(l, i);
        i += 1;
        proof {
            assert(l@ =~= start + binders(i as nat));
        }
    }
}

fn put_ser_items(l: &mut Vec<char>, n: usize)
    ensures
        final(l)@ == old(l)@ + ser_items(n as nat),
{
    let ghost start = l@;
    let mut i: usize = 0;
    while i < n
        invariant
            i <= n,
            l@ == start + ser_items(i as nat),
        decreases n - i,
    {
        put(l, "::fastjson::Serialize::serialize(x");
        put_digits(l, i);
        put(l, ")?, ");
        i += 1;
        proof {
            assert(l@ =~= start + ser_items(i as nat));
        }
    }
}

fn put_de_items(l: &mut Vec<char>, n: usize)
    ensures
        final(l)@ == old(l)@ + de_items(n as nat),
{
    let ghost start = l@;
    let mut i: usize = 0;
    while i < n
        invariant
            i <= n,
            l@ == start + de_items(i as nat),
        decreases n - i,
    {
        put(l, "::fastjson::Deserialize::deserialize(&items[");
        put_digits(l, i);
        put(l, "])?, ");
        i += 1;
        proof {
            assert(l@ =~= start + de_items(i as nat));
        }
    }
}

fn put_names(l: &mut Vec<char>, fields: &Vec<Field>)
    ensures
        final(l)@ == old(l)@ + names_list(fields_model(fields@)),
{
    let ghost start = l@;
    let ghost fm = fields_model(fields@);
    let mut i: usize = 0;
    proof {
        assert(fm.take(0) =~= Seq::<FieldModel>::empty());
    }
    while i < fields.len()
        invariant
            i <= fields.len(),
            fm == fields_model(fields@),
            l@ == start + names_list(fm.take(i as int)),
        decreases fields.len() - i,
    {
        if i > 0 {
            put(l, ", ");
        }
        put_text(l, &fields[i].name);
        proof {
            assert(fm.take(i + 1).drop_last() =~= fm.take(i as int));
            assert(fm.take(i + 1).last() == field_model(fields@[i as int]));
            if i == 0 {
                assert(names_list(fm.take(1)) == fm.take(1)[0].name);
            }
            assert(l@ =~= start + names_list(fm.take(i + 1)));
        }
        i += 1;
    }
    proof {
        assert(fm.take(fields.len() as int) =~= fm);
    }
}

fn push_chars(l: &mut Vec<char>, t: &Vec<char>)
    ensures
        final(l)@ == old(l)@ + t@,
{
    let ghost start = l@;
    let mut i: usize = 0;
    while i < t.len()
        invariant
            i <= t.len(),
            l@ == start + t@.take(i as int),
        decreases t.len() - i,
    {
        l.push(t[i]);
        i += 1;
        proof {
            assert(l@ =~= start + t@.take(i as int));
        }
    }
    proof {
        assert(t@.take(t.len() as int) =~= t@);
    }
}

#[verifier::rlimit(40)]
fn emit_ser_arm(b: &mut CodeBuilder, name: &str, v: &Variant)
    requires
        old(b).indent_size == 4,
    ensures
        final(b).code@ == old(b).code@ + ser_arm(name@, variant_model(*v)),
        final(b).indent_size == 4,
{
    let ghost start = b.code@;
    let w = variant_wire_text(v);
    let mut l: Vec<char> = Vec::new();
    put(&mut l, name);
    put(&mut l, "::");
    put_text(&mut l, &v.name);
    match &v.kind {
        VariantKind::Unit => {
            put(&mut l, " => ::std::result::Result::Ok(::fastjson::encode_unit(");
            put_lit(&mut l, w);
            put(&mut l, ")),");
            emit_line(b, 3, &l);
        },
        VariantKind::Tuple(ts) => {
            put(&mut l, "(");
            put_binders(&mut l, ts.len());
            put(&mut l, ") => ::std::result::Result::Ok(::fastjson::encode_tuple(");
            put_lit(&mut l, w);
            put(&mut l, ", ::std::vec::Vec::from([");
            put_ser_items(&mut l, ts.len());
            put(&mut l, "]))),");
            emit_line(b, 3, &l);
        },
        VariantKind::Struct(fs) => {
            put(&mut l, " { ");
            put_names(&mut l, fs);
            put(&mut l, " } => {");
            emit_line(b, 3, &l);
            emit_line_str(b, 4, "let mut entries: ::std::vec::Vec<(::std::string::String, ::fastjson::Value)> = ::std::vec::Vec::new();");
            let mut t: Vec<char> = Vec::new();
            put(&mut t, "::fastjson::object_insert(&mut entries, ::std::string::String::from(\"type\"), ::fastjson::Value::String(");
            put_string_expr(&mut t, w);
            put(&mut t, "));");
            emit_line(b, 4, &t);
            emit_put_lines(b, fs, 4, false);
            emit_line_str(b, 4, "::std::result::Result::Ok(::fastjson::Value::Object(entries))");
            emit_line_str(b, 3, "}");
        },
    }
    proof {
        assert(b.code@ =~= start + ser_arm(name@, variant_model(*v)));
    }
}

/// Renders the `Serialize` impl of a tagged union.
pub fn generate_enum_serialize(name: &str, variants: &Vec<Variant>) -> (r: String)
    ensures
        r@ == enum_serialize_text(name@, variants_model(variants@)),
{
    let mut b = CodeBuilder::new();
    let mut head: Vec<char> = Vec::new();
    put(&mut head, "impl ::fastjson::Serialize for ");
    put(&mut head, name);
    put(&mut head, " {");
    emit_line(&mut b, 0, &head);
    emit_line_str(&mut b, 1, "fn serialize(&self) -> ::std::result::Result<::fastjson::Value, ::fastjson::Error> {");
    emit_line_str(&mut b, 2, "match self {");
    let ghost start = b.code@;
    let ghost vm = variants_model(variants@);
    let mut i: usize = 0;
    proof {
        assert(vm.take(0) =~= Seq::<VariantModel>::empty());
    }
    while i < variants.len()
        invariant
            i <= variants.len(),
            b.indent_size == 4,
            vm == variants_model(variants@),
            b.code@ == start + ser_arms(name@, vm.take(i as int)),
        decreases variants.len() - i,
    {
        emit_ser_arm(&mut b, name, &variants[i]);
        proof {
            assert(vm.take(i + 1).drop_last() =~= vm.take(i as int));
            assert(vm.take(i + 1).last() == variant_model(variants@[i as int]));
            assert(b.code@ =~= start + ser_arms(name@, vm.take(i + 1)));
        }
        i += 1;
    }
    proof {
        assert(vm.take(variants.len() as int) =~= vm);
    }
    emit_line_str(&mut b, 2, "}");
    emit_line_str(&mut b, 1, "}");
    emit_line_str(&mut b, 0, "}");
    proof {
        assert(b.code@ =~= enum_serialize_text(name@, vm));
    }
    string_of(&b.code)
}

fn emit_unit_arm(b: &mut CodeBuilder, name: &str, v: &Variant)
    requires
        old(b).indent_size == 4,
    ensures
        final(b).code@ == old(b).code@ + (if variant_model(*v).kind is Unit {
            gen_line(4, lit(wire_of(variant_model(*v))) + " => ::std::result::Result::Ok("@ + name@ + "::"@ + variant_model(*v).name + "),"@)
        } else {
            Seq::<char>::empty()
        }),
        final(b).indent_size == 4,
{
    let ghost start = b.code@;
    match &v.kind {
        VariantKind::Unit => {
            let mut l: Vec<char> = Vec::new();
            put_lit(&mut l, variant_wire_text(v));
            put(&mut l, " => ::std::result::Result::Ok(");
            put(&mut l, name);
            put(&mut l, "::");
            put_text(&mut l, &v.name);
            put(&mut l, "),");
            emit_line(b, 4, &l);
        },
        _ => {},
    }
    proof {
        assert(b.code@ =~= start + (if variant_model(*v).kind is Unit {
            gen_line(4, lit(wire_of(variant_model(*v))) + " => ::std::result::Result::Ok("@ + name@ + "::"@ + variant_model(*v).name + "),"@)
        } else {
            Seq::<char>::empty()
        }));
    }
}

#[verifier::rlimit(40)]
fn emit_tag_arm(b: &mut CodeBuilder, name: &str, v: &Variant)
    requires
        old(b).indent_size == 4,
    ensures
        final(b).code@ == old(b).code@ + tag_arm(name@, variant_model(*v)),
        final(b).indent_size == 4,
{
    let ghost start = b.code@;
    let w = variant_wire_text(v);
    let mut ctor: Vec<char> = Vec::new();
    put(&mut ctor, name);
    put(&mut ctor, "::");
    put_text(&mut ctor, &v.name);
    match &v.kind {
        VariantKind::Unit => {},
        VariantKind::Tuple(ts) => {
            let mut l: Vec<char> = Vec::new();
            put_lit(&mut l, w);
            put(&mut l, " => match value.get(\"data\") { ::std::option::Option::Some(::fastjson::Value::Array(items)) if items.len() == ");
            put_digits(&mut l, ts.len());
            put(&mut l, " => ::std::result::Result::Ok(");
            push_chars(&mut l, &ctor);
            put(&mut l, "(");
            put_de_items(&mut l, ts.len());
            put(&mut l, ")), _ => ::std::result::Result::Err(::fastjson::Error::TypeError(::std::string::String::from(\"wrong data for enum variant\"))) },");
            emit_line(b, 6, &l);
        },
        VariantKind::Struct(fs) => {
            let mut l: Vec<char> = Vec::new();
            put_lit(&mut l, w);
            put(&mut l, " => ::std::result::Result::Ok(");
            push_chars(&mut l, &ctor);
            put(&mut l, " {");
            emit_line(b, 6, &l);
            emit_read_lines(b, fs, 7);
            emit_line_str(b, 6, "}),");
        },
    }
    proof {
        assert(b.code@ =~= start + tag_arm(name@, variant_model(*v)));
    }
}

/// Renders the `Deserialize` impl of a tagged union.
pub fn generate_enum_deserialize(name: &str, variants: &Vec<Variant>) -> (r: String)
    ensures
        r@ == enum_deserialize_text(name@, variants_model(variants@)),
{
    let ghost vm = variants_model(variants@);
    let mut b = CodeBuilder::new();
    let mut head: Vec<char> = Vec::new();
    put(&mut head, "impl ::fastjson::Deserialize for ");
    put(&mut head, name);
    put(&mut head, " {");
    emit_line(&mut b, 0, &head);
    emit_line_str(&mut b, 1, "fn deserialize(value: &::fastjson::Value) -> ::std::result::Result<Self, ::fastjson::Error> {");
    emit_line_str(&mut b, 2, "match value {");
    emit_line_str(&mut b, 3, "::fastjson::Value::String(s) => match s.as_str() {");
    let ghost start = b.code@;
    let mut i: usize = 0;
    proof {
        assert(vm.take(0) =~= Seq::<VariantModel>::empty());
    }
    while i < variants.len()
        invariant
            i <= variants.len(),
            b.indent_size == 4,
            vm == variants_model(variants@),
            b.code@ == start + unit_arms(name@, vm.take(i as int)),
        decreases variants.len() - i,
    {
        emit_unit_arm(&mut b, name, &variants[i]);
        proof {
            assert(vm.take(i + 1).drop_last() =~= vm.take(i as int));
            assert(vm.take(i + 1).last() == variant_model(variants@[i as int]));
            assert(b.code@ =~= start + unit_arms(name@, vm.take(i + 1)));
        }
        i += 1;
    }
    proof {
        assert(vm.take(variants.len() as int) =~= vm);
    }
    emit_line_str(&mut b, 4, "_ => ::std::result::Result::Err(::fastjson::Error::TypeError(::std::string::String::from(\"unknown enum variant\"))),");
    emit_line_str(&mut b, 3, "},");
    emit_line_str(&mut b, 3, "::fastjson::Value::Object(_) => match value.get(\"type\") {");
    emit_line_str(&mut b, 4, "::std::option::Option::Some(::fastjson::Value::String(t)) => match t.as_str() {");
    let ghost mid = b.code@;
    let mut k: usize = 0;
    proof {
        assert(vm.take(0) =~= Seq::<VariantModel>::empty());
    }
    while k < variants.len()
        invariant
            k <= variants.len(),
            b.indent_size == 4,
            vm == variants_model(variants@),
            b.code@ == mid + tag_arms(name@, vm.take(k as int)),
        decreases variants.len() - k,
    {
        emit_tag_arm(&mut b, name, &variants[k]);
        proof {
            assert(vm.take(k + 1).drop_last() =~= vm.take(k as int));
            assert(vm.take(k + 1).last() == variant_model(variants@[k as int]));
            assert(b.code@ =~= mid + tag_arms(name@, vm.take(k + 1)));
        }
        k += 1;
    }
    proof {
        assert(vm.take(variants.len() as int) =~= vm);
    }
    emit_line_str(&mut b, 6, "_ => ::std::result::Result::Err(::fastjson::Error::TypeError(::std::string::String::from(\"unknown enum variant type\"))),");
    emit_line_str(&mut b, 4, "},");
    emit_line_str(&mut b, 4, "_ => ::std::result::Result::Err(::fastjson::Error::MissingField(::std::string::String::from(\"type\"))),");
    emit_line_str(&mut b, 3, "},");
    emit_line_str(&mut b, 3, "_ => ::std::result::Result::Err(::fastjson::Error::TypeError(::std::string::String::from(\"expected string or object for enum\"))),");
    emit_line_str(&mut b, 2, "}");
    emit_line_str(&mut b, 1, "}");
    emit_line_str(&mut b, 0, "}");
    proof {
        assert(b.code@ =~= enum_deserialize_text(name@, vm));
    }
    string_of(&b.code)
}

/// Renders the `Serialize` impl of a declaration; `None` when it declares
/// neither a record nor a tagged union.
pub fn derive_serialize_source(input: &str) -> (r: Option<String>)
    ensures
        r is Some <==> !(crate::decl::declared(input@) is Unknown),
        r matches Some(t) ==> match crate::decl::declared(input@) {
            crate::decl::InputModel::Struct { name, fields } => t@ == struct_serialize_text(name, fields),
            crate::decl::InputModel::Enum { name, variants } => t@ == enum_serialize_text(name, variants),
            crate::decl::InputModel::Unknown => false,
        },
{
    match crate::decl::parse_input(input) {
        crate::decl::InputType::Struct { name, fields } => Some(generate_struct_serialize(name.as_str(), &fields)),
        crate::decl::InputType::Enum { name, variants } => Some(generate_enum_serialize(name.as_str(), &variants)),
        crate::decl::InputType::Unknown => None,
    }
}

/// Renders the `Deserialize` impl of a declaration; `None` when it declares
/// neither a record nor a tagged union.
pub fn derive_deserialize_source(input: &str) -> (r: Option<String>)
    ensures
        r is Some <==> !(crate::decl::declared(input@) is Unknown),
        r matches Some(t) ==> match crate::decl::declared(input@) {
            crate::decl::InputModel::Struct { name, fields } => t@ == struct_deserialize_text(name, fields),
            crate::decl::InputModel::Enum { name, variants } => t@ == enum_deserialize_text(name, variants),
            crate::decl::InputModel::Unknown => false,
        },
{
    match crate::decl::parse_input(input) {
        crate::decl::InputType::Struct { name, fields } => Some(generate_struct_deserialize(name.as_str(), &fields)),
        crate::decl::InputType::Enum { name, variants } => Some(generate_enum_deserialize(name.as_str(), &variants)),
        crate::decl::InputType::Unknown => None,
    }
}

} // verus!
