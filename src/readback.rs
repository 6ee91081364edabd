use vstd::prelude::*;

use crate::config::{DelimiterType, PrettyConfig};
use crate::error::Error;
use crate::grammar::{
    indent_of, keyed_close, keyed_sep, ordered_sep, render, render_items, render_pair, render_pairs,
};
use crate::numeric::{digits_of, is_digit, lemma_digits_round_trip};
use crate::shape::{conforms, conforms_all, conforms_fields, field_pair, Shape, VariantShape};
use crate::value::Value;

verus! {

/// What may stand between siblings: `:` or whitespace, any number of them.
pub open spec fn is_delim(c: char) -> bool {
    c == ':' || is_space(c)
}

/// Whitespace, skipped between tokens.
pub open spec fn is_space(c: char) -> bool {
    c == ' ' || c == '\t' || c == '\n' || c == '\r'
}

/// A bare key that starts at `i` ends at `i`: at `->`, a delimiter or a
/// closing bracket.
pub open spec fn ends_bare_at(chars: Seq<char>, i: int) -> bool {
    ends_char(chars[i]) || (chars[i] == '-' && i + 1 < chars.len() && chars[i + 1] == '>')
}

/// A string that reads back as a bare key: not empty, not starting with
/// `"` or `/`, and holding nothing that may follow a token, nor `->`.
pub open spec fn bare_safe(k: Seq<char>) -> bool {
    &&& k.len() > 0
    &&& k[0] != '"'
    &&& k[0] != '/'
    &&& forall|i: int| 0 <= i < k.len() ==> !ends_char(#[trigger] k[i])
    &&& forall|i: int| 0 <= i < k.len() - 1 ==> #[trigger] k[i] == '-' ==> k[i + 1] != '>'
}

/// `rest` starts with the key `t` and then `->`.
pub open spec fn keyed_at(rest: Seq<char>, t: Seq<char>) -> bool {
    &&& t.len() + 2 <= rest.len()
    &&& rest.subrange(0, t.len() as int) == t
    &&& rest[t.len() as int] == '-'
    &&& rest[t.len() + 1 as int] == '>'
}

/// A character of a variant tag.
pub open spec fn is_ident(c: char) -> bool {
    ('a' <= c && c <= 'z') || ('A' <= c && c <= 'Z') || ('0' <= c && c <= '9') || c == '_'
}

/// A tag that reads back: not empty, letters, digits and `_` only.
pub open spec fn ident_safe(t: Seq<char>) -> bool {
    t.len() > 0 && forall|i: int| 0 <= i < t.len() ==> is_ident(#[trigger] t[i])
}

/// `rest` starts with the tag `t`, and no tag character follows it.
pub open spec fn ident_at(rest: Seq<char>, t: Seq<char>) -> bool {
    &&& t.len() <= rest.len()
    &&& rest.subrange(0, t.len() as int) == t
    &&& (t.len() == rest.len() || !is_ident(rest[t.len() as int]))
}

/// What follows `k` characters of a text that leads `rest` leads what
/// follows `k` characters of `rest`.
pub(crate) proof fn lemma_leads_skip(rest: Seq<char>, text: Seq<char>, k: int)
    requires
        leads(rest, text),
        0 <= k <= text.len(),
    ensures
        leads(rest.subrange(k, rest.len() as int), text.subrange(k, text.len() as int)),
{
    let r2 = rest.subrange(k, rest.len() as int);
    let t2 = text.subrange(k, text.len() as int);
    assert forall|j: int| 0 <= j < t2.len() implies #[trigger] r2.subrange(0, t2.len() as int)[j]
        == t2[j] by {
        assert(rest.subrange(0, text.len() as int)[k + j] == text[k + j]);
    }
    assert(r2.subrange(0, t2.len() as int) =~= t2);
    if t2.len() < r2.len() {
        assert(r2[t2.len() as int] == rest[text.len() as int]);
    }
}

/// A text that leads `rest` and is followed inside the text by a character
/// that may follow a token: its first part leads `rest` too.
pub(crate) proof fn lemma_leads_prefix(rest: Seq<char>, a: Seq<char>, b: Seq<char>)
    requires
        leads(rest, a + b),
        b.len() > 0,
        ends_char(b[0]),
    ensures
        leads(rest, a),
{
    let t = a + b;
    assert forall|j: int| 0 <= j < a.len() implies #[trigger] rest.subrange(0, a.len() as int)[j]
        == a[j] by {
        assert(rest.subrange(0, t.len() as int)[j] == t[j]);
    }
    assert(rest.subrange(0, a.len() as int) =~= a);
    assert(rest.subrange(0, t.len() as int)[a.len() as int] == t[a.len() as int]);
}

/// What may follow a token: the end, a delimiter or a closing bracket.
pub open spec fn ends_char(c: char) -> bool {
    c == ':' || is_space(c) || c == ']' || c == ')' || c == '}'
}

/// `rest` starts with `text`, and what follows `text` may follow a token.
pub open spec fn leads(rest: Seq<char>, text: Seq<char>) -> bool {
    &&& text.len() <= rest.len()
    &&& rest.subrange(0, text.len() as int) == text
    &&& (text.len() == rest.len() || ends_char(rest[text.len() as int]))
}

/// A scalar whose text reads back as itself: any but a string that holds
/// a double quote, which the format does not escape.
pub open spec fn plain_scalar(v: Value) -> bool {
    match v {
        Value::Bool(_) | Value::Int(_) | Value::UInt(_) | Value::Char(_) | Value::Unit => true,
        Value::Str(s) => !s@.contains('"'),
        _ => false,
    }
}

/// `v` is a value of shape `s` whose text reads back as `v`, for a shape
/// whose variant tags are distinct.
pub open spec fn round_trips(v: Value, s: Shape) -> bool {
    text_safe(v) && conforms(v, s) && shape_readable(s)
}

/// A shape whose enums have distinct variant tags, at any depth.
pub open spec fn shape_readable(s: Shape) -> bool
    decreases s,
{
    match s {
        Shape::Optional(inner) => shape_readable(*inner),
        Shape::Sequence(inner) => shape_readable(*inner),
        Shape::Tuple(shapes) => shapes_readable(shapes@),
        Shape::Mapping(k, w) => shape_readable(*k) && shape_readable(*w),
        Shape::Struct(fields) => fields_readable(fields@),
        Shape::Enum(variants) => variants_readable(variants@),
        _ => true,
    }
}

pub open spec fn shapes_readable(shapes: Seq<Shape>) -> bool
    decreases shapes,
{
    if shapes.len() == 0 {
        true
    } else {
        shapes_readable(shapes.drop_last()) && shape_readable(shapes.last())
    }
}

/// Variants with distinct tags and readable payloads.
pub open spec fn variants_readable(vs: Seq<(String, VariantShape)>) -> bool
    decreases vs,
{
    if vs.len() == 0 {
        true
    } else {
        &&& variants_readable(vs.drop_last())
        &&& payload_readable(vs.last().1)
        &&& forall|j: int| 0 <= j < vs.len() - 1 ==> (#[trigger] vs[j]).0@ != vs.last().0@
    }
}

pub open spec fn payload_readable(p: VariantShape) -> bool
    decreases p,
{
    match p {
        VariantShape::Unit => true,
        VariantShape::Newtype(s) => shape_readable(s),
        VariantShape::Tuple(ss) => shapes_readable(ss@),
        VariantShape::Struct(fs) => fields_readable(fs@),
    }
}

pub(crate) proof fn lemma_variants_readable_index(vs: Seq<(String, VariantShape)>, i: int)
    requires
        variants_readable(vs),
        0 <= i < vs.len(),
    ensures
        payload_readable(vs[i].1),
        forall|j: int| 0 <= j < i ==> (#[trigger] vs[j]).0@ != vs[i].0@,
    decreases vs.len(),
{
    if i < vs.len() - 1 {
        lemma_variants_readable_index(vs.drop_last(), i);
        assert forall|j: int| 0 <= j < i implies (#[trigger] vs[j]).0@ != vs[i].0@ by {
            assert(vs.drop_last()[j] == vs[j]);
        }
    }
}

pub open spec fn fields_readable(fields: Seq<(String, Shape)>) -> bool
    decreases fields,
{
    if fields.len() == 0 {
        true
    } else {
        fields_readable(fields.drop_last()) && shape_readable(fields.last().1)
    }
}

pub(crate) proof fn lemma_fields_readable_index(fields: Seq<(String, Shape)>, i: int)
    requires
        fields_readable(fields),
        0 <= i < fields.len(),
    ensures
        shape_readable(fields[i].1),
    decreases fields.len(),
{
    if i < fields.len() - 1 {
        lemma_fields_readable_index(fields.drop_last(), i);
    }
}

pub(crate) proof fn lemma_conforms_fields_len(pairs: Seq<(Value, Value)>, fields: Seq<(String, Shape)>)
    requires
        conforms_fields(pairs, fields),
    ensures
        pairs.len() == fields.len(),
{
}

pub(crate) proof fn lemma_conforms_fields_index(pairs: Seq<(Value, Value)>, fields: Seq<(String, Shape)>, i: int)
    requires
        conforms_fields(pairs, fields),
        0 <= i < fields.len(),
    ensures
        field_pair(pairs[i], fields[i]),
    decreases fields.len(),
{
    if i < fields.len() - 1 {
        lemma_conforms_fields_index(pairs.drop_last(), fields.drop_last(), i);
    }
}

pub(crate) proof fn lemma_same_pairs_from_index(xs: Seq<(Value, Value)>, ps: Seq<(Value, Value)>)
    requires
        xs.len() == ps.len(),
        forall|i: int| 0 <= i < ps.len() ==> #[trigger] same_entry(xs[i], ps[i]),
    ensures
        same_pairs(xs, ps),
    decreases ps.len(),
{
    if ps.len() > 0 {
        assert forall|i: int| 0 <= i < ps.len() - 1 implies #[trigger] same_entry(
            xs.drop_last()[i],
            ps.drop_last()[i],
        ) by {
            assert(same_entry(xs[i], ps[i]));
        }
        lemma_same_pairs_from_index(xs.drop_last(), ps.drop_last());
        assert(same_entry(xs[ps.len() - 1], ps[ps.len() - 1]));
    }
}

pub(crate) proof fn lemma_shapes_readable_index(shapes: Seq<Shape>, i: int)
    requires
        shapes_readable(shapes),
        0 <= i < shapes.len(),
    ensures
        shape_readable(shapes[i]),
    decreases shapes.len(),
{
    if i < shapes.len() - 1 {
        lemma_shapes_readable_index(shapes.drop_last(), i);
    }
}

/// A value whose text reads back as itself: plain scalars; sequences,
/// tuples and maps of such values, maps keyed by distinct bare-safe strings;
/// and variants with identifier tags and such payloads.
pub open spec fn text_safe(v: Value) -> bool
    decreases v,
{
    match v {
        Value::Sequence(items) => text_safe_all(items@),
        Value::Tuple(items) => text_safe_all(items@),
        Value::Mapping(pairs) => text_safe_pairs(pairs@),
        Value::UnitVariant(tag) => ident_safe(tag@),
        Value::NewtypeVariant(tag, inner) => ident_safe(tag@) && text_safe(*inner),
        Value::TupleVariant(tag, items) => ident_safe(tag@) && text_safe_all(items@),
        Value::StructVariant(tag, pairs) => ident_safe(tag@) && text_safe_pairs(pairs@),
        _ => plain_scalar(v),
    }
}

pub open spec fn text_safe_all(items: Seq<Value>) -> bool
    decreases items,
{
    if items.len() == 0 {
        true
    } else {
        text_safe_all(items.drop_last()) && text_safe(items.last())
    }
}

/// `a` is `b`: the same value, strings compared by their text.
pub open spec fn same_value(a: Value, b: Value) -> bool
    decreases b,
{
    match b {
        Value::Str(s) => a matches Value::Str(t) && t@ == s@,
        Value::Sequence(items) => a matches Value::Sequence(xs) && same_all(xs@, items@),
        Value::Tuple(items) => a matches Value::Tuple(xs) && same_all(xs@, items@),
        Value::Mapping(ps) => a matches Value::Mapping(xs) && same_pairs(xs@, ps@),
        Value::UnitVariant(t) => a matches Value::UnitVariant(x) && x@ == t@,
        Value::NewtypeVariant(t, inner) => a matches Value::NewtypeVariant(x, ai) && x@ == t@
            && same_value(*ai, *inner),
        Value::TupleVariant(t, items) => a matches Value::TupleVariant(x, xs) && x@ == t@
            && same_all(xs@, items@),
        Value::StructVariant(t, ps) => a matches Value::StructVariant(x, xs) && x@ == t@
            && same_pairs(xs@, ps@),
        _ => a == b,
    }
}

pub open spec fn same_all(xs: Seq<Value>, items: Seq<Value>) -> bool
    decreases items,
{
    if items.len() == 0 {
        xs.len() == 0
    } else {
        &&& xs.len() == items.len()
        &&& same_all(xs.drop_last(), items.drop_last())
        &&& same_value(xs.last(), items.last())
    }
}

/// Map entries with distinct bare-safe string keys and text-safe values.
pub open spec fn text_safe_pairs(ps: Seq<(Value, Value)>) -> bool
    decreases ps,
{
    if ps.len() == 0 {
        true
    } else {
        &&& text_safe_pairs(ps.drop_last())
        &&& text_safe_entry(ps.last())
        &&& forall|j: int| 0 <= j < ps.len() - 1 ==> !same_key(#[trigger] ps[j].0, ps.last().0)
    }
}

pub open spec fn text_safe_entry(p: (Value, Value)) -> bool
    decreases p,
{
    &&& p.0 matches Value::Str(k) && bare_safe(k@)
    &&& text_safe(p.1)
}

/// Two string keys with the same text.
pub open spec fn same_key(a: Value, b: Value) -> bool {
    a matches Value::Str(x) && b matches Value::Str(y) && x@ == y@
}

pub open spec fn same_pairs(xs: Seq<(Value, Value)>, ps: Seq<(Value, Value)>) -> bool
    decreases ps,
{
    if ps.len() == 0 {
        xs.len() == 0
    } else {
        &&& xs.len() == ps.len()
        &&& same_pairs(xs.drop_last(), ps.drop_last())
        &&& same_entry(xs.last(), ps.last())
    }
}

pub open spec fn same_entry(x: (Value, Value), p: (Value, Value)) -> bool
    decreases p,
{
    same_value(x.0, p.0) && same_value(x.1, p.1)
}

pub(crate) proof fn lemma_text_safe_pairs_index(ps: Seq<(Value, Value)>, i: int)
    requires
        text_safe_pairs(ps),
        0 <= i < ps.len(),
    ensures
        text_safe_entry(ps[i]),
        forall|j: int| 0 <= j < i ==> !same_key(#[trigger] ps[j].0, ps[i].0),
    decreases ps.len(),
{
    if i < ps.len() - 1 {
        lemma_text_safe_pairs_index(ps.drop_last(), i);
        assert forall|j: int| 0 <= j < i implies !same_key(#[trigger] ps[j].0, ps[i].0) by {
            assert(ps.drop_last()[j] == ps[j]);
        }
    }
}

pub(crate) proof fn lemma_same_pairs_index(xs: Seq<(Value, Value)>, ps: Seq<(Value, Value)>, i: int)
    requires
        same_pairs(xs, ps),
        0 <= i < ps.len(),
    ensures
        xs.len() == ps.len(),
        same_entry(xs[i], ps[i]),
    decreases ps.len(),
{
    if i < ps.len() - 1 {
        lemma_same_pairs_index(xs.drop_last(), ps.drop_last(), i);
    }
}

/// What stands before the pair at index `k` of a keyed container opened at `d`.
pub open spec fn pair_lead(c: PrettyConfig, d: nat, k: int) -> Seq<char> {
    if c.delimiter == DelimiterType::Newline {
        seq!['\n'] + indent_of(c, d + 1)
    } else if k == 0 {
        Seq::empty()
    } else {
        keyed_sep(c)
    }
}

pub(crate) proof fn lemma_pairs_step(ps: Seq<(Value, Value)>, c: PrettyConfig, d: nat, k: int)
    requires
        0 <= k < ps.len(),
    ensures
        render_pairs(ps.take(k + 1), c, d) == render_pairs(ps.take(k), c, d) + pair_lead(c, d, k)
            + render_pair(ps[k], c, d),
{
    let next = ps.take(k + 1);
    assert(next.drop_last() =~= ps.take(k));
    assert(next.last() == ps[k]);
}

pub(crate) proof fn lemma_pairs_prefix(ps: Seq<(Value, Value)>, c: PrettyConfig, d: nat, n: int, m: int)
    requires
        0 <= n <= m <= ps.len(),
    ensures
        render_pairs(ps.take(n), c, d).len() <= render_pairs(ps.take(m), c, d).len(),
        render_pairs(ps.take(m), c, d).subrange(0, render_pairs(ps.take(n), c, d).len() as int)
            == render_pairs(ps.take(n), c, d),
    decreases m - n,
{
    let tn = render_pairs(ps.take(n), c, d);
    if n == m {
        assert(tn.subrange(0, tn.len() as int) =~= tn);
    } else {
        lemma_pairs_prefix(ps, c, d, n, m - 1);
        lemma_pairs_step(ps, c, d, m - 1);
        let tp = render_pairs(ps.take(m - 1), c, d);
        let tm = render_pairs(ps.take(m), c, d);
        assert(tm.subrange(0, tn.len() as int) =~= tp.subrange(0, tn.len() as int));
    }
}

/// `slot` holds a value read back as `v`.
pub open spec fn slot_holds(slot: Option<Value>, v: Value) -> bool {
    slot matches Some(x) && same_value(x, v)
}

/// The key of `p` is the string `name`.
pub open spec fn named(p: (Value, Value), name: Seq<char>) -> bool {
    p.0 matches Value::Str(nm) && nm@ == name
}

/// `r` is `v` read back.
pub open spec fn reads_back(r: Result<Value, Error>, v: Value) -> bool {
    r matches Ok(w) && same_value(w, v)
}

/// The text of a text-safe value is not empty, does not start with what may
/// follow a token, and starts with `/` only for the unit.
pub(crate) proof fn lemma_text_start(v: Value, c: PrettyConfig, d: nat)
    requires
        text_safe(v),
    ensures
        render(v, c, d, false).len() > 0,
        !ends_char(render(v, c, d, false)[0]),
        render(v, c, d, false)[0] == '/' ==> v is Unit,
{
    match v {
        Value::Int(i) => {
            if i >= 0 {
                lemma_digits_round_trip(i as nat);
                assert(is_digit(digits_of(i as nat)[0]));
            }
        },
        Value::UInt(n) => {
            lemma_digits_round_trip(n as nat);
            assert(is_digit(digits_of(n as nat)[0]));
        },
        _ => {},
    }
}

pub(crate) proof fn lemma_text_safe_all_index(items: Seq<Value>, i: int)
    requires
        text_safe_all(items),
        0 <= i < items.len(),
    ensures
        text_safe(items[i]),
    decreases items.len(),
{
    if i < items.len() - 1 {
        lemma_text_safe_all_index(items.drop_last(), i);
    }
}

pub(crate) proof fn lemma_conforms_all_len(items: Seq<Value>, shapes: Seq<Shape>)
    requires
        conforms_all(items, shapes),
    ensures
        items.len() == shapes.len(),
{
}

pub(crate) proof fn lemma_conforms_all_index(items: Seq<Value>, shapes: Seq<Shape>, i: int)
    requires
        conforms_all(items, shapes),
        0 <= i < shapes.len(),
    ensures
        items.len() == shapes.len(),
        conforms(items[i], shapes[i]),
    decreases shapes.len(),
{
    if i < shapes.len() - 1 {
        lemma_conforms_all_index(items.drop_last(), shapes.drop_last(), i);
    }
}

/// What stands before the element at index `n` of a sequence or tuple.
pub open spec fn lead_of(c: PrettyConfig, n: int) -> Seq<char> {
    if n > 0 {
        ordered_sep(c)
    } else {
        Seq::empty()
    }
}

pub(crate) proof fn lemma_items_step(its: Seq<Value>, c: PrettyConfig, d: nat, n: int)
    requires
        0 <= n < its.len(),
    ensures
        render_items(its.take(n + 1), c, d, false) == render_items(its.take(n), c, d, false)
            + lead_of(c, n) + render(its[n], c, d, false),
{
    let next = its.take(n + 1);
    assert(next.drop_last() =~= its.take(n));
    assert(next.last() == its[n]);
    if n == 0 {
        assert(render_items(its.take(0), c, d, false) =~= Seq::<char>::empty());
        assert(next[0] == its[0]);
        assert(render_items(its.take(n), c, d, false) + lead_of(c, n) + render(its[n], c, d, false)
            =~= render(its[n], c, d, false));
    }
}

pub(crate) proof fn lemma_items_prefix(its: Seq<Value>, c: PrettyConfig, d: nat, n: int, m: int)
    requires
        0 <= n <= m <= its.len(),
    ensures
        render_items(its.take(n), c, d, false).len() <= render_items(its.take(m), c, d, false).len(),
        render_items(its.take(m), c, d, false).subrange(
            0,
            render_items(its.take(n), c, d, false).len() as int,
        ) == render_items(its.take(n), c, d, false),
    decreases m - n,
{
    let tn = render_items(its.take(n), c, d, false);
    if n == m {
        assert(tn.subrange(0, tn.len() as int) =~= tn);
    } else {
        lemma_items_prefix(its, c, d, n, m - 1);
        lemma_items_step(its, c, d, m - 1);
        let tp = render_items(its.take(m - 1), c, d, false);
        let tm = render_items(its.take(m), c, d, false);
        assert(tm.subrange(0, tn.len() as int) =~= tp.subrange(0, tn.len() as int));
    }
}

/// Inside the text of an ordered container that opens at `origin` of `chars`,
/// with elements `its`: after the opening bracket and the first `n`
/// elements comes the next element with what precedes it, and after that
/// element a character that may follow a token; after all of them comes `close`.
pub(crate) proof fn lemma_ordered_text(
    chars: Seq<char>,
    origin: int,
    its: Seq<Value>,
    c: PrettyConfig,
    d: nat,
    n: int,
    open: char,
    close: char,
)
    requires
        0 <= origin,
        0 <= n <= its.len(),
        text_safe_all(its),
        origin + render_items(its, c, d, false).len() + 2 <= chars.len(),
        forall|k: int|
            0 <= k < render_items(its, c, d, false).len() + 2 ==> #[trigger] chars[origin + k] == (
            seq![open] + render_items(its, c, d, false) + seq![close])[k],
    ensures
        ({
            let pos = origin + 1 + render_items(its.take(n), c, d, false).len();
            &&& its.take(its.len() as int) == its
            &&& n == its.len() ==> chars[pos] == close
            &&& pos < origin + render_items(its, c, d, false).len() + 2
            &&& n < its.len() ==> {
                let lead = lead_of(c, n);
                let e = render(its[n], c, d, false);
                &&& pos + lead.len() + e.len() < origin + render_items(its, c, d, false).len() + 2
                &&& forall|j: int|
                    0 <= j < lead.len() + e.len() ==> #[trigger] chars[pos + j] == (lead + e)[j]
                &&& (n + 1 < its.len() ==> chars[pos + lead.len() + e.len()] == ordered_sep(c)[0])
                &&& (n + 1 == its.len() ==> chars[pos + lead.len() + e.len()] == close)
            }
        }),
{
    let all = render_items(its, c, d, false);
    let full = seq![open] + all + seq![close];
    assert(its.take(its.len() as int) =~= its);
    let tn = render_items(its.take(n), c, d, false);
    lemma_items_prefix(its, c, d, n, its.len() as int);
    let pos = origin + 1 + tn.len();
    if n == its.len() {
        assert(chars[origin + (all.len() + 1)] == full[(all.len() + 1) as int]);
    } else {
        lemma_items_step(its, c, d, n);
        lemma_items_prefix(its, c, d, n + 1, its.len() as int);
        let lead = lead_of(c, n);
        let e = render(its[n], c, d, false);
        let t1 = render_items(its.take(n + 1), c, d, false);
        assert forall|j: int| 0 <= j < lead.len() + e.len() implies #[trigger] chars[pos + j] == (
        lead + e)[j] by {
            assert(chars[origin + (1 + tn.len() + j)] == full[1 + tn.len() + j]);
            assert(full[1 + tn.len() + j] == all[tn.len() + j]);
            assert(all.subrange(0, t1.len() as int)[tn.len() + j] == t1[tn.len() + j]);
        }
        if n + 1 < its.len() {
            lemma_items_step(its, c, d, n + 1);
            lemma_items_prefix(its, c, d, n + 2, its.len() as int);
            let t2 = render_items(its.take(n + 2), c, d, false);
            assert(chars[origin + (1 + t1.len())] == full[(1 + t1.len()) as int]);
            assert(all.subrange(0, t2.len() as int)[t1.len() as int] == t2[t1.len() as int]);
            lemma_text_safe_all_index(its, n + 1);
            lemma_text_start(its[n + 1], c, d);
        } else {
            assert(its.take(n + 1) =~= its);
            assert(chars[origin + (1 + all.len())] == full[(1 + all.len()) as int]);
        }
    }
}

/// The tag of a variant value.
pub open spec fn variant_tag(v: Value) -> Seq<char> {
    match v {
        Value::UnitVariant(t) => t@,
        Value::NewtypeVariant(t, _) => t@,
        Value::TupleVariant(t, _) => t@,
        Value::StructVariant(t, _) => t@,
        _ => Seq::empty(),
    }
}

/// What follows the tag in the text of a variant value.
pub open spec fn payload_text(v: Value, c: PrettyConfig, d: nat) -> Seq<char> {
    match v {
        Value::NewtypeVariant(_, inner) => seq!['('] + render(*inner, c, d, false) + seq![')'],
        Value::TupleVariant(_, items) => seq!['('] + render_items(items@, c, d, false) + seq![')'],
        Value::StructVariant(_, pairs) => seq!['{'] + render_pairs(pairs@, c, d) + keyed_close(
            c,
            d,
            pairs@.len(),
        ),
        _ => Seq::empty(),
    }
}

/// The payload of `v` has the form that `p` declares, with values of its shapes.
pub open spec fn variant_fits(v: Value, p: VariantShape) -> bool {
    match v {
        Value::UnitVariant(_) => p is Unit,
        Value::NewtypeVariant(_, inner) => p matches VariantShape::Newtype(s) && conforms(*inner, s),
        Value::TupleVariant(_, items) => p matches VariantShape::Tuple(ps) && conforms_all(
            items@,
            ps@,
        ),
        Value::StructVariant(_, pairs) => p matches VariantShape::Struct(fs) && conforms_fields(
            pairs@,
            fs@,
        ),
        _ => false,
    }
}

pub(crate) proof fn lemma_enum_conforms(v: Value, variants: Vec<(String, VariantShape)>)
    requires
        conforms(v, Shape::Enum(variants)),
    ensures
        exists|i: int|
            0 <= i < variants@.len() && #[trigger] variants@[i].0@ == variant_tag(v) && variant_fits(
                v,
                variants@[i].1,
            ),
{
}

/// The text of a variant value: `$`, the tag, then the payload, which
/// starts with a bracket when there is one.
pub(crate) proof fn lemma_variant_text(v: Value, c: PrettyConfig, d: nat)
    requires
        v is UnitVariant || v is NewtypeVariant || v is TupleVariant || v is StructVariant,
    ensures
        render(v, c, d, false) == seq!['$'] + variant_tag(v) + payload_text(v, c, d),
        v is UnitVariant <==> payload_text(v, c, d).len() == 0,
        payload_text(v, c, d).len() > 0 ==> (payload_text(v, c, d)[0] == '(' || payload_text(
            v,
            c,
            d,
        )[0] == '{'),
        v is NewtypeVariant || v is TupleVariant ==> payload_text(v, c, d)[0] == '(',
        v is StructVariant ==> payload_text(v, c, d)[0] == '{',
{
    match v {
        Value::UnitVariant(t) => {
            assert(render(v, c, d, false) =~= seq!['$'] + t@ + Seq::<char>::empty());
        },
        Value::NewtypeVariant(t, inner) => {
            assert(render(v, c, d, false) =~= seq!['$'] + t@ + payload_text(v, c, d));
        },
        Value::TupleVariant(t, items) => {
            assert(render(v, c, d, false) =~= seq!['$'] + t@ + payload_text(v, c, d));
        },
        Value::StructVariant(t, pairs) => {
            assert(render(v, c, d, false) =~= seq!['$'] + t@ + payload_text(v, c, d));
        },
        _ => {},
    }
}

} // verus!
