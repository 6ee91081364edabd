use vstd::prelude::*;

use crate::config::{DelimiterType, PrettyConfig};
use crate::numeric::decimal_of;
use crate::value::Value;

verus! {

/// `t` between double quotes, not escaped.
pub open spec fn quoted(t: Seq<char>) -> Seq<char> {
    seq!['"'] + t + seq!['"']
}

/// `n` spaces.
pub open spec fn spaces(n: nat) -> Seq<char> {
    Seq::new(n, |_i: int| ' ')
}

/// The indentation of a key at `depth` open keyed containers.
pub open spec fn indent_of(c: PrettyConfig, depth: nat) -> Seq<char> {
    spaces((c.indent_width as nat * depth) as nat)
}

/// What stands between two siblings of a sequence or a tuple. A newline is
/// replaced by a single space there, so that these stay on one line.
pub open spec fn ordered_sep(c: PrettyConfig) -> Seq<char> {
    match c.delimiter {
        DelimiterType::Colon => seq![':', ' '],
        DelimiterType::Whitespace => seq![' '],
        DelimiterType::Newline => seq![' '],
    }
}

/// What stands between two key-value pairs when the delimiter is not `Newline`.
pub open spec fn keyed_sep(c: PrettyConfig) -> Seq<char> {
    match c.delimiter {
        DelimiterType::Colon => seq![':'],
        DelimiterType::Whitespace => seq![' '],
        DelimiterType::Newline => seq!['\n'],
    }
}

/// The text of `v` under config `c`, inside `depth` open keyed containers.
/// With `key` set, strings are written bare, as keys are.
pub open spec fn render(v: Value, c: PrettyConfig, depth: nat, key: bool) -> Seq<char>
    decreases v,
{
    match v {
        Value::Bool(b) => if b {
            seq!['t', 'r', 'u', 'e']
        } else {
            seq!['f', 'a', 'l', 's', 'e']
        },
        Value::Int(i) => decimal_of(i as int),
        Value::UInt(u) => decimal_of(u as int),
        Value::Char(ch) => seq!['\'', ch, '\''],
        Value::Str(s) => if key {
            s@
        } else {
            quoted(s@)
        },
        Value::Unit => seq!['/'],
        Value::Sequence(items) => seq!['['] + render_items(items@, c, depth, key) + seq![']'],
        Value::Tuple(items) => seq!['('] + render_items(items@, c, depth, key) + seq![')'],
        Value::UnitVariant(tag) => seq!['$'] + tag@,
        Value::NewtypeVariant(tag, inner) => seq!['$'] + tag@ + seq!['('] + render(*inner, c, depth, key)
            + seq![')'],
        Value::TupleVariant(tag, items) => seq!['$'] + tag@ + seq!['('] + render_items(
            items@,
            c,
            depth,
            key,
        ) + seq![')'],
        Value::Mapping(pairs) => seq!['{'] + render_pairs(pairs@, c, depth) + keyed_close(
            c,
            depth,
            pairs@.len(),
        ),
        Value::StructVariant(tag, pairs) => seq!['$'] + tag@ + seq!['{'] + render_pairs(pairs@, c, depth)
            + keyed_close(c, depth, pairs@.len()),
    }
}

/// The elements of a sequence or tuple, separated by `ordered_sep`.
pub open spec fn render_items(items: Seq<Value>, c: PrettyConfig, depth: nat, key: bool) -> Seq<
    char,
>
    decreases items,
{
    if items.len() == 0 {
        Seq::empty()
    } else if items.len() == 1 {
        render(items[0], c, depth, key)
    } else {
        render_items(items.drop_last(), c, depth, key) + ordered_sep(c) + render(
            items.last(),
            c,
            depth,
            key,
        )
    }
}

/// One `key->value` pair of a keyed container opened at `depth`.
pub open spec fn render_pair(p: (Value, Value), c: PrettyConfig, depth: nat) -> Seq<char>
    decreases p,
{
    render(p.0, c, depth + 1, true) + seq!['-', '>'] + render(p.1, c, depth + 1, false)
}

/// The pairs of a keyed container opened at `depth`, with what precedes each:
/// under `Newline` a line break and the indentation of `depth + 1`, otherwise
/// the delimiter between siblings.
pub open spec fn render_pairs(pairs: Seq<(Value, Value)>, c: PrettyConfig, depth: nat) -> Seq<
    char,
>
    decreases pairs,
{
    if pairs.len() == 0 {
        Seq::empty()
    } else {
        let lead = if c.delimiter == DelimiterType::Newline {
            seq!['\n'] + indent_of(c, depth + 1)
        } else if pairs.len() == 1 {
            Seq::empty()
        } else {
            keyed_sep(c)
        };
        render_pairs(pairs.drop_last(), c, depth) + lead + render_pair(pairs.last(), c, depth)
    }
}

/// What closes a keyed container opened at `depth` that holds `n` pairs:
/// under `Newline` a non-empty one closes on a line of its own, indented as
/// its opening line.
pub open spec fn keyed_close(c: PrettyConfig, depth: nat, n: nat) -> Seq<char> {
    if c.delimiter == DelimiterType::Newline && n > 0 {
        seq!['\n'] + indent_of(c, depth) + seq!['}']
    } else {
        seq!['}']
    }
}

} // verus!
