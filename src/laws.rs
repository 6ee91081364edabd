use vstd::prelude::*;

use crate::config::{DelimiterType, PrettyConfig};
use crate::grammar::{keyed_close, render, render_items, render_pair, render_pairs, spaces};
use crate::value::Value;

verus! {

/// Under the `Newline` delimiter with indent width `w`, a keyed container
/// opened at depth `d` writes each of its pairs on a line of its own, after
/// `w·(d+1)` spaces, and, when it is not empty, its closing `}` on a line of
/// its own after `w·d` spaces.
pub proof fn lemma_indent_symmetry(pairs: Seq<(Value, Value)>, c: PrettyConfig, d: nat)
    requires
        c.delimiter == DelimiterType::Newline,
    ensures
        forall|i: int|
            0 <= i < pairs.len() ==> #[trigger] render_pairs(pairs.take(i + 1), c, d)
                == render_pairs(pairs.take(i), c, d) + seq!['\n'] + spaces(
                (c.indent_width * (d + 1)) as nat,
            ) + render_pair(pairs[i], c, d),
        pairs.len() > 0 ==> keyed_close(c, d, pairs.len()) == seq!['\n'] + spaces(
            (c.indent_width * d) as nat,
        ) + seq!['}'],
{
    assert forall|i: int| 0 <= i < pairs.len() implies #[trigger] render_pairs(
        pairs.take(i + 1),
        c,
        d,
    ) == render_pairs(pairs.take(i), c, d) + seq!['\n'] + spaces((c.indent_width * (d + 1)) as nat)
        + render_pair(pairs[i], c, d) by {
        let next = pairs.take(i + 1);
        assert(next.drop_last() =~= pairs.take(i));
        assert(next.last() == pairs[i]);
    }
}

/// A map under the `Newline` delimiter: its pairs follow `{`, and, when it
/// is not empty, its `}` stands on a line of its own after `w·d` spaces.
pub proof fn lemma_map_layout(v: Value, c: PrettyConfig, d: nat, key: bool)
    requires
        c.delimiter == DelimiterType::Newline,
        v matches Value::Mapping(pairs) && pairs@.len() > 0,
    ensures
        v matches Value::Mapping(pairs) && render(v, c, d, key) == seq!['{'] + render_pairs(
            pairs@,
            c,
            d,
        ) + seq!['\n'] + spaces((c.indent_width * d) as nat) + seq!['}'],
{
}

/// Under the `Newline` delimiter the siblings of a sequence or a tuple are
/// separated by a single space, so that no line break stands between them.
pub proof fn lemma_ordered_single_line(items: Seq<Value>, c: PrettyConfig, d: nat, key: bool)
    requires
        c.delimiter == DelimiterType::Newline,
    ensures
        forall|i: int|
            1 <= i < items.len() ==> #[trigger] render_items(items.take(i + 1), c, d, key)
                == render_items(items.take(i), c, d, key) + seq![' '] + render(items[i], c, d, key),
{
    assert forall|i: int| 1 <= i < items.len() implies #[trigger] render_items(
        items.take(i + 1),
        c,
        d,
        key,
    ) == render_items(items.take(i), c, d, key) + seq![' '] + render(items[i], c, d, key) by {
        let next = items.take(i + 1);
        assert(next.drop_last() =~= items.take(i));
        assert(next.last() == items[i]);
    }
}

} // verus!
