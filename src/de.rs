use vstd::prelude::*;

use crate::config::{DelimiterType, PrettyConfig};
use crate::error::{Error, Iterable};
use crate::grammar::{
    indent_of, keyed_close, quoted, render, render_items, render_pair, render_pairs,
};
use crate::numeric::{
    decimal_of, digits_of, digits_value, is_digit, lemma_digits_round_trip, push_char,
};
use crate::readback::{
    bare_safe, ends_bare_at, ends_char, ident_at, ident_safe, is_delim, is_ident, is_space,
    keyed_at, lead_of, leads, lemma_conforms_all_index, lemma_conforms_all_len,
    lemma_conforms_fields_index, lemma_conforms_fields_len, lemma_enum_conforms,
    lemma_fields_readable_index, lemma_items_step, lemma_leads_prefix, lemma_leads_skip,
    lemma_ordered_text, lemma_pairs_prefix, lemma_pairs_step, lemma_same_pairs_from_index,
    lemma_same_pairs_index, lemma_shapes_readable_index, lemma_text_safe_all_index,
    lemma_text_safe_pairs_index, lemma_text_start, lemma_variant_text,
    lemma_variants_readable_index, named, pair_lead, payload_readable, payload_text, reads_back,
    round_trips, same_all, same_entry, same_key, same_pairs, same_value, shape_readable, slot_holds,
    text_safe, text_safe_all, text_safe_pairs, variant_fits, variant_tag,
};
use crate::shape::{conforms, conforms_all, conforms_fields, field_pair, Shape, VariantShape};
use crate::value::Value;
use vstd::std_specs::iter::IteratorSpec;

verus! {

/// The line and column (both from 1) reached after reading `s` from the
/// start: a `\n` starts a new line.
pub open spec fn line_col(s: Seq<char>) -> (nat, nat)
    decreases s.len(),
{
    if s.len() == 0 {
        (1, 1)
    } else {
        let (l, c) = line_col(s.drop_last());
        if s.last() == '\n' {
            (l + 1, 1)
        } else {
            (l, c + 1)
        }
    }
}

proof fn lemma_line_col_bound(s: Seq<char>)
    ensures
        line_col(s).0 + line_col(s).1 <= s.len() + 2,
        line_col(s).0 >= 1,
        line_col(s).1 >= 1,
    decreases s.len(),
{
    if s.len() > 0 {
        lemma_line_col_bound(s.drop_last());
    }
}

/// `(line, column)` is the position of some offset of `text`.
pub open spec fn located(text: Seq<char>, line: u32, column: u32) -> bool {
    exists|p: int| 0 <= p <= text.len() && #[trigger] line_col(text.take(p)) == (line as nat, column as nat)
}

/// `e` is an error of the parser on `text`: it carries the position of some
/// offset of `text`.
pub open spec fn located_error(text: Seq<char>, e: Error) -> bool {
    match e {
        Error::Message(_) => false,
        Error::UnrecognizedSyntax(l, c) => located(text, l, c),
        Error::SequenceKeptOpen(_, l, c) => located(text, l, c),
        Error::InvalidKey(l, c) => located(text, l, c),
        Error::InvalidValue(l, c) => located(text, l, c),
    }
}

/// A position in the text, as errors report it.
#[derive(Clone, Copy)]
struct Mark {
    line: u32,
    column: u32,
    offset: Ghost<int>,
}

/// Reads a value of an expected shape from text, tracking the line and
/// column of the cursor.
struct Deserializer {
    chars: Vec<char>,
    pos: usize,
    line: u32,
    column: u32,
}

impl Deserializer {
    /// The cursor is within the text, and the line and column are those of
    /// the cursor.
    spec fn well_formed(&self) -> bool {
        &&& self.pos <= self.chars@.len()
        &&& self.chars@.len() < u32::MAX
        &&& line_col(self.chars@.take(self.pos as int)) == (self.line as nat, self.column as nat)
    }

    spec fn mark_ok(&self, m: Mark) -> bool {
        &&& 0 <= m.offset@ <= self.chars@.len()
        &&& line_col(self.chars@.take(m.offset@)) == (m.line as nat, m.column as nat)
    }

    /// A reader at the start of `input`.
    fn new(input: &str) -> (r: Deserializer)
        requires
            input@.len() < u32::MAX,
        ensures
            r.well_formed(),
            r.chars@ == input@,
            r.pos == 0,
    {
        let chars = chars_of(input);
        let r = Deserializer { chars, pos: 0, line: 1, column: 1 };
        assert(r.chars@.take(0) =~= Seq::<char>::empty());
        r
    }

    fn mark(&self) -> (m: Mark)
        requires
            self.well_formed(),
        ensures
            self.mark_ok(m),
            m.offset@ == self.pos,
    {
        Mark { line: self.line, column: self.column, offset: Ghost(self.pos as int) }
    }

    fn peek(&self) -> (r: Option<char>)
        requires
            self.well_formed(),
        ensures
            r == (if self.pos < self.chars@.len() {
                Some(self.chars@[self.pos as int])
            } else {
                None
            }),
    {
        if self.pos < self.chars.len() {
            Some(self.chars[self.pos])
        } else {
            None
        }
    }

    fn peek_at(&self, ahead: usize) -> (r: Option<char>)
        requires
            self.well_formed(),
        ensures
            r == (if self.pos + ahead < self.chars@.len() {
                Some(self.chars@[self.pos + ahead])
            } else {
                None
            }),
    {
        if ahead < self.chars.len() - self.pos {
            Some(self.chars[self.pos + ahead])
        } else {
            None
        }
    }

    /// Moves the cursor past one character.
    fn bump(&mut self)
        requires
            old(self).well_formed(),
            old(self).pos < old(self).chars@.len(),
        ensures
            final(self).well_formed(),
            final(self).chars == old(self).chars,
            final(self).pos == old(self).pos + 1,
    {
        let c = self.chars[self.pos];
        proof {
            let next = self.chars@.take(self.pos + 1);
            assert(next.drop_last() =~= self.chars@.take(self.pos as int));
            lemma_line_col_bound(next);
        }
        if c == '\n' {
            self.line = self.line + 1;
            self.column = 1;
        } else {
            self.column = self.column + 1;
        }
        self.pos = self.pos + 1;
    }
}

impl Deserializer {
    /// Still well formed, on the same text, and not moved backwards.
    spec fn follows(&self, before: Deserializer) -> bool {
        &&& self.well_formed()
        &&& self.chars@ == before.chars@
        &&& self.pos >= before.pos
    }

    fn syntax_error(&self, m: Mark) -> (e: Error)
        requires
            self.mark_ok(m),
        ensures
            located_error(self.chars@, e),
            e is UnrecognizedSyntax,
    {
        proof {
            assert(line_col(self.chars@.take(m.offset@)) == (m.line as nat, m.column as nat));
        }
        Error::UnrecognizedSyntax(m.line, m.column)
    }

    fn key_error(&self, m: Mark) -> (e: Error)
        requires
            self.mark_ok(m),
        ensures
            located_error(self.chars@, e),
            e is InvalidKey,
    {
        proof {
            assert(line_col(self.chars@.take(m.offset@)) == (m.line as nat, m.column as nat));
        }
        Error::InvalidKey(m.line, m.column)
    }

    fn value_error(&self, m: Mark) -> (e: Error)
        requires
            self.mark_ok(m),
        ensures
            located_error(self.chars@, e),
            e is InvalidValue,
    {
        proof {
            assert(line_col(self.chars@.take(m.offset@)) == (m.line as nat, m.column as nat));
        }
        Error::InvalidValue(m.line, m.column)
    }

    fn open_error(&self, kind: Iterable, m: Mark) -> (e: Error)
        requires
            self.mark_ok(m),
        ensures
            located_error(self.chars@, e),
            e is SequenceKeptOpen,
    {
        proof {
            assert(line_col(self.chars@.take(m.offset@)) == (m.line as nat, m.column as nat));
        }
        Error::SequenceKeptOpen(kind, m.line, m.column)
    }

    /// Skips whitespace.
    fn skip_space(&mut self)
        requires
            old(self).well_formed(),
        ensures
            final(self).follows(*old(self)),
            forall|j: int|
                old(self).pos <= j < final(self).pos ==> is_space(#[trigger] final(self).chars@[j]),
            final(self).pos < final(self).chars@.len() ==> !is_space(
                final(self).chars@[final(self).pos as int],
            ),
    {
        while self.pos < self.chars.len() && (self.chars[self.pos] == ' ' || self.chars[self.pos]
            == '\t' || self.chars[self.pos] == '\n' || self.chars[self.pos] == '\r')
            invariant
                self.follows(*old(self)),
                forall|j: int| old(self).pos <= j < self.pos ==> is_space(#[trigger] self.chars@[j]),
            decreases self.chars@.len() - self.pos,
        {
            self.bump();
        }
    }

    /// Skips a run of delimiters; tells whether there was one.
    fn skip_delimiters(&mut self) -> (r: bool)
        requires
            old(self).well_formed(),
        ensures
            final(self).follows(*old(self)),
            r == (final(self).pos > old(self).pos),
            forall|j: int|
                old(self).pos <= j < final(self).pos ==> is_delim(#[trigger] final(self).chars@[j]),
            final(self).pos < final(self).chars@.len() ==> !is_delim(
                final(self).chars@[final(self).pos as int],
            ),
    {
        let start = self.pos;
        while self.pos < self.chars.len() && (self.chars[self.pos] == ':' || self.chars[self.pos]
            == ' ' || self.chars[self.pos] == '\t' || self.chars[self.pos] == '\n'
            || self.chars[self.pos] == '\r')
            invariant
                self.follows(*old(self)),
                start == old(self).pos,
                forall|j: int| old(self).pos <= j < self.pos ==> is_delim(#[trigger] self.chars@[j]),
            decreases self.chars@.len() - self.pos,
        {
            self.bump();
        }
        self.pos > start
    }

    /// Moves past `c` if it is next.
    fn eat(&mut self, c: char) -> (r: bool)
        requires
            old(self).well_formed(),
        ensures
            final(self).follows(*old(self)),
            r == (old(self).pos < old(self).chars@.len() && old(self).chars@[old(self).pos as int]
                == c),
            r ==> final(self).pos == old(self).pos + 1,
            !r ==> final(self).pos == old(self).pos,
    {
        if self.pos < self.chars.len() && self.chars[self.pos] == c {
            self.bump();
            true
        } else {
            false
        }
    }

    /// Moves past `word` if it comes next.
    fn eat_word(&mut self, word: &str) -> (r: bool)
        requires
            old(self).well_formed(),
        ensures
            final(self).follows(*old(self)),
            r == (old(self).pos + word@.len() <= old(self).chars@.len() && old(
                self,
            ).chars@.subrange(old(self).pos as int, old(self).pos + word@.len()) == word@),
            r ==> final(self).pos == old(self).pos + word@.len(),
            !r ==> final(self).pos == old(self).pos,
    {
        let w = chars_of(word);
        let n = w.len();
        if n > self.chars.len() - self.pos {
            return false;
        }
        let mut i: usize = 0;
        while i < n
            invariant
                self.well_formed(),
                n == w@.len(),
                w@ == word@,
                n <= self.chars@.len() - self.pos,
                i <= n,
                forall|j: int| 0 <= j < i ==> self.chars@[self.pos + j] == #[trigger] w@[j],
            decreases n - i,
        {
            if self.chars[self.pos + i] != w[i] {
                assert(self.chars@.subrange(self.pos as int, self.pos + n)[i as int] != w@[i as int]);
                return false;
            }
            i = i + 1;
        }
        assert(self.chars@.subrange(self.pos as int, self.pos + n) =~= w@);
        let mut k: usize = 0;
        while k < n
            invariant
                self.follows(*old(self)),
                self.pos == old(self).pos + k,
                n <= self.chars@.len() - old(self).pos,
                k <= n,
            decreases n - k,
        {
            self.bump();
            k = k + 1;
        }
        true
    }

    /// The text from the cursor to the end.
    spec fn rest(&self) -> Seq<char> {
        self.chars@.subrange(self.pos as int, self.chars@.len() as int)
    }

    fn parse_bool(&mut self) -> (r: Result<Value, Error>)
        requires
            old(self).well_formed(),
        ensures
            final(self).follows(*old(self)),
            r matches Ok(v) ==> v is Bool && final(self).pos > old(self).pos,
            r matches Err(e) ==> located_error(final(self).chars@, e),
            leads(old(self).rest(), seq!['t', 'r', 'u', 'e']) ==> r == Ok::<Value, Error>(
                Value::Bool(true),
            ) && final(self).pos == old(self).pos + 4,
            leads(old(self).rest(), seq!['f', 'a', 'l', 's', 'e']) ==> r == Ok::<Value, Error>(
                Value::Bool(false),
            ) && final(self).pos == old(self).pos + 5,
    {
        let m = self.mark();
        proof {
            reveal_strlit("true");
            reveal_strlit("false");
            assert("true"@ =~= seq!['t', 'r', 'u', 'e']);
            assert("false"@ =~= seq!['f', 'a', 'l', 's', 'e']);
            let t = seq!['t', 'r', 'u', 'e'];
            let f = seq!['f', 'a', 'l', 's', 'e'];
            if leads(self.rest(), t) {
                self.lemma_leads(t);
                assert(self.chars@.subrange(self.pos as int, self.pos + 4) =~= t);
            }
            if leads(self.rest(), f) {
                self.lemma_leads(f);
                assert(self.chars@.subrange(self.pos as int, self.pos + 5) =~= f);
                assert(self.chars@.subrange(self.pos as int, self.pos + 4)[0] == 'f');
                assert("true"@[0] == 't');
            }
        }
        if self.eat_word("true") {
            Ok(Value::Bool(true))
        } else if self.eat_word("false") {
            Ok(Value::Bool(false))
        } else {
            Err(self.syntax_error(m))
        }
    }

    /// What `leads` tells of the characters at the cursor.
    proof fn lemma_leads(&self, text: Seq<char>)
        requires
            self.well_formed(),
            leads(self.rest(), text),
        ensures
            self.pos + text.len() <= self.chars@.len(),
            forall|k: int| 0 <= k < text.len() ==> #[trigger] self.chars@[self.pos + k] == text[k],
            self.pos + text.len() < self.chars@.len() ==> ends_char(
                self.chars@[self.pos + text.len()],
            ),
    {
        let rest = self.rest();
        assert forall|k: int| 0 <= k < text.len() implies #[trigger] self.chars@[self.pos + k]
            == text[k] by {
            assert(rest.subrange(0, text.len() as int)[k] == text[k]);
        }
        if self.pos + text.len() < self.chars@.len() {
            assert(rest.subrange(text.len() as int, rest.len() as int)[0] == self.chars@[self.pos
                + text.len()]);
        }
    }

    /// An integer: an optional sign and a run of digits. A fractional part
    /// or an exponent, a value out of the target's range, or a negative
    /// value for an unsigned target make it invalid.
    fn parse_integer(&mut self, signed: bool) -> (r: Result<Value, Error>)
        requires
            old(self).well_formed(),
        ensures
            final(self).follows(*old(self)),
            r matches Ok(v) ==> (if signed { v is Int } else { v is UInt }) && final(self).pos
                > old(self).pos,
            r matches Err(e) ==> located_error(final(self).chars@, e),
            forall|i: i64|
                signed && leads(old(self).rest(), #[trigger] decimal_of(i as int)) ==> r == Ok::<
                    Value,
                    Error,
                >(Value::Int(i)) && final(self).pos == old(self).pos + decimal_of(i as int).len(),
            forall|n: u64|
                !signed && leads(old(self).rest(), #[trigger] decimal_of(n as int)) ==> r == Ok::<
                    Value,
                    Error,
                >(Value::UInt(n)) && final(self).pos == old(self).pos + decimal_of(n as int).len(),
    {
        let m = self.mark();
        let mut negative = false;
        if self.eat('-') {
            negative = true;
        } else {
            let _ = self.eat('+');
        }
        let start = self.pos;
        let mut magnitude: u64 = 0;
        let mut overflow = false;
        while self.pos < self.chars.len() && '0' <= self.chars[self.pos] && self.chars[self.pos]
            <= '9'
            invariant
                self.follows(*old(self)),
                start <= self.pos,
                negative == (old(self).pos < self.chars@.len() && self.chars@[old(self).pos as int]
                    == '-'),
                start == old(self).pos + if old(self).pos < self.chars@.len() && (
                self.chars@[old(self).pos as int] == '-' || self.chars@[old(self).pos as int]
                    == '+') {
                    1int
                } else {
                    0int
                },
                forall|j: int| start <= j < self.pos ==> is_digit(#[trigger] self.chars@[j]),
                !overflow ==> magnitude == digits_value(
                    self.chars@.subrange(start as int, self.pos as int),
                ),
                overflow ==> digits_value(self.chars@.subrange(start as int, self.pos as int))
                    > u64::MAX,
            decreases self.chars@.len() - self.pos,
        {
            let ghost run = self.chars@.subrange(start as int, self.pos as int);
            let d = (self.chars[self.pos] as u32 - '0' as u32) as u64;
            proof {
                let next = self.chars@.subrange(start as int, self.pos + 1);
                assert(next.drop_last() =~= run);
                assert(digits_value(next) == digits_value(run) * 10 + d);
            }
            if !overflow {
                if magnitude > (u64::MAX - d) / 10 {
                    assert(magnitude * 10 + d > u64::MAX) by (nonlinear_arith)
                        requires
                            magnitude > (u64::MAX - d) / 10,
                            d <= 9,
                    ;
                    overflow = true;
                } else {
                    assert(magnitude * 10 + d <= u64::MAX) by (nonlinear_arith)
                        requires
                            magnitude <= (u64::MAX - d) / 10,
                            d <= 9,
                    ;
                    magnitude = magnitude * 10 + d;
                }
            } else {
                assert(digits_value(run) * 10 + d > u64::MAX) by (nonlinear_arith)
                    requires
                        digits_value(run) > u64::MAX,
                        d <= 9,
                ;
            }
            self.bump();
        }
        let digits = self.pos > start;
        let ghost end = self.pos;
        let mut fractional = false;
        if self.eat('.') {
            fractional = true;
            self.skip_digits();
        }
        if self.eat('e') || self.eat('E') {
            fractional = true;
            if !self.eat('-') {
                let _ = self.eat('+');
            }
            self.skip_digits();
        }
        proof {
            self.lemma_integer_text(
                negative,
                start as int,
                end as int,
                fractional,
                overflow,
                magnitude,
                *old(self),
            );
        }
        if !digits {
            return Err(self.syntax_error(m));
        }
        if fractional || overflow {
            return Err(self.value_error(m));
        }
        if signed {
            if negative {
                if magnitude == 9223372036854775808u64 {
                    Ok(Value::Int(i64::MIN))
                } else if magnitude < 9223372036854775808u64 {
                    Ok(Value::Int(-(magnitude as i64)))
                } else {
                    Err(self.value_error(m))
                }
            } else if magnitude <= i64::MAX as u64 {
                Ok(Value::Int(magnitude as i64))
            } else {
                Err(self.value_error(m))
            }
        } else if negative && magnitude != 0 {
            Err(self.value_error(m))
        } else {
            Ok(Value::UInt(magnitude))
        }
    }

    /// When the text at the start of an integer is the canonical text of
    /// `x` followed by the end of a token, the scan read all of it as `x`'s
    /// magnitude, with `x`'s sign, and found no fraction or exponent.
    proof fn lemma_integer_text(
        &self,
        negative: bool,
        start: int,
        end: int,
        fractional: bool,
        overflow: bool,
        magnitude: u64,
        before: Deserializer,
    )
        requires
            self.follows(before),
            before.well_formed(),
            before.pos <= start <= end <= self.pos,
            negative == (before.pos < self.chars@.len() && self.chars@[before.pos as int] == '-'),
            start == before.pos + if before.pos < self.chars@.len() && (self.chars@[before.pos as int]
                == '-' || self.chars@[before.pos as int] == '+') {
                1int
            } else {
                0int
            },
            forall|j: int| start <= j < end ==> is_digit(#[trigger] self.chars@[j]),
            end < self.chars@.len() ==> !is_digit(self.chars@[end]),
            fractional == (end < self.chars@.len() && (self.chars@[end] == '.' || self.chars@[end]
                == 'e' || self.chars@[end] == 'E')),
            !overflow ==> magnitude == digits_value(self.chars@.subrange(start, end)),
            overflow ==> digits_value(self.chars@.subrange(start, end)) > u64::MAX,
        ensures
            forall|x: int|
                leads(before.rest(), #[trigger] decimal_of(x)) && -0x8000_0000_0000_0000 <= x
                    <= 0xffff_ffff_ffff_ffff ==> {
                    &&& negative == (x < 0)
                    &&& end == before.pos + decimal_of(x).len()
                    &&& end > start
                    &&& !overflow
                    &&& !fractional
                    &&& magnitude == if x < 0 { -x } else { x }
                },
    {
        assert forall|x: int|
            leads(before.rest(), #[trigger] decimal_of(x)) && -0x8000_0000_0000_0000 <= x
                <= 0xffff_ffff_ffff_ffff implies {
            &&& negative == (x < 0)
            &&& end == before.pos + decimal_of(x).len()
            &&& end > start
            &&& !overflow
            &&& !fractional
            &&& magnitude == if x < 0 { -x } else { x }
        } by {
            let mag: nat = if x < 0 { (-x) as nat } else { x as nat };
            lemma_digits_round_trip(mag);
            let text = decimal_of(x);
            let ds = digits_of(mag);
            let off: int = if x < 0 { 1 } else { 0 };
            before.lemma_leads(text);
            let e = before.pos + text.len();
            assert(text.len() == off + ds.len());
            assert(self.chars@[before.pos + 0] == text[0]);
            assert(is_digit(ds[0]));
            if x >= 0 {
                assert(text[0] == ds[0]);
            }
            assert(negative == (x < 0));
            assert(start == before.pos + off);
            assert forall|j: int| start <= j < e implies is_digit(#[trigger] self.chars@[j]) by {
                assert(self.chars@[before.pos + (j - before.pos)] == text[j - before.pos]);
                assert(text[j - before.pos] == ds[j - start]);
            }
            if end < e {
                assert(is_digit(self.chars@[end]));
            }
            if end > e {
                assert(is_digit(self.chars@[e]));
                assert(ends_char(self.chars@[before.pos + text.len()]));
            }
            assert(end == e);
            if e < self.chars@.len() {
                assert(ends_char(self.chars@[before.pos + text.len()]));
            }
            assert forall|k: int| 0 <= k < ds.len() implies #[trigger] self.chars@.subrange(
                start,
                end,
            )[k] == ds[k] by {
                assert(self.chars@[before.pos + (off + k)] == text[off + k]);
            }
            assert(self.chars@.subrange(start, end) =~= ds);
        }
    }

    fn skip_digits(&mut self)
        requires
            old(self).well_formed(),
        ensures
            final(self).follows(*old(self)),
    {
        while self.pos < self.chars.len() && '0' <= self.chars[self.pos] && self.chars[self.pos]
            <= '9'
            invariant
                self.follows(*old(self)),
            decreases self.chars@.len() - self.pos,
        {
            self.bump();
        }
    }

    /// `'c'`.
    fn parse_char(&mut self) -> (r: Result<Value, Error>)
        requires
            old(self).well_formed(),
        ensures
            final(self).follows(*old(self)),
            r matches Ok(v) ==> v is Char && final(self).pos > old(self).pos,
            r matches Err(e) ==> located_error(final(self).chars@, e),
            forall|c: char|
                leads(old(self).rest(), #[trigger] seq!['\'', c, '\'']) ==> r == Ok::<Value, Error>(
                    Value::Char(c),
                ) && final(self).pos == old(self).pos + 3,
    {
        let m = self.mark();
        proof {
            assert forall|c: char| leads(self.rest(), #[trigger] seq!['\'', c, '\'']) implies {
                &&& self.chars@[self.pos as int] == '\''
                &&& self.chars@[self.pos + 1] == c
                &&& self.chars@[self.pos + 2] == '\''
            } by {
                self.lemma_leads(seq!['\'', c, '\'']);
                assert(self.chars@[self.pos + 0] == '\'');
            }
        }
        if !self.eat('\'') || self.pos >= self.chars.len() {
            return Err(self.syntax_error(m));
        }
        let c = self.chars[self.pos];
        self.bump();
        if !self.eat('\'') {
            return Err(self.syntax_error(m));
        }
        Ok(Value::Char(c))
    }

    /// `"..."`, up to the next `"`; in key context also a bare run of
    /// characters up to `->`, a delimiter or a closing bracket.
    fn parse_string(&mut self, key: bool) -> (r: Result<String, Error>)
        requires
            old(self).well_formed(),
        ensures
            final(self).follows(*old(self)),
            r is Ok ==> final(self).pos > old(self).pos,
            r matches Err(e) ==> located_error(final(self).chars@, e),
            forall|t: Seq<char>|
                leads(old(self).rest(), #[trigger] quoted(t)) && !t.contains('"') ==> (r matches Ok(
                    o,
                ) && o@ == t) && final(self).pos == old(self).pos + t.len() + 2,
            forall|t: Seq<char>|
                key && bare_safe(t) && #[trigger] keyed_at(old(self).rest(), t) ==> (r matches Ok(o)
                    && o@ == t) && final(self).pos == old(self).pos + t.len(),
    {
        let m = self.mark();
        let ghost start = self.pos as int;
        proof {
            assert forall|t: Seq<char>| leads(self.rest(), #[trigger] quoted(t)) implies
                self.chars@[self.pos as int] == '"' by {
                self.lemma_leads(quoted(t));
                assert(self.chars@[self.pos + 0] == quoted(t)[0]);
            }
            assert forall|t: Seq<char>| bare_safe(t) && #[trigger] keyed_at(self.rest(), t) implies
                self.chars@[self.pos as int] == t[0] by {
                assert(self.rest().subrange(0, t.len() as int)[0] == t[0]);
            }
        }
        let mut out = String::new();
        if self.eat('"') {
            while self.pos < self.chars.len() && self.chars[self.pos] != '"'
                invariant
                    self.follows(*old(self)),
                    self.pos > old(self).pos,
                    start == old(self).pos,
                    out@ == self.chars@.subrange(start + 1, self.pos as int),
                    forall|j: int| start + 1 <= j < self.pos ==> #[trigger] self.chars@[j] != '"',
                decreases self.chars@.len() - self.pos,
            {
                push_char(&mut out, self.chars[self.pos]);
                self.bump();
                assert(out@ =~= self.chars@.subrange(start + 1, self.pos as int));
            }
            proof {
                assert forall|t: Seq<char>|
                    leads(old(self).rest(), #[trigger] quoted(t)) && !t.contains('"') implies self.pos
                    == start + t.len() + 1 && out@ == t by {
                    old(self).lemma_leads(quoted(t));
                    let q = quoted(t);
                    assert forall|j: int| start + 1 <= j < start + 1 + t.len() implies self.chars@[j]
                        != '"' by {
                        assert(self.chars@[old(self).pos + (j - start)] == q[j - start]);
                        assert(q[j - start] == t[j - start - 1]);
                    }
                    assert(self.chars@[old(self).pos + (t.len() + 1)] == q[t.len() + 1 as int]);
                    assert(self.pos == start + t.len() + 1);
                    assert forall|k: int| 0 <= k < t.len() implies #[trigger] out@[k] == t[k] by {
                        assert(out@[k] == self.chars@[start + 1 + k]);
                        assert(self.chars@[old(self).pos + (1 + k)] == q[1 + k]);
                    }
                    assert(out@ =~= t);
                }
            }
            if !self.eat('"') {
                return Err(self.syntax_error(m));
            }
            Ok(out)
        } else if key {
            proof {
                assert forall|t: Seq<char>| bare_safe(t) && #[trigger] keyed_at(old(self).rest(), t)
                    implies forall|j: int|
                    start <= j < start + t.len() ==> !ends_bare_at(self.chars@, j) by {
                    let rest = old(self).rest();
                    assert forall|j: int| start <= j < start + t.len() implies !ends_bare_at(
                        self.chars@,
                        j,
                    ) by {
                        assert(self.chars@[j] == rest[j - start]);
                        assert(rest.subrange(0, t.len() as int)[j - start] == t[j - start]);
                        if j + 1 < start + t.len() {
                            assert(self.chars@[j + 1] == rest[j + 1 - start]);
                            assert(rest.subrange(0, t.len() as int)[j + 1 - start] == t[j + 1
                                - start]);
                        } else {
                            assert(self.chars@[j + 1] == rest[t.len() as int]);
                        }
                    }
                }
            }
            while self.pos < self.chars.len() && !ends_bare(&self.chars, self.pos)
                invariant
                    self.follows(*old(self)),
                    start == old(self).pos,
                    self.pos >= start,
                    out@ == self.chars@.subrange(start, self.pos as int),
                    forall|j: int| start <= j < self.pos ==> !ends_bare_at(self.chars@, j),
                decreases self.chars@.len() - self.pos,
            {
                push_char(&mut out, self.chars[self.pos]);
                self.bump();
                assert(out@ =~= self.chars@.subrange(start, self.pos as int));
            }
            proof {
                assert forall|t: Seq<char>| bare_safe(t) && #[trigger] keyed_at(old(self).rest(), t)
                    implies self.pos == start + t.len() && out@ == t by {
                    let rest = old(self).rest();
                    assert(self.chars@[start + t.len()] == rest[t.len() as int]);
                    assert(self.chars@[start + t.len() + 1] == rest[t.len() + 1 as int]);
                    assert(ends_bare_at(self.chars@, start + t.len()));
                    if self.pos < start + t.len() {
                        assert(!ends_bare_at(self.chars@, self.pos as int));
                    }
                    if self.pos > start + t.len() {
                        assert(!ends_bare_at(self.chars@, start + t.len()));
                    }
                    assert forall|k: int| 0 <= k < t.len() implies #[trigger] out@[k] == t[k] by {
                        assert(self.chars@[start + k] == rest[k]);
                        assert(rest.subrange(0, t.len() as int)[k] == t[k]);
                    }
                    assert(out@ =~= t);
                }
            }
            if out.as_str().is_empty() {
                return Err(self.key_error(m));
            }
            Ok(out)
        } else {
            Err(self.syntax_error(m))
        }
    }

    /// `/`.
    fn parse_unit(&mut self) -> (r: Result<Value, Error>)
        requires
            old(self).well_formed(),
        ensures
            final(self).follows(*old(self)),
            r matches Ok(v) ==> v is Unit && final(self).pos > old(self).pos,
            r matches Err(e) ==> located_error(final(self).chars@, e),
            leads(old(self).rest(), seq!['/']) ==> r == Ok::<Value, Error>(Value::Unit)
                && final(self).pos == old(self).pos + 1,
    {
        let m = self.mark();
        proof {
            if leads(self.rest(), seq!['/']) {
                self.lemma_leads(seq!['/']);
                assert(self.chars@[self.pos + 0] == '/');
            }
        }
        if self.eat('/') {
            Ok(Value::Unit)
        } else {
            Err(self.syntax_error(m))
        }
    }
}

impl Deserializer {
    /// A value of shape `shape`, after any whitespace. With `key` set, a
    /// string may be bare, as keys are written. A text-safe value is read back
    /// from its own text.
    fn parse_value(&mut self, shape: &Shape, key: bool) -> (r: Result<Value, Error>)
        requires
            old(self).well_formed(),
        ensures
            final(self).follows(*old(self)),
            r matches Ok(v) ==> conforms(v, *shape) && final(self).pos > old(self).pos,
            r matches Err(e) ==> located_error(final(self).chars@, e),
            forall|v: Value, c: PrettyConfig, d: nat|
                round_trips(v, *shape) && leads(
                    old(self).rest(),
                    #[trigger] render(v, c, d, false),
                ) ==> reads_back(r, v) && final(self).pos == old(self).pos + render(
                    v,
                    c,
                    d,
                    false,
                ).len(),
            forall|k: String|
                key && bare_safe(k@) && conforms(Value::Str(k), *shape) && #[trigger] keyed_at(
                    old(self).rest(),
                    k@,
                ) ==> reads_back(r, Value::Str(k)) && final(self).pos == old(self).pos + k@.len(),
        decreases shape, 1nat,
    {
        let ghost start = *self;
        self.skip_space();
        proof {
            assert forall|k: String|
                key && bare_safe(k@) && conforms(Value::Str(k), *shape) && #[trigger] keyed_at(
                    start.rest(),
                    k@,
                ) implies self.pos == start.pos by {
                assert(start.rest().subrange(0, k@.len() as int)[0] == k@[0]);
                assert(start.chars@[start.pos as int] == start.rest()[0]);
                if self.pos > start.pos {
                    assert(is_space(self.chars@[start.pos as int]));
                }
            }
            assert forall|v: Value, c: PrettyConfig, d: nat|
                round_trips(v, *shape) && leads(
                    start.rest(),
                    #[trigger] render(v, c, d, false),
                ) implies self.pos == start.pos by {
                lemma_text_start(v, c, d);
                start.lemma_leads(render(v, c, d, false));
                assert(start.chars@[start.pos + 0] == render(v, c, d, false)[0]);
                if self.pos > start.pos {
                    assert(is_space(self.chars@[start.pos as int]));
                }
            }
        }
        let ghost here = *self;
        let r = match shape {
            Shape::Bool => self.parse_bool(),
            Shape::Int => self.parse_integer(true),
            Shape::UInt => self.parse_integer(false),
            Shape::Char => self.parse_char(),
            Shape::Str => match self.parse_string(key) {
                Ok(s) => Ok(Value::Str(s)),
                Err(e) => Err(e),
            },
            Shape::Unit => self.parse_unit(),
            Shape::Optional(inner) => {
                if self.eat('/') {
                    Ok(Value::Unit)
                } else {
                    let ghost before = *self;
                    let r2 = self.parse_value(inner, key);
                    proof {
                        assert forall|k: String|
                            key && bare_safe(k@) && conforms(Value::Str(k), *shape)
                                && #[trigger] keyed_at(start.rest(), k@) implies reads_back(
                            r2,
                            Value::Str(k),
                        ) && self.pos == start.pos + k@.len() by {
                            assert(conforms(Value::Str(k), **inner));
                            assert(before.rest() == start.rest());
                            assert(keyed_at(before.rest(), k@));
                        }
                    }
                    r2
                }
            },
            Shape::Sequence(inner) => self.parse_sequence(inner, key),
            Shape::Tuple(shapes) => match self.parse_tuple(shapes, key) {
                Ok(items) => Ok(Value::Tuple(items)),
                Err(e) => Err(e),
            },
            Shape::Mapping(_, _) => self.parse_map(shape),
            Shape::Struct(fields) => match self.parse_struct(fields) {
                Ok(pairs) => Ok(Value::Mapping(pairs)),
                Err(e) => Err(e),
            },
            Shape::Enum(variants) => self.parse_enum(variants, key),
        };
        proof {
            assert forall|v: Value, c: PrettyConfig, d: nat|
                round_trips(v, *shape) && leads(
                    start.rest(),
                    #[trigger] render(v, c, d, false),
                ) implies reads_back(r, v) && self.pos == start.pos + render(v, c, d, false).len() by {
                let text = render(v, c, d, false);
                assert(here.rest() == start.rest());
                lemma_text_start(v, c, d);
                here.lemma_leads(text);
                assert(here.chars@[here.pos + 0] == text[0]);
                match v {
                    Value::Bool(b) => {
                        if b {
                            assert(text == seq!['t', 'r', 'u', 'e']);
                        } else {
                            assert(text == seq!['f', 'a', 'l', 's', 'e']);
                        }
                    },
                    Value::Int(i) => {
                        assert(text == decimal_of(i as int));
                    },
                    Value::UInt(n) => {
                        assert(text == decimal_of(n as int));
                    },
                    Value::Char(ch) => {
                        assert(text == seq!['\'', ch, '\'']);
                    },
                    Value::Str(st) => {
                        assert(text == quoted(st@));
                    },
                    Value::Unit => {
                        assert(text == seq!['/']);
                    },
                    _ => {},
                }
            }
            assert forall|k: String|
                key && bare_safe(k@) && conforms(Value::Str(k), *shape) && #[trigger] keyed_at(
                    start.rest(),
                    k@,
                ) implies reads_back(r, Value::Str(k)) && self.pos == start.pos + k@.len() by {
                assert(here.rest() == start.rest());
                assert(here.rest().subrange(0, k@.len() as int)[0] == k@[0]);
                assert(here.chars@[here.pos as int] == here.rest()[0]);
                assert(keyed_at(here.rest(), k@));
            }
        }
        r
    }

    /// `[`, elements separated by delimiters, `]`.
    fn parse_sequence(&mut self, inner: &Shape, key: bool) -> (r: Result<Value, Error>)
        requires
            old(self).well_formed(),
        ensures
            final(self).follows(*old(self)),
            r matches Ok(v) ==> conforms(v, Shape::Sequence(Box::new(*inner))) && final(self).pos
                > old(self).pos,
            r matches Err(e) ==> located_error(final(self).chars@, e),
            forall|v: Value, c: PrettyConfig, d: nat|
                round_trips(v, Shape::Sequence(Box::new(*inner))) && leads(
                    old(self).rest(),
                    #[trigger] render(v, c, d, false),
                ) ==> reads_back(r, v) && final(self).pos == old(self).pos + render(
                    v,
                    c,
                    d,
                    false,
                ).len(),
        decreases inner, 2nat,
    {
        let ghost initial = *self;
        let m = self.mark();
        proof {
            assert forall|v: Value, c: PrettyConfig, d: nat|
                round_trips(v, Shape::Sequence(Box::new(*inner))) && leads(
                    initial.rest(),
                    #[trigger] render(v, c, d, false),
                ) implies initial.chars@[initial.pos as int] == '[' by {
                initial.lemma_leads(render(v, c, d, false));
                assert(initial.chars@[initial.pos + 0] == render(v, c, d, false)[0]);
            }
        }
        if !self.eat('[') {
            return Err(self.syntax_error(m));
        }
        let mut items: Vec<Value> = Vec::new();
        loop
            invariant
                initial == *old(self),
                self.follows(initial),
                initial.well_formed(),
                self.mark_ok(m),
                self.pos > initial.pos,
                forall|i: int| 0 <= i < items@.len() ==> conforms(#[trigger] items@[i], *inner),
                forall|v: Value, c: PrettyConfig, d: nat|
                    round_trips(v, Shape::Sequence(Box::new(*inner))) && leads(
                        initial.rest(),
                        #[trigger] render(v, c, d, false),
                    ) ==> (v matches Value::Sequence(its) && items@.len() <= its@.len()
                        && self.pos == initial.pos + 1 + render_items(
                        its@.take(items@.len() as int),
                        c,
                        d,
                        false,
                    ).len() && same_all(items@, its@.take(items@.len() as int))),
            decreases self.chars@.len() - self.pos,
        {
            let ghost before = *self;
            let separated = self.skip_delimiters();
            let here = self.mark();
            proof {
                self.lemma_sequence_step(before, initial, *inner, items@, separated);
            }
            match self.peek() {
                None => {
                    return Err(self.open_error(Iterable::Array, m));
                },
                Some(ch) => {
                    if ch == ']' {
                        self.bump();
                        proof {
                            assert forall|v: Value, c: PrettyConfig, d: nat|
                                round_trips(v, Shape::Sequence(Box::new(*inner))) && leads(
                                    initial.rest(),
                                    #[trigger] render(v, c, d, false),
                                ) implies reads_back(Ok::<Value, Error>(Value::Sequence(items)), v)
                                && self.pos == initial.pos + render(v, c, d, false).len() by {
                                if let Value::Sequence(its) = v {
                                    assert(items@.len() == its@.len());
                                    assert(its@.take(items@.len() as int) =~= its@);
                                    assert(same_all(items@, its@));
                                    assert(render(v, c, d, false).len() == render_items(
                                        its@,
                                        c,
                                        d,
                                        false,
                                    ).len() + 2);
                                }
                            }
                        }
                        return Ok(Value::Sequence(items));
                    }
                    if items.len() > 0 && !separated {
                        return Err(self.syntax_error(here));
                    }
                    let ghost at = *self;
                    let elem = self.parse_value(inner, key)?;
                    let ghost prior = items@;
                    items.push(elem);
                    proof {
                        let n = prior.len() as int;
                        assert(items@.drop_last() =~= prior);
                        assert forall|v: Value, c: PrettyConfig, d: nat|
                            round_trips(v, Shape::Sequence(Box::new(*inner))) && leads(
                                initial.rest(),
                                #[trigger] render(v, c, d, false),
                            ) implies (v matches Value::Sequence(its) && items@.len() <= its@.len()
                            && self.pos == initial.pos + 1 + render_items(
                            its@.take(items@.len() as int),
                            c,
                            d,
                            false,
                        ).len() && same_all(items@, its@.take(items@.len() as int))) by {
                            if let Value::Sequence(its) = v {
                                lemma_items_step(its@, c, d, n);
                                assert(its@.take(n + 1).drop_last() =~= its@.take(n));
                                assert(its@.take(n + 1).last() == its@[n]);
                            }
                        }
                    }
                },
            }
        }
    }

    /// `(`, exactly one element per shape, separated by delimiters, `)`.
    fn parse_tuple(&mut self, shapes: &Vec<Shape>, key: bool) -> (r: Result<Vec<Value>, Error>)
        requires
            old(self).well_formed(),
        ensures
            final(self).follows(*old(self)),
            r matches Ok(items) ==> conforms_all(items@, shapes@) && final(self).pos > old(
                self,
            ).pos,
            r matches Err(e) ==> located_error(final(self).chars@, e),
            forall|v: Value, c: PrettyConfig, d: nat|
                round_trips(v, Shape::Tuple(*shapes)) && leads(
                    old(self).rest(),
                    #[trigger] render(v, c, d, false),
                ) ==> (r matches Ok(ws) && v matches Value::Tuple(its) && same_all(ws@, its@))
                    && final(self).pos == old(self).pos + render(v, c, d, false).len(),
        decreases shapes, 0nat,
    {
        let ghost initial = *self;
        let m = self.mark();
        proof {
            assert forall|v: Value, c: PrettyConfig, d: nat|
                round_trips(v, Shape::Tuple(*shapes)) && leads(
                    initial.rest(),
                    #[trigger] render(v, c, d, false),
                ) implies initial.chars@[initial.pos as int] == '(' by {
                initial.lemma_leads(render(v, c, d, false));
                assert(initial.chars@[initial.pos + 0] == render(v, c, d, false)[0]);
            }
        }
        if !self.eat('(') {
            return Err(self.syntax_error(m));
        }
        let mut items: Vec<Value> = Vec::new();
        let mut i: usize = 0;
        while i < shapes.len()
            invariant
                initial == *old(self),
                self.follows(initial),
                initial.well_formed(),
                self.mark_ok(m),
                self.pos > initial.pos,
                i <= shapes@.len(),
                items@.len() == i,
                conforms_all(items@, shapes@.take(i as int)),
                forall|v: Value, c: PrettyConfig, d: nat|
                    round_trips(v, Shape::Tuple(*shapes)) && leads(
                        initial.rest(),
                        #[trigger] render(v, c, d, false),
                    ) ==> (v matches Value::Tuple(its) && self.pos == initial.pos + 1 + render_items(
                        its@.take(i as int),
                        c,
                        d,
                        false,
                    ).len() && same_all(items@, its@.take(i as int))),
            decreases shapes@.len() - i,
        {
            let ghost before = *self;
            let separated = self.skip_delimiters();
            let here = self.mark();
            proof {
                self.lemma_tuple_step(before, initial, *shapes, items@, separated);
            }
            match self.peek() {
                None => {
                    return Err(self.open_error(Iterable::Tuple, m));
                },
                Some(ch) => {
                    if ch == ')' {
                        return Err(self.value_error(here));
                    }
                    if i > 0 && !separated {
                        return Err(self.syntax_error(here));
                    }
                },
            }
            let ghost at = *self;
            let elem = self.parse_value(&shapes[i], key)?;
            let ghost before_items = items@;
            items.push(elem);
            proof {
                let n = i as int;
                let next = shapes@.take(i + 1);
                assert(next.drop_last() =~= shapes@.take(i as int));
                assert(items@.drop_last() =~= before_items);
                assert(conforms_all(items@, next));
                assert forall|v: Value, c: PrettyConfig, d: nat|
                    round_trips(v, Shape::Tuple(*shapes)) && leads(
                        initial.rest(),
                        #[trigger] render(v, c, d, false),
                    ) implies (v matches Value::Tuple(its) && self.pos == initial.pos + 1 + render_items(
                    its@.take(n + 1),
                    c,
                    d,
                    false,
                ).len() && same_all(items@, its@.take(n + 1))) by {
                    if let Value::Tuple(its) = v {
                        lemma_items_step(its@, c, d, n);
                        assert(its@.take(n + 1).drop_last() =~= its@.take(n));
                        assert(its@.take(n + 1).last() == its@[n]);
                    }
                }
            }
            i = i + 1;
        }
        assert(shapes@.take(i as int) =~= shapes@);
        let ghost before = *self;
        let separated = self.skip_delimiters();
        let here = self.mark();
        proof {
            self.lemma_tuple_step(before, initial, *shapes, items@, separated);
        }
        match self.peek() {
            None => Err(self.open_error(Iterable::Tuple, m)),
            Some(ch) => {
                if ch == ')' {
                    self.bump();
                    proof {
                        assert forall|v: Value, c: PrettyConfig, d: nat|
                            round_trips(v, Shape::Tuple(*shapes)) && leads(
                                initial.rest(),
                                #[trigger] render(v, c, d, false),
                            ) implies (v matches Value::Tuple(its) && same_all(items@, its@))
                            && self.pos == initial.pos + render(v, c, d, false).len() by {
                            if let Value::Tuple(its) = v {
                                assert(its@.take(i as int) =~= its@);
                                assert(same_all(items@, its@));
                                assert(render(v, c, d, false).len() == render_items(
                                    its@,
                                    c,
                                    d,
                                    false,
                                ).len() + 2);
                            }
                        }
                    }
                    Ok(items)
                } else {
                    Err(self.syntax_error(here))
                }
            },
        }
    }

    /// After the delimiters before the next element of a sequence whose
    /// text starts at `initial`, with `items` read so far: the cursor stands at
    /// the next element's text, or at the closing bracket after the last.
    proof fn lemma_sequence_step(
        &self,
        before: Deserializer,
        initial: Deserializer,
        inner: Shape,
        items: Seq<Value>,
        separated: bool,
    )
        requires
            initial.well_formed(),
            self.follows(before),
            before.follows(initial),
            separated == (self.pos > before.pos),
            forall|j: int| before.pos <= j < self.pos ==> is_delim(#[trigger] self.chars@[j]),
            self.pos < self.chars@.len() ==> !is_delim(self.chars@[self.pos as int]),
            forall|v: Value, c: PrettyConfig, d: nat|
                round_trips(v, Shape::Sequence(Box::new(inner))) && leads(
                    initial.rest(),
                    #[trigger] render(v, c, d, false),
                ) ==> (v matches Value::Sequence(its) && items.len() <= its@.len() && before.pos
                    == initial.pos + 1 + render_items(its@.take(items.len() as int), c, d, false).len()),
        ensures
            forall|v: Value, c: PrettyConfig, d: nat|
                round_trips(v, Shape::Sequence(Box::new(inner))) && leads(
                    initial.rest(),
                    #[trigger] render(v, c, d, false),
                ) ==> (v matches Value::Sequence(its) && self.pos < self.chars@.len() && (
                items.len() == its@.len() ==> self.chars@[self.pos as int] == ']' && self.pos == before.pos) && (items.len()
                    < its@.len() ==> {
                    &&& self.chars@[self.pos as int] != ']'
                    &&& (items.len() > 0 ==> separated)
                    &&& self.pos == before.pos + lead_of(c, items.len() as int).len()
                    &&& leads(self.rest(), render(its@[items.len() as int], c, d, false))
                    &&& text_safe(its@[items.len() as int])
                    &&& conforms(its@[items.len() as int], inner)
                    &&& shape_readable(inner)
                })),
    {
        assert forall|v: Value, c: PrettyConfig, d: nat|
            round_trips(v, Shape::Sequence(Box::new(inner))) && leads(
                initial.rest(),
                #[trigger] render(v, c, d, false),
            ) implies (v matches Value::Sequence(its) && self.pos < self.chars@.len() && (items.len()
            == its@.len() ==> self.chars@[self.pos as int] == ']' && self.pos == before.pos) && (items.len() < its@.len()
            ==> {
            &&& self.chars@[self.pos as int] != ']'
            &&& (items.len() > 0 ==> separated)
            &&& self.pos == before.pos + lead_of(c, items.len() as int).len()
            &&& leads(self.rest(), render(its@[items.len() as int], c, d, false))
            &&& text_safe(its@[items.len() as int])
            &&& conforms(its@[items.len() as int], inner)
            &&& shape_readable(inner)
        })) by {
            if let Value::Sequence(its) = v {
                self.lemma_ordered_step(before, initial, its@, c, d, items.len() as int, '[', ']');
                if items.len() < its@.len() {
                    lemma_text_safe_all_index(its@, items.len() as int);
                }
            }
        }
    }

    /// The tuple counterpart of `lemma_sequence_step`.
    proof fn lemma_tuple_step(
        &self,
        before: Deserializer,
        initial: Deserializer,
        shapes: Vec<Shape>,
        items: Seq<Value>,
        separated: bool,
    )
        requires
            initial.well_formed(),
            self.follows(before),
            before.follows(initial),
            separated == (self.pos > before.pos),
            items.len() <= shapes@.len(),
            forall|j: int| before.pos <= j < self.pos ==> is_delim(#[trigger] self.chars@[j]),
            self.pos < self.chars@.len() ==> !is_delim(self.chars@[self.pos as int]),
            forall|v: Value, c: PrettyConfig, d: nat|
                round_trips(v, Shape::Tuple(shapes)) && leads(
                    initial.rest(),
                    #[trigger] render(v, c, d, false),
                ) ==> (v matches Value::Tuple(its) && before.pos == initial.pos + 1 + render_items(
                    its@.take(items.len() as int),
                    c,
                    d,
                    false,
                ).len()),
        ensures
            forall|v: Value, c: PrettyConfig, d: nat|
                round_trips(v, Shape::Tuple(shapes)) && leads(
                    initial.rest(),
                    #[trigger] render(v, c, d, false),
                ) ==> (v matches Value::Tuple(its) && its@.len() == shapes@.len() && self.pos
                    < self.chars@.len() && (items.len() == its@.len() ==> self.chars@[self.pos as int] == ')' && self.pos == before.pos) && (items.len() < its@.len() ==> {
                    &&& self.chars@[self.pos as int] != ')'
                    &&& (items.len() > 0 ==> separated)
                    &&& self.pos == before.pos + lead_of(c, items.len() as int).len()
                    &&& leads(self.rest(), render(its@[items.len() as int], c, d, false))
                    &&& text_safe(its@[items.len() as int])
                    &&& conforms(its@[items.len() as int], shapes@[items.len() as int])
                    &&& shape_readable(shapes@[items.len() as int])
                })),
    {
        assert forall|v: Value, c: PrettyConfig, d: nat|
            round_trips(v, Shape::Tuple(shapes)) && leads(
                initial.rest(),
                #[trigger] render(v, c, d, false),
            ) implies (v matches Value::Tuple(its) && its@.len() == shapes@.len() && self.pos
            < self.chars@.len() && (items.len() == its@.len() ==> self.chars@[self.pos as int] == ')' && self.pos == before.pos) && (items.len() < its@.len() ==> {
            &&& self.chars@[self.pos as int] != ')'
            &&& (items.len() > 0 ==> separated)
            &&& self.pos == before.pos + lead_of(c, items.len() as int).len()
            &&& leads(self.rest(), render(its@[items.len() as int], c, d, false))
            &&& text_safe(its@[items.len() as int])
            &&& conforms(its@[items.len() as int], shapes@[items.len() as int])
            &&& shape_readable(shapes@[items.len() as int])
        })) by {
            if let Value::Tuple(its) = v {
                lemma_conforms_all_len(its@, shapes@);
                self.lemma_ordered_step(before, initial, its@, c, d, items.len() as int, '(', ')');
                if items.len() < its@.len() {
                    lemma_text_safe_all_index(its@, items.len() as int);
                    lemma_conforms_all_index(its@, shapes@, items.len() as int);
                    lemma_shapes_readable_index(shapes@, items.len() as int);
                }
            }
        }
    }

    /// The common part of the two lemmas above, for one container text
    /// `open` + items + `close` that starts the rest at `initial`.
    proof fn lemma_ordered_step(
        &self,
        before: Deserializer,
        initial: Deserializer,
        its: Seq<Value>,
        c: PrettyConfig,
        d: nat,
        n: int,
        open: char,
        close: char,
    )
        requires
            initial.well_formed(),
            self.follows(before),
            before.follows(initial),
            text_safe_all(its),
            0 <= n <= its.len(),
            close == ']' || close == ')',
            forall|j: int| before.pos <= j < self.pos ==> is_delim(#[trigger] self.chars@[j]),
            self.pos < self.chars@.len() ==> !is_delim(self.chars@[self.pos as int]),
            leads(initial.rest(), seq![open] + render_items(its, c, d, false) + seq![close]),
            before.pos == initial.pos + 1 + render_items(its.take(n), c, d, false).len(),
        ensures
            self.pos < self.chars@.len(),
            n == its.len() ==> self.chars@[self.pos as int] == close && self.pos == before.pos,
            n < its.len() ==> {
                &&& self.chars@[self.pos as int] != close
                &&& (n > 0 ==> self.pos > before.pos)
                &&& self.pos == before.pos + lead_of(c, n).len()
                &&& leads(self.rest(), render(its[n], c, d, false))
            },
    {
        let full = seq![open] + render_items(its, c, d, false) + seq![close];
        initial.lemma_leads(full);
        assert(full.len() == render_items(its, c, d, false).len() + 2);
        assert forall|k: int|
            0 <= k < render_items(its, c, d, false).len() + 2 implies #[trigger] self.chars@[initial.pos
            + k] == (seq![open] + render_items(its, c, d, false) + seq![close])[k] by {
            assert(initial.chars@[initial.pos + k] == full[k]);
        }
        lemma_ordered_text(self.chars@, initial.pos as int, its, c, d, n, open, close);
        let p = before.pos as int;
        if n == its.len() {
            if self.pos > before.pos {
                assert(is_delim(self.chars@[p]));
            }
        } else {
            let lead = lead_of(c, n);
            let e = render(its[n], c, d, false);
            lemma_text_safe_all_index(its, n);
            lemma_text_start(its[n], c, d);
            assert(self.chars@[p + lead.len()] == (lead + e)[lead.len() as int]);
            assert forall|j: int| 0 <= j < lead.len() implies is_delim(#[trigger] self.chars@[p + j]) by {
                assert(self.chars@[p + j] == (lead + e)[j]);
            }
            if self.pos > p + lead.len() {
                assert(is_delim(self.chars@[p + lead.len()]));
            }
            if self.pos < p + lead.len() {
                assert(is_delim(self.chars@[p + (self.pos - p)]));
            }
            assert(self.pos == p + lead.len());
            let rest = self.rest();
            assert forall|k: int| 0 <= k < e.len() implies #[trigger] rest.subrange(0, e.len() as int)[k]
                == e[k] by {
                assert(self.chars@[p + (lead.len() + k)] == (lead + e)[lead.len() + k]);
            }
            assert(rest.subrange(0, e.len() as int) =~= e);
            if e.len() < rest.len() {
                assert(rest[e.len() as int] == self.chars@[p + lead.len() + e.len()]);
            }
            if n > 0 {
                assert(lead.len() > 0);
            }
        }
    }

    /// After the delimiters before the next pair of a map whose text starts
    /// at `initial`, with `pairs` read so far: the cursor stands at the next key,
    /// followed by `->` and the value's text, or at the closing brace after
    /// the last pair.
    proof fn lemma_map_step(
        &self,
        before: Deserializer,
        initial: Deserializer,
        k: Shape,
        w: Shape,
        pairs: Seq<(Value, Value)>,
        separated: bool,
    )
        requires
            initial.well_formed(),
            self.follows(before),
            before.follows(initial),
            separated == (self.pos > before.pos),
            forall|j: int| before.pos <= j < self.pos ==> is_delim(#[trigger] self.chars@[j]),
            self.pos < self.chars@.len() ==> !is_delim(self.chars@[self.pos as int]),
            forall|v: Value, c: PrettyConfig, d: nat|
                round_trips(v, Shape::Mapping(Box::new(k), Box::new(w))) && leads(
                    initial.rest(),
                    #[trigger] render(v, c, d, false),
                ) ==> (v matches Value::Mapping(ps) && pairs.len() <= ps@.len() && before.pos
                    == initial.pos + 1 + render_pairs(ps@.take(pairs.len() as int), c, d).len()),
        ensures
            forall|v: Value, c: PrettyConfig, d: nat|
                round_trips(v, Shape::Mapping(Box::new(k), Box::new(w))) && leads(
                    initial.rest(),
                    #[trigger] render(v, c, d, false),
                ) ==> (v matches Value::Mapping(ps) && self.pos < self.chars@.len() && (pairs.len()
                    == ps@.len() ==> self.chars@[self.pos as int] == '}' && self.pos + 1 == initial.pos
                    + render(v, c, d, false).len()) && (pairs.len() < ps@.len() ==> {
                    let n = pairs.len() as int;
                    let e = ps@[n];
                    &&& self.chars@[self.pos as int] != '}'
                    &&& (n > 0 ==> separated)
                    &&& text_safe(e.1)
                    &&& conforms(e.0, k)
                    &&& conforms(e.1, w)
                    &&& shape_readable(w)
                    &&& e.0 matches Value::Str(kk) && bare_safe(kk@) && keyed_at(self.rest(), kk@)
                        && leads(
                        self.chars@.subrange(
                            self.pos + kk@.len() + 2,
                            self.chars@.len() as int,
                        ),
                        render(e.1, c, d + 1, false),
                    ) && self.pos + kk@.len() + 2 + render(e.1, c, d + 1, false).len() == initial.pos
                        + 1 + render_pairs(ps@.take(n + 1), c, d).len()
                })),
    {
        assert forall|v: Value, c: PrettyConfig, d: nat|
            round_trips(v, Shape::Mapping(Box::new(k), Box::new(w))) && leads(
                initial.rest(),
                #[trigger] render(v, c, d, false),
            ) implies (v matches Value::Mapping(ps) && self.pos < self.chars@.len() && (pairs.len()
            == ps@.len() ==> self.chars@[self.pos as int] == '}' && self.pos + 1 == initial.pos + render(
            v,
            c,
            d,
            false,
        ).len()) && (pairs.len() < ps@.len() ==> {
            let n = pairs.len() as int;
            let e = ps@[n];
            &&& self.chars@[self.pos as int] != '}'
            &&& (n > 0 ==> separated)
            &&& text_safe(e.1)
            &&& conforms(e.0, k)
            &&& conforms(e.1, w)
            &&& shape_readable(w)
            &&& e.0 matches Value::Str(kk) && bare_safe(kk@) && keyed_at(self.rest(), kk@) && leads(
                self.chars@.subrange(self.pos + kk@.len() + 2, self.chars@.len() as int),
                render(e.1, c, d + 1, false),
            ) && self.pos + kk@.len() + 2 + render(e.1, c, d + 1, false).len() == initial.pos + 1
                + render_pairs(ps@.take(n + 1), c, d).len()
        })) by {
            if let Value::Mapping(ps) = v {
                self.lemma_map_step_one(before, initial, ps@, c, d, pairs.len() as int);
                if pairs.len() < ps@.len() {
                    lemma_text_safe_pairs_index(ps@, pairs.len() as int);
                }
            }
        }
    }

    /// `lemma_map_step` for one map text `{` + pairs + close that starts the rest at `initial`.
    #[verifier::rlimit(100)]
    proof fn lemma_map_step_one(
        &self,
        before: Deserializer,
        initial: Deserializer,
        ps: Seq<(Value, Value)>,
        c: PrettyConfig,
        d: nat,
        n: int,
    )
        requires
            initial.well_formed(),
            self.follows(before),
            before.follows(initial),
            text_safe_pairs(ps),
            0 <= n <= ps.len(),
            forall|j: int| before.pos <= j < self.pos ==> is_delim(#[trigger] self.chars@[j]),
            self.pos < self.chars@.len() ==> !is_delim(self.chars@[self.pos as int]),
            leads(
                initial.rest(),
                seq!['{'] + render_pairs(ps, c, d) + keyed_close(c, d, ps.len()),
            ),
            before.pos == initial.pos + 1 + render_pairs(ps.take(n), c, d).len(),
        ensures
            self.pos < self.chars@.len(),
            n == ps.len() ==> self.chars@[self.pos as int] == '}' && self.pos + 1 == initial.pos + 1
                + render_pairs(ps, c, d).len() + keyed_close(c, d, ps.len()).len(),
            n < ps.len() ==> {
                let e = ps[n];
                &&& self.chars@[self.pos as int] != '}'
                &&& (n > 0 ==> self.pos > before.pos)
                &&& e.0 matches Value::Str(kk) && keyed_at(self.rest(), kk@) && leads(
                    self.chars@.subrange(self.pos + kk@.len() + 2, self.chars@.len() as int),
                    render(e.1, c, d + 1, false),
                ) && self.pos + kk@.len() + 2 + render(e.1, c, d + 1, false).len() == initial.pos + 1
                    + render_pairs(ps.take(n + 1), c, d).len()
            },
    {
        let all = render_pairs(ps, c, d);
        let close = keyed_close(c, d, ps.len());
        let full = seq!['{'] + all + close;
        initial.lemma_leads(full);
        assert(ps.take(ps.len() as int) =~= ps);
        let origin = initial.pos as int;
        let tn = render_pairs(ps.take(n), c, d);
        lemma_pairs_prefix(ps, c, d, n, ps.len() as int);
        let p = before.pos as int;
        assert(p == origin + 1 + tn.len());
        if n == ps.len() {
            assert(tn == all);
            assert forall|j: int| 0 <= j < close.len() implies #[trigger] self.chars@[p + j] == close[j] by {
                assert(initial.chars@[initial.pos + (1 + all.len() + j)] == full[1 + all.len() + j]);
            }
            let last = close.len() - 1;
            assert(close[last] == '}');
            assert forall|j: int| 0 <= j < last implies is_delim(#[trigger] close[j]) by {
                if c.delimiter == DelimiterType::Newline && ps.len() > 0 {
                    if j > 0 {
                        assert(close[j] == indent_of(c, d)[j - 1]);
                    }
                }
            }
            if self.pos > p + last {
                assert(is_delim(self.chars@[p + last]));
            }
            if self.pos < p + last {
                assert(self.chars@[p + (self.pos - p)] == close[self.pos - p]);
                assert(is_delim(close[self.pos - p]));
            }
            assert(self.pos == p + last);
        } else {
            lemma_pairs_step(ps, c, d, n);
            lemma_pairs_prefix(ps, c, d, n + 1, ps.len() as int);
            let lead = pair_lead(c, d, n);
            let e = ps[n];
            let pr = render_pair(e, c, d);
            let t1 = render_pairs(ps.take(n + 1), c, d);
            lemma_text_safe_pairs_index(ps, n);
            assert(t1 == tn + lead + pr);
            assert forall|j: int| 0 <= j < lead.len() + pr.len() implies #[trigger] self.chars@[p + j]
                == (lead + pr)[j] by {
                assert(initial.chars@[initial.pos + (1 + tn.len() + j)] == full[1 + tn.len() + j]);
                assert(all.subrange(0, t1.len() as int)[tn.len() + j] == t1[tn.len() + j]);
            }
            assert forall|j: int| 0 <= j < lead.len() implies is_delim(#[trigger] lead[j]) by {
                if c.delimiter == DelimiterType::Newline && j > 0 {
                    assert(lead[j] == indent_of(c, d + 1)[j - 1]);
                }
            }
            if let Value::Str(kk) = e.0 {
                let key = kk@;
                let vt = render(e.1, c, d + 1, false);
                assert(pr == key + seq!['-', '>'] + vt);
                assert(self.chars@[p + lead.len()] == (lead + pr)[lead.len() as int]);
                assert(!ends_char(key[0]));
                if self.pos > p + lead.len() {
                    assert(is_delim(self.chars@[p + lead.len()]));
                }
                if self.pos < p + lead.len() {
                    assert(self.chars@[p + (self.pos - p)] == (lead + pr)[self.pos - p]);
                    assert(is_delim(lead[self.pos - p]));
                }
                assert(self.pos == p + lead.len());
                let q = p + lead.len() + pr.len();
                // the character after the pair
                if n + 1 < ps.len() {
                    lemma_pairs_step(ps, c, d, n + 1);
                    lemma_pairs_prefix(ps, c, d, n + 2, ps.len() as int);
                    let t2 = render_pairs(ps.take(n + 2), c, d);
                    assert(initial.chars@[initial.pos + (1 + t1.len())] == full[(1 + t1.len()) as int]);
                    assert(all.subrange(0, t2.len() as int)[t1.len() as int] == t2[t1.len() as int]);
                    assert(self.chars@[q] == pair_lead(c, d, n + 1)[0]);
                    assert(ends_char(self.chars@[q]));
                } else {
                    assert(ps.take(n + 1) =~= ps);
                    assert(initial.chars@[initial.pos + (1 + all.len())] == full[(1 + all.len()) as int]);
                    assert(ends_char(self.chars@[q]));
                }
                let rest = self.rest();
                assert forall|j: int| 0 <= j < key.len() implies #[trigger] rest.subrange(
                    0,
                    key.len() as int,
                )[j] == key[j] by {
                    assert(self.chars@[p + (lead.len() + j)] == (lead + pr)[lead.len() + j]);
                }
                assert(rest.subrange(0, key.len() as int) =~= key);
                assert(self.chars@[p + (lead.len() + key.len())] == (lead + pr)[(lead.len() + key.len()) as int]);
                assert(self.chars@[p + (lead.len() + key.len() + 1)] == (lead + pr)[(lead.len() + key.len() + 1) as int]);
                let vrest = self.chars@.subrange(self.pos + key.len() + 2, self.chars@.len() as int);
                assert forall|j: int| 0 <= j < vt.len() implies #[trigger] vrest.subrange(
                    0,
                    vt.len() as int,
                )[j] == vt[j] by {
                    assert(self.chars@[p + (lead.len() + key.len() + 2 + j)] == (lead + pr)[lead.len()
                        + key.len() + 2 + j]);
                }
                assert(vrest.subrange(0, vt.len() as int) =~= vt);
                if vt.len() < vrest.len() {
                    assert(vrest[vt.len() as int] == self.chars@[q]);
                }
            }
        }
    }

    /// `->` between a key and its value, after any whitespace.
    fn parse_arrow(&mut self) -> (r: Result<(), Error>)
        requires
            old(self).well_formed(),
        ensures
            final(self).follows(*old(self)),
            r matches Err(e) ==> located_error(final(self).chars@, e),
            old(self).pos + 2 <= old(self).chars@.len() && old(self).chars@[old(self).pos as int]
                == '-' && old(self).chars@[old(self).pos + 1] == '>' ==> r is Ok && final(self).pos
                == old(self).pos + 2,
    {
        self.skip_space();
        let m = self.mark();
        if self.eat('-') && self.eat('>') {
            Ok(())
        } else {
            Err(self.syntax_error(m))
        }
    }

    /// `{`, `key->value` pairs separated by delimiters, `}`. A key that
    /// repeats an earlier scalar key is invalid.
    fn parse_map(&mut self, shape: &Shape) -> (r: Result<Value, Error>)
        requires
            old(self).well_formed(),
            shape is Mapping,
        ensures
            final(self).follows(*old(self)),
            r matches Ok(v) ==> conforms(v, *shape) && final(self).pos > old(self).pos,
            r matches Err(e) ==> located_error(final(self).chars@, e),
            forall|v: Value, c: PrettyConfig, d: nat|
                round_trips(v, *shape) && leads(old(self).rest(), #[trigger] render(v, c, d, false))
                    ==> reads_back(r, v) && final(self).pos == old(self).pos + render(
                    v,
                    c,
                    d,
                    false,
                ).len(),
        decreases shape, 0nat,
    {
        let ghost initial = *self;
        let m = self.mark();
        let (k, w) = match shape {
            Shape::Mapping(k, w) => (k, w),
            _ => {
                return Err(self.syntax_error(m));
            },
        };
        proof {
            assert forall|v: Value, c: PrettyConfig, d: nat|
                round_trips(v, *shape) && leads(initial.rest(), #[trigger] render(v, c, d, false))
                implies initial.chars@[initial.pos as int] == '{' by {
                initial.lemma_leads(render(v, c, d, false));
                assert(initial.chars@[initial.pos + 0] == render(v, c, d, false)[0]);
            }
        }
        if !self.eat('{') {
            return Err(self.syntax_error(m));
        }
        let mut pairs: Vec<(Value, Value)> = Vec::new();
        loop
            invariant
                initial == *old(self),
                self.follows(initial),
                initial.well_formed(),
                self.mark_ok(m),
                self.pos > initial.pos,
                shape == Shape::Mapping(*k, *w),
                forall|i: int|
                    0 <= i < pairs@.len() ==> conforms(#[trigger] pairs@[i].0, **k) && conforms(
                        pairs@[i].1,
                        **w,
                    ),
                forall|v: Value, c: PrettyConfig, d: nat|
                    round_trips(v, *shape) && leads(initial.rest(), #[trigger] render(v, c, d, false)) ==> (
                    v matches Value::Mapping(ps) && pairs@.len() <= ps@.len() && self.pos == initial.pos
                        + 1 + render_pairs(ps@.take(pairs@.len() as int), c, d).len()
                        && same_pairs(pairs@, ps@.take(pairs@.len() as int))),
            decreases self.chars@.len() - self.pos,
        {
            let ghost before = *self;
            let separated = self.skip_delimiters();
            let here = self.mark();
            proof {
                self.lemma_map_step(before, initial, **k, **w, pairs@, separated);
            }
            match self.peek() {
                None => {
                    return Err(self.syntax_error(here));
                },
                Some(ch) => {
                    if ch == '}' {
                        self.bump();
                        proof {
                            assert forall|v: Value, c: PrettyConfig, d: nat|
                                round_trips(v, *shape) && leads(
                                    initial.rest(),
                                    #[trigger] render(v, c, d, false),
                                ) implies reads_back(Ok::<Value, Error>(Value::Mapping(pairs)), v)
                                && self.pos == initial.pos + render(v, c, d, false).len() by {
                                if let Value::Mapping(ps) = v {
                                    assert(pairs@.len() == ps@.len());
                                    assert(ps@.take(pairs@.len() as int) =~= ps@);
                                }
                            }
                        }
                        return Ok(Value::Mapping(pairs));
                    }
                    if pairs.len() > 0 && !separated {
                        return Err(self.syntax_error(here));
                    }
                },
            }
            let ghost at = *self;
            let key = self.parse_value(k, true)?;
            proof {
                assert forall|v: Value, c: PrettyConfig, d: nat|
                    round_trips(v, *shape) && leads(initial.rest(), #[trigger] render(v, c, d, false))
                    implies v matches Value::Mapping(ps) && pairs@.len() < ps@.len() && same_value(
                    key,
                    ps@[pairs@.len() as int].0,
                ) by {
                    if let Value::Mapping(ps) = v {
                        if let Value::Str(kk) = ps@[pairs@.len() as int].0 {
                            assert(keyed_at(at.rest(), kk@));
                        }
                    }
                }
            }
            if repeats(&pairs, &key) {
                proof {
                    assert forall|v: Value, c: PrettyConfig, d: nat|
                        round_trips(v, *shape) && leads(
                            initial.rest(),
                            #[trigger] render(v, c, d, false),
                        ) implies false by {
                        if let Value::Mapping(ps) = v {
                            let n = pairs@.len() as int;
                            let j = choose|j: int|
                                0 <= j < pairs@.len() && same_scalar_key(
                                    #[trigger] pairs@[j].0,
                                    key,
                                );
                            lemma_same_pairs_index(pairs@, ps@.take(n), j);
                            lemma_text_safe_pairs_index(ps@, n);
                            assert(ps@.take(n)[j] == ps@[j]);
                            assert(same_key(ps@[j].0, ps@[n].0));
                        }
                    }
                }
                return Err(self.key_error(here));
            }
            self.parse_arrow()?;
            let ghost after_arrow = *self;
            let value = self.parse_value(w, false)?;
            let ghost prior = pairs@;
            pairs.push((key, value));
            proof {
                let n = prior.len() as int;
                assert(pairs@.drop_last() =~= prior);
                assert(pairs@[n] == (key, value));
                assert forall|i: int| 0 <= i < pairs@.len() implies conforms(
                    #[trigger] pairs@[i].0,
                    **k,
                ) && conforms(pairs@[i].1, **w) by {
                    if i < n {
                        assert(pairs@[i] == prior[i]);
                    }
                }
                assert forall|v: Value, c: PrettyConfig, d: nat|
                    round_trips(v, *shape) && leads(initial.rest(), #[trigger] render(v, c, d, false))
                    implies (v matches Value::Mapping(ps) && pairs@.len() <= ps@.len() && self.pos
                    == initial.pos + 1 + render_pairs(ps@.take(pairs@.len() as int), c, d).len()
                    && same_pairs(pairs@, ps@.take(pairs@.len() as int))) by {
                    if let Value::Mapping(ps) = v {
                        lemma_pairs_step(ps@, c, d, n);
                        assert(ps@.take(n + 1).drop_last() =~= ps@.take(n));
                        assert(ps@.take(n + 1).last() == ps@[n]);
                        if let Value::Str(kk) = ps@[n].0 {
                            assert(keyed_at(at.rest(), kk@));
                            assert(after_arrow.rest() =~= at.chars@.subrange(
                                at.pos + kk@.len() + 2,
                                at.chars@.len() as int,
                            ));
                            assert(leads(after_arrow.rest(), render(ps@[n].1, c, d + 1, false)));
                            assert(same_entry(pairs@.last(), ps@.take(n + 1).last()));
                        }
                    }
                }
            }
        }
    }

    /// The index of the first field called `name`, if there is one.
    fn field_index(fields: &Vec<(String, Shape)>, name: &String) -> (r: Option<usize>)
        ensures
            r matches Some(i) ==> i < fields@.len() && fields@[i as int].0@ == name@ && forall|j: int|
                0 <= j < i ==> (#[trigger] fields@[j]).0@ != name@,
            r is None ==> forall|j: int| 0 <= j < fields@.len() ==> (#[trigger] fields@[j]).0@ != name@,
    {
        let mut i: usize = 0;
        while i < fields.len()
            invariant
                i <= fields@.len(),
                forall|j: int| 0 <= j < i ==> (#[trigger] fields@[j]).0@ != name@,
            decreases fields@.len() - i,
        {
            if fields[i].0 == *name {
                return Some(i);
            }
            i = i + 1;
        }
        None
    }

    /// The struct counterpart of `lemma_map_step`: the next key is the next
    /// field's name, which no earlier field has.
    proof fn lemma_struct_step(
        &self,
        before: Deserializer,
        initial: Deserializer,
        fields: Vec<(String, Shape)>,
        n: int,
        separated: bool,
    )
        requires
            initial.well_formed(),
            self.follows(before),
            before.follows(initial),
            separated == (self.pos > before.pos),
            forall|j: int| before.pos <= j < self.pos ==> is_delim(#[trigger] self.chars@[j]),
            self.pos < self.chars@.len() ==> !is_delim(self.chars@[self.pos as int]),
            forall|v: Value, c: PrettyConfig, d: nat|
                round_trips(v, Shape::Struct(fields)) && leads(
                    initial.rest(),
                    #[trigger] render(v, c, d, false),
                ) ==> (v matches Value::Mapping(ps) && 0 <= n <= ps@.len() && before.pos == initial.pos
                    + 1 + render_pairs(ps@.take(n), c, d).len()),
        ensures
            forall|v: Value, c: PrettyConfig, d: nat|
                round_trips(v, Shape::Struct(fields)) && leads(
                    initial.rest(),
                    #[trigger] render(v, c, d, false),
                ) ==> (v matches Value::Mapping(ps) && ps@.len() == fields@.len() && self.pos
                    < self.chars@.len() && (n == ps@.len() ==> self.chars@[self.pos as int] == '}'
                    && self.pos + 1 == initial.pos + render(v, c, d, false).len()) && (n < ps@.len() ==> {
                    let e = ps@[n];
                    &&& self.chars@[self.pos as int] != '}'
                    &&& (n > 0 ==> separated)
                    &&& text_safe(e.1)
                    &&& conforms(e.1, fields@[n].1)
                    &&& shape_readable(fields@[n].1)
                    &&& e.0 matches Value::Str(kk) && bare_safe(kk@) && kk@ == fields@[n].0@
                        && (forall|j: int| 0 <= j < n ==> (#[trigger] fields@[j]).0@ != kk@)
                        && keyed_at(self.rest(), kk@) && leads(
                        self.chars@.subrange(
                            self.pos + kk@.len() + 2,
                            self.chars@.len() as int,
                        ),
                        render(e.1, c, d + 1, false),
                    ) && self.pos + kk@.len() + 2 + render(e.1, c, d + 1, false).len() == initial.pos
                        + 1 + render_pairs(ps@.take(n + 1), c, d).len()
                })),
    {
        assert forall|v: Value, c: PrettyConfig, d: nat|
            round_trips(v, Shape::Struct(fields)) && leads(
                initial.rest(),
                #[trigger] render(v, c, d, false),
            ) implies (v matches Value::Mapping(ps) && ps@.len() == fields@.len() && self.pos
            < self.chars@.len() && (n == ps@.len() ==> self.chars@[self.pos as int] == '}' && self.pos
            + 1 == initial.pos + render(v, c, d, false).len()) && (n < ps@.len() ==> {
            let e = ps@[n];
            &&& self.chars@[self.pos as int] != '}'
            &&& (n > 0 ==> separated)
            &&& text_safe(e.1)
            &&& conforms(e.1, fields@[n].1)
            &&& shape_readable(fields@[n].1)
            &&& e.0 matches Value::Str(kk) && bare_safe(kk@) && kk@ == fields@[n].0@ && (forall|j: int|
                0 <= j < n ==> (#[trigger] fields@[j]).0@ != kk@) && keyed_at(self.rest(), kk@)
                && leads(
                self.chars@.subrange(self.pos + kk@.len() + 2, self.chars@.len() as int),
                render(e.1, c, d + 1, false),
            ) && self.pos + kk@.len() + 2 + render(e.1, c, d + 1, false).len() == initial.pos + 1
                + render_pairs(ps@.take(n + 1), c, d).len()
        })) by {
            if let Value::Mapping(ps) = v {
                lemma_conforms_fields_len(ps@, fields@);
                self.lemma_map_step_one(before, initial, ps@, c, d, n);
                if n < ps@.len() {
                    lemma_text_safe_pairs_index(ps@, n);
                    lemma_conforms_fields_index(ps@, fields@, n);
                    lemma_fields_readable_index(fields@, n);
                    assert forall|j: int| 0 <= j < n implies (#[trigger] fields@[j]).0@
                        != ps@[n].0->Str_0@ by {
                        lemma_conforms_fields_index(ps@, fields@, j);
                        assert(!same_key(ps@[j].0, ps@[n].0));
                    }
                }
            }
        }
    }

    /// `{`, `field->value` pairs in any order, `}`. A field that is not
    /// declared, or given twice, is an invalid key; a missing field makes the
    /// struct invalid. The pairs come out in the order of the fields.
    fn parse_struct(&mut self, fields: &Vec<(String, Shape)>) -> (r: Result<
        Vec<(Value, Value)>,
        Error,
    >)
        requires
            old(self).well_formed(),
        ensures
            final(self).follows(*old(self)),
            r matches Ok(pairs) ==> conforms_fields(pairs@, fields@) && final(self).pos > old(
                self,
            ).pos,
            r matches Err(e) ==> located_error(final(self).chars@, e),
            forall|v: Value, c: PrettyConfig, d: nat|
                round_trips(v, Shape::Struct(*fields)) && leads(
                    old(self).rest(),
                    #[trigger] render(v, c, d, false),
                ) ==> (r matches Ok(xs) && v matches Value::Mapping(ps) && same_pairs(xs@, ps@))
                    && final(self).pos == old(self).pos + render(v, c, d, false).len(),
        decreases fields, 0nat,
    {
        let ghost initial = *self;
        let m = self.mark();
        proof {
            assert forall|v: Value, c: PrettyConfig, d: nat|
                round_trips(v, Shape::Struct(*fields)) && leads(
                    initial.rest(),
                    #[trigger] render(v, c, d, false),
                ) implies initial.chars@[initial.pos as int] == '{' by {
                initial.lemma_leads(render(v, c, d, false));
                assert(initial.chars@[initial.pos + 0] == render(v, c, d, false)[0]);
            }
        }
        if !self.eat('{') {
            return Err(self.syntax_error(m));
        }
        let mut slots: Vec<Option<Value>> = Vec::new();
        let mut i: usize = 0;
        while i < fields.len()
            invariant
                i <= fields@.len(),
                slots@.len() == i,
                forall|j: int| 0 <= j < i ==> #[trigger] slots@[j] is None,
            decreases fields@.len() - i,
        {
            slots.push(None);
            i = i + 1;
        }
        let ghost mut count: int = 0;
        let mut first = true;
        loop
            invariant
                count >= 0,
                first == (count == 0),
                initial == *old(self),
                self.follows(initial),
                initial.well_formed(),
                self.mark_ok(m),
                self.pos > initial.pos,
                slots@.len() == fields@.len(),
                forall|j: int|
                    0 <= j < slots@.len() ==> (#[trigger] slots@[j] matches Some(v) ==> conforms(
                        v,
                        fields@[j].1,
                    )),
                forall|v: Value, c: PrettyConfig, d: nat|
                    round_trips(v, Shape::Struct(*fields)) && leads(
                        initial.rest(),
                        #[trigger] render(v, c, d, false),
                    ) ==> (v matches Value::Mapping(ps) && 0 <= count <= ps@.len() && self.pos
                        == initial.pos + 1 + render_pairs(ps@.take(count), c, d).len() && (forall|j: int|
                        0 <= j < slots@.len() ==> (j < count) == (#[trigger] slots@[j] is Some))
                        && (forall|j: int|
                        0 <= j < count ==> slot_holds(#[trigger] slots@[j], ps@[j].1))),
            decreases self.chars@.len() - self.pos,
        {
            let ghost before = *self;
            let separated = self.skip_delimiters();
            let here = self.mark();
            proof {
                self.lemma_struct_step(before, initial, *fields, count, separated);
            }
            match self.peek() {
                None => {
                    return Err(self.syntax_error(here));
                },
                Some(ch) => {
                    if ch == '}' {
                        self.bump();
                        let ghost full = slots@;
                        let assembled = self.assemble(fields, slots);
                        proof {
                            assert forall|v: Value, c: PrettyConfig, d: nat|
                                round_trips(v, Shape::Struct(*fields)) && leads(
                                    initial.rest(),
                                    #[trigger] render(v, c, d, false),
                                ) implies (assembled matches Some(xs) && v matches Value::Mapping(ps)
                                && same_pairs(xs@, ps@)) && self.pos == initial.pos + render(
                                v,
                                c,
                                d,
                                false,
                            ).len() by {
                                if let Value::Mapping(ps) = v {
                                    assert(count == ps@.len());
                                    assert(forall|j: int| 0 <= j < full.len() ==> #[trigger] full[j] is Some);
                                    if let Some(xs) = assembled {
                                        assert forall|j: int| 0 <= j < ps@.len() implies #[trigger] same_entry(
                                            xs@[j],
                                            ps@[j],
                                        ) by {
                                            lemma_conforms_fields_index(ps@, fields@, j);
                                            assert(full[j] == Some(xs@[j].1));
                                        }
                                        lemma_same_pairs_from_index(xs@, ps@);
                                    }
                                }
                            }
                        }
                        return match assembled {
                            Some(pairs) => Ok(pairs),
                            None => Err(self.value_error(here)),
                        };
                    }
                    if !first && !separated {
                        return Err(self.syntax_error(here));
                    }
                },
            }
            let ghost at = *self;
            let name = self.parse_string(true)?;
            let index = match Deserializer::field_index(fields, &name) {
                Some(index) => index,
                None => {
                    return Err(self.key_error(here));
                },
            };
            proof {
                assert forall|v: Value, c: PrettyConfig, d: nat|
                    round_trips(v, Shape::Struct(*fields)) && leads(
                        initial.rest(),
                        #[trigger] render(v, c, d, false),
                    ) implies index == count by {
                    if let Value::Mapping(ps) = v {
                        if let Value::Str(kk) = ps@[count].0 {
                            assert(keyed_at(at.rest(), kk@));
                            assert(name@ == kk@);
                            if index < count {
                                assert(fields@[index as int].0@ != kk@);
                            }
                            if index > count {
                                assert(fields@[count].0@ != name@);
                            }
                        }
                    }
                }
            }
            if slots[index].is_some() {
                return Err(self.key_error(here));
            }
            self.parse_arrow()?;
            let ghost after_arrow = *self;
            let value = self.parse_value(&fields[index].1, false)?;
            let ghost prior = slots@;
            slots.set(index, Some(value));
            first = false;
            proof {
                assert forall|v: Value, c: PrettyConfig, d: nat|
                    round_trips(v, Shape::Struct(*fields)) && leads(
                        initial.rest(),
                        #[trigger] render(v, c, d, false),
                    ) implies (v matches Value::Mapping(ps) && 0 <= count + 1 <= ps@.len() && self.pos
                    == initial.pos + 1 + render_pairs(ps@.take(count + 1), c, d).len() && (forall|j: int|
                    0 <= j < slots@.len() ==> (j < count + 1) == (#[trigger] slots@[j] is Some))
                    && (forall|j: int|
                    0 <= j < count + 1 ==> slot_holds(#[trigger] slots@[j], ps@[j].1))) by {
                    if let Value::Mapping(ps) = v {
                        lemma_pairs_step(ps@, c, d, count);
                        if let Value::Str(kk) = ps@[count].0 {
                            assert(keyed_at(at.rest(), kk@));
                            assert(after_arrow.rest() =~= at.chars@.subrange(
                                at.pos + kk@.len() + 2,
                                at.chars@.len() as int,
                            ));
                            assert(leads(after_arrow.rest(), render(ps@[count].1, c, d + 1, false)));
                        }
                        assert forall|j: int| 0 <= j < slots@.len() implies (j < count + 1) == (
                        #[trigger] slots@[j] is Some) by {
                            if j != count {
                                assert(slots@[j] == prior[j]);
                            }
                        }
                        assert forall|j: int| 0 <= j < count + 1 implies slot_holds(#[trigger] slots@[j], ps@[j].1) by {
                            if j != count {
                                assert(slots@[j] == prior[j]);
                            }
                        }
                    }
                }
                count = count + 1;
            }
        }
    }

    /// The pairs of a struct from the value read for each field, in the
    /// order of the fields; `None` if a field was not given.
    fn assemble(&self, fields: &Vec<(String, Shape)>, slots: Vec<Option<Value>>) -> (r: Option<
        Vec<(Value, Value)>,
    >)
        requires
            slots@.len() == fields@.len(),
            forall|j: int|
                0 <= j < slots@.len() ==> (#[trigger] slots@[j] matches Some(v) ==> conforms(
                    v,
                    fields@[j].1,
                )),
        ensures
            r matches Some(pairs) ==> conforms_fields(pairs@, fields@),
            (forall|j: int| 0 <= j < slots@.len() ==> #[trigger] slots@[j] is Some) ==> (r matches Some(
                pairs,
            ) && pairs@.len() == fields@.len() && forall|i: int|
                0 <= i < fields@.len() ==> named(#[trigger] pairs@[i], fields@[i].0@) && slots@[i] == Some(pairs@[i].1)),
    {
        let ghost given = slots@;
        let mut rest = slots;
        let mut pairs: Vec<(Value, Value)> = Vec::new();
        let mut i: usize = 0;
        while i < fields.len()
            invariant
                i <= fields@.len(),
                given.len() == fields@.len(),
                given == slots@,
                rest@ == given.subrange(i as int, given.len() as int),
                forall|j: int|
                    0 <= j < given.len() ==> (#[trigger] given[j] matches Some(v) ==> conforms(
                        v,
                        fields@[j].1,
                    )),
                pairs@.len() == i,
                conforms_fields(pairs@, fields@.take(i as int)),
                forall|j: int|
                    0 <= j < i ==> named(#[trigger] pairs@[j], fields@[j].0@) && given[j] == Some(pairs@[j].1),
            decreases fields@.len() - i,
        {
            let slot = rest.remove(0);
            assert(slot == given[i as int]);
            assert(rest@ =~= given.subrange(i + 1, given.len() as int));
            match slot {
                Some(v) => {
                    let name = fields[i].0.clone();
                    assert(conforms(v, fields@[i as int].1));
                    let ghost before = pairs@;
                    pairs.push((Value::Str(name), v));
                    proof {
                        let next = fields@.take(i + 1);
                        assert(next.drop_last() =~= fields@.take(i as int));
                        assert(pairs@.drop_last() =~= before);
                        assert(field_pair(pairs@.last(), next.last()));
                        assert forall|j: int| 0 <= j < i + 1 implies named(#[trigger] pairs@[j], fields@[j].0@) && given[j] == Some(pairs@[j].1) by {
                            if j < i {
                                assert(pairs@[j] == before[j]);
                            }
                        }
                    }
                },
                None => {
                    return None;
                },
            }
            i = i + 1;
        }
        assert(fields@.take(i as int) =~= fields@);
        Some(pairs)
    }

    /// The identifier of a variant tag: letters, digits and `_`.
    fn parse_ident(&mut self) -> (r: String)
        requires
            old(self).well_formed(),
        ensures
            final(self).follows(*old(self)),
            r@.len() > 0 ==> final(self).pos > old(self).pos,
            forall|t: Seq<char>|
                ident_safe(t) && #[trigger] ident_at(old(self).rest(), t) ==> r@ == t
                    && final(self).pos == old(self).pos + t.len(),
    {
        let ghost start = self.pos as int;
        let mut out = String::new();
        while self.pos < self.chars.len() && is_ident_char(self.chars[self.pos])
            invariant
                self.follows(*old(self)),
                start == old(self).pos,
                out@.len() > 0 ==> self.pos > old(self).pos,
                out@ == self.chars@.subrange(start, self.pos as int),
                forall|j: int| start <= j < self.pos ==> is_ident(#[trigger] self.chars@[j]),
            decreases self.chars@.len() - self.pos,
        {
            push_char(&mut out, self.chars[self.pos]);
            self.bump();
            assert(out@ =~= self.chars@.subrange(start, self.pos as int));
        }
        proof {
            assert forall|t: Seq<char>| ident_safe(t) && #[trigger] ident_at(old(self).rest(), t)
                implies out@ == t && self.pos == start + t.len() by {
                let rest = old(self).rest();
                assert forall|j: int| start <= j < start + t.len() implies is_ident(
                    #[trigger] self.chars@[j],
                ) by {
                    assert(self.chars@[j] == rest[j - start]);
                    assert(rest.subrange(0, t.len() as int)[j - start] == t[j - start]);
                }
                if self.pos < start + t.len() {
                    assert(is_ident(self.chars@[self.pos as int]));
                }
                if self.pos > start + t.len() {
                    assert(is_ident(self.chars@[start + t.len()]));
                    assert(self.chars@[start + t.len()] == rest[t.len() as int]);
                }
                assert forall|k: int| 0 <= k < t.len() implies #[trigger] out@[k] == t[k] by {
                    assert(self.chars@[start + k] == rest[k]);
                    assert(rest.subrange(0, t.len() as int)[k] == t[k]);
                }
                assert(out@ =~= t);
            }
        }
        out
    }

    /// `$Tag`, then the payload its variant declares: nothing, `(value)`,
    /// `(values)` or `{pairs}`. A tag the shape does not admit, or a payload
    /// of another form, makes the value invalid.
    #[verifier::rlimit(100)]
    fn parse_enum(&mut self, variants: &Vec<(String, VariantShape)>, key: bool) -> (r: Result<
        Value,
        Error,
    >)
        requires
            old(self).well_formed(),
        ensures
            final(self).follows(*old(self)),
            r matches Ok(v) ==> conforms(v, Shape::Enum(*variants)) && final(self).pos > old(
                self,
            ).pos,
            r matches Err(e) ==> located_error(final(self).chars@, e),
            forall|v: Value, c: PrettyConfig, d: nat|
                round_trips(v, Shape::Enum(*variants)) && leads(
                    old(self).rest(),
                    #[trigger] render(v, c, d, false),
                ) ==> reads_back(r, v) && final(self).pos == old(self).pos + render(
                    v,
                    c,
                    d,
                    false,
                ).len(),
        decreases variants, 0nat,
    {
        let ghost initial = *self;
        let m = self.mark();
        proof {
            assert forall|v: Value, c: PrettyConfig, d: nat|
                round_trips(v, Shape::Enum(*variants)) && leads(
                    initial.rest(),
                    #[trigger] render(v, c, d, false),
                ) implies initial.chars@[initial.pos as int] == '$' by {
                initial.lemma_leads(render(v, c, d, false));
                assert(initial.chars@[initial.pos + 0] == render(v, c, d, false)[0]);
            }
        }
        if !self.eat('$') {
            return Err(self.syntax_error(m));
        }
        let ghost after_mark = *self;
        proof {
            assert forall|v: Value, c: PrettyConfig, d: nat|
                round_trips(v, Shape::Enum(*variants)) && leads(
                    initial.rest(),
                    #[trigger] render(v, c, d, false),
                ) implies ident_at(after_mark.rest(), variant_tag(v)) && leads(
                after_mark.rest(),
                variant_tag(v) + payload_text(v, c, d),
            ) by {
                let text = render(v, c, d, false);
                lemma_variant_text(v, c, d);
                lemma_leads_skip(initial.rest(), text, 1);
                assert(after_mark.rest() =~= initial.rest().subrange(1, initial.rest().len() as int));
                assert(text.subrange(1, text.len() as int) =~= variant_tag(v) + payload_text(v, c, d));
                let t = variant_tag(v);
                let pt = payload_text(v, c, d);
                let rest = after_mark.rest();
                assert forall|j: int| 0 <= j < t.len() implies #[trigger] rest.subrange(
                    0,
                    t.len() as int,
                )[j] == t[j] by {
                    assert(rest.subrange(0, (t + pt).len() as int)[j] == (t + pt)[j]);
                }
                assert(rest.subrange(0, t.len() as int) =~= t);
                if t.len() < rest.len() {
                    if pt.len() > 0 {
                        assert(rest.subrange(0, (t + pt).len() as int)[t.len() as int] == pt[0]);
                    } else {
                        assert((t + pt) =~= t);
                    }
                }
            }
        }
        let tag = self.parse_ident();
        let ghost after_tag = *self;
        proof {
            assert forall|v: Value, c: PrettyConfig, d: nat|
                round_trips(v, Shape::Enum(*variants)) && leads(
                    initial.rest(),
                    #[trigger] render(v, c, d, false),
                ) implies tag@ == variant_tag(v) && leads(after_tag.rest(), payload_text(v, c, d))
                && after_tag.pos == initial.pos + 1 + variant_tag(v).len() by {
                let t = variant_tag(v);
                let pt = payload_text(v, c, d);
                assert(ident_at(after_mark.rest(), t));
                lemma_leads_skip(after_mark.rest(), t + pt, t.len() as int);
                assert((t + pt).subrange(t.len() as int, (t + pt).len() as int) =~= pt);
                assert(after_tag.rest() =~= after_mark.rest().subrange(
                    t.len() as int,
                    after_mark.rest().len() as int,
                ));
            }
        }
        if tag.as_str().is_empty() {
            return Err(self.syntax_error(m));
        }
        let i = match variant_index(variants, &tag) {
            Some(i) => i,
            None => {
                return Err(self.value_error(m));
            },
        };
        proof {
            assert forall|v: Value, c: PrettyConfig, d: nat|
                round_trips(v, Shape::Enum(*variants)) && leads(
                    initial.rest(),
                    #[trigger] render(v, c, d, false),
                ) implies variant_fits(v, variants@[i as int].1) && payload_readable(
                variants@[i as int].1,
            ) by {
                let i0 = choose|i0: int|
                    0 <= i0 < variants@.len() && #[trigger] variants@[i0].0@ == variant_tag(v)
                        && variant_fits(v, variants@[i0].1);
                lemma_enum_conforms(v, *variants);
                lemma_variants_readable_index(variants@, i0);
                lemma_variants_readable_index(variants@, i as int);
                if (i as int) < i0 {
                    assert(variants@[i as int].0@ != variants@[i0].0@);
                }
                if (i as int) > i0 {
                    assert(variants@[i0].0@ != tag@);
                }
            }
        }
        let payload = self.peek();
        match &variants[i].1 {
            VariantShape::Unit => {
                if payload == Some('(') || payload == Some('{') {
                    proof {
                        assert forall|v: Value, c: PrettyConfig, d: nat|
                            round_trips(v, Shape::Enum(*variants)) && leads(
                                initial.rest(),
                                #[trigger] render(v, c, d, false),
                            ) implies false by {
                            assert(payload_text(v, c, d).len() == 0);
                            if self.pos < self.chars@.len() {
                                assert(self.rest()[0] == self.chars@[self.pos as int]);
                            }
                        }
                    }
                    return Err(self.value_error(m));
                }
                proof {
                    assert forall|v: Value, c: PrettyConfig, d: nat|
                        round_trips(v, Shape::Enum(*variants)) && leads(
                            initial.rest(),
                            #[trigger] render(v, c, d, false),
                        ) implies reads_back(Ok::<Value, Error>(Value::UnitVariant(tag)), v)
                        && self.pos == initial.pos + render(v, c, d, false).len() by {
                        lemma_variant_text(v, c, d);
                    }
                }
                Ok(Value::UnitVariant(tag))
            },
            VariantShape::Newtype(p) => {
                proof {
                    assert forall|v: Value, c: PrettyConfig, d: nat|
                        round_trips(v, Shape::Enum(*variants)) && leads(
                            initial.rest(),
                            #[trigger] render(v, c, d, false),
                        ) implies self.pos < self.chars@.len() && self.chars@[self.pos as int] == '('
                        by {
                        lemma_variant_text(v, c, d);
                        self.lemma_leads(payload_text(v, c, d));
                        assert(self.chars@[self.pos + 0] == payload_text(v, c, d)[0]);
                    }
                }
                if payload != Some('(') {
                    return Err(self.value_error(m));
                }
                let open = self.mark();
                let ghost at_open = *self;
                self.bump();
                let ghost at_inner = *self;
                proof {
                    assert forall|v: Value, c: PrettyConfig, d: nat|
                        round_trips(v, Shape::Enum(*variants)) && leads(
                            initial.rest(),
                            #[trigger] render(v, c, d, false),
                        ) implies v matches Value::NewtypeVariant(_, inner) && leads(
                        at_inner.rest(),
                        render(*inner, c, d, false) + seq![')'],
                    ) && round_trips(*inner, *p) by {
                        if let Value::NewtypeVariant(_, inner) = v {
                            let pt = payload_text(v, c, d);
                            lemma_variant_text(v, c, d);
                            lemma_leads_skip(at_open.rest(), pt, 1);
                            assert(at_inner.rest() =~= at_open.rest().subrange(
                                1,
                                at_open.rest().len() as int,
                            ));
                            assert(pt.subrange(1, pt.len() as int) =~= render(*inner, c, d, false)
                                + seq![')']);
                        }
                    }
                    assert forall|v: Value, c: PrettyConfig, d: nat|
                        round_trips(v, Shape::Enum(*variants)) && leads(
                            initial.rest(),
                            #[trigger] render(v, c, d, false),
                        ) implies v matches Value::NewtypeVariant(_, inner) && leads(
                        at_inner.rest(),
                        render(*inner, c, d, false),
                    ) by {
                        if let Value::NewtypeVariant(_, inner) = v {
                            lemma_leads_prefix(
                                at_inner.rest(),
                                render(*inner, c, d, false),
                                seq![')'],
                            );
                        }
                    }
                }
                let inner = self.parse_value(p, key)?;
                let ghost after_inner = *self;
                proof {
                    assert forall|v: Value, c: PrettyConfig, d: nat|
                        round_trips(v, Shape::Enum(*variants)) && leads(
                            initial.rest(),
                            #[trigger] render(v, c, d, false),
                        ) implies self.pos < self.chars@.len() && self.chars@[self.pos as int] == ')'
                        by {
                        if let Value::NewtypeVariant(_, vi) = v {
                            let it = render(*vi, c, d, false);
                            at_inner.lemma_leads(it + seq![')']);
                            assert(at_inner.chars@[at_inner.pos + it.len()] == (it + seq![')'])[it.len() as int]);
                        }
                    }
                }
                let _ = self.skip_delimiters();
                let here = self.mark();
                match self.peek() {
                    None => Err(self.open_error(Iterable::Tuple, open)),
                    Some(c) => {
                        if c == ')' {
                            self.bump();
                            proof {
                                assert forall|v: Value, c: PrettyConfig, d: nat|
                                    round_trips(v, Shape::Enum(*variants)) && leads(
                                        initial.rest(),
                                        #[trigger] render(v, c, d, false),
                                    ) implies reads_back(
                                    Ok::<Value, Error>(Value::NewtypeVariant(tag, Box::new(inner))),
                                    v,
                                ) && self.pos == initial.pos + render(v, c, d, false).len() by {
                                    lemma_variant_text(v, c, d);
                                    if after_inner.pos < self.pos - 1 {
                                        assert(is_delim(self.chars@[after_inner.pos as int]));
                                    }
                                }
                            }
                            Ok(Value::NewtypeVariant(tag, Box::new(inner)))
                        } else {
                            Err(self.syntax_error(here))
                        }
                    },
                }
            },
            VariantShape::Tuple(ps) => {
                proof {
                    assert forall|v: Value, c: PrettyConfig, d: nat|
                        round_trips(v, Shape::Enum(*variants)) && leads(
                            initial.rest(),
                            #[trigger] render(v, c, d, false),
                        ) implies self.pos < self.chars@.len() && self.chars@[self.pos as int] == '('
                        by {
                        lemma_variant_text(v, c, d);
                        self.lemma_leads(payload_text(v, c, d));
                        assert(self.chars@[self.pos + 0] == payload_text(v, c, d)[0]);
                    }
                }
                if payload != Some('(') {
                    return Err(self.value_error(m));
                }
                let ghost at = *self;
                proof {
                    assert forall|v: Value, c: PrettyConfig, d: nat|
                        round_trips(v, Shape::Enum(*variants)) && leads(
                            initial.rest(),
                            #[trigger] render(v, c, d, false),
                        ) implies v matches Value::TupleVariant(_, its) && round_trips(
                        Value::Tuple(its),
                        Shape::Tuple(*ps),
                    ) && leads(at.rest(), render(Value::Tuple(its), c, d, false)) by {
                        lemma_variant_text(v, c, d);
                        if let Value::TupleVariant(_, its) = v {
                            assert(payload_text(v, c, d) == render(Value::Tuple(its), c, d, false));
                        }
                    }
                }
                let items = self.parse_tuple(ps, key)?;
                proof {
                    assert forall|v: Value, c: PrettyConfig, d: nat|
                        round_trips(v, Shape::Enum(*variants)) && leads(
                            initial.rest(),
                            #[trigger] render(v, c, d, false),
                        ) implies reads_back(Ok::<Value, Error>(Value::TupleVariant(tag, items)), v)
                        && self.pos == initial.pos + render(v, c, d, false).len() by {
                        lemma_variant_text(v, c, d);
                        if let Value::TupleVariant(_, its) = v {
                            let tv = Value::Tuple(its);
                            assert(payload_text(v, c, d) == render(tv, c, d, false));
                            assert(round_trips(tv, Shape::Tuple(*ps)));
                            assert(leads(at.rest(), render(tv, c, d, false)));
                        }
                    }
                }
                Ok(Value::TupleVariant(tag, items))
            },
            VariantShape::Struct(fs) => {
                proof {
                    assert forall|v: Value, c: PrettyConfig, d: nat|
                        round_trips(v, Shape::Enum(*variants)) && leads(
                            initial.rest(),
                            #[trigger] render(v, c, d, false),
                        ) implies self.pos < self.chars@.len() && self.chars@[self.pos as int] == '{'
                        by {
                        lemma_variant_text(v, c, d);
                        self.lemma_leads(payload_text(v, c, d));
                        assert(self.chars@[self.pos + 0] == payload_text(v, c, d)[0]);
                    }
                }
                if payload != Some('{') {
                    return Err(self.value_error(m));
                }
                let ghost at = *self;
                proof {
                    assert forall|v: Value, c: PrettyConfig, d: nat|
                        round_trips(v, Shape::Enum(*variants)) && leads(
                            initial.rest(),
                            #[trigger] render(v, c, d, false),
                        ) implies v matches Value::StructVariant(_, ps) && round_trips(
                        Value::Mapping(ps),
                        Shape::Struct(*fs),
                    ) && leads(at.rest(), render(Value::Mapping(ps), c, d, false)) by {
                        lemma_variant_text(v, c, d);
                        if let Value::StructVariant(_, ps) = v {
                            assert(payload_text(v, c, d) == render(Value::Mapping(ps), c, d, false));
                        }
                    }
                }
                let pairs = self.parse_struct(fs)?;
                proof {
                    assert forall|v: Value, c: PrettyConfig, d: nat|
                        round_trips(v, Shape::Enum(*variants)) && leads(
                            initial.rest(),
                            #[trigger] render(v, c, d, false),
                        ) implies reads_back(Ok::<Value, Error>(Value::StructVariant(tag, pairs)), v)
                        && self.pos == initial.pos + render(v, c, d, false).len() by {
                        lemma_variant_text(v, c, d);
                        if let Value::StructVariant(_, ps) = v {
                            let mv = Value::Mapping(ps);
                            assert(payload_text(v, c, d) == render(mv, c, d, false));
                            assert(round_trips(mv, Shape::Struct(*fs)));
                            assert(leads(at.rest(), render(mv, c, d, false)));
                        }
                    }
                }
                Ok(Value::StructVariant(tag, pairs))
            },
        }
    }
}

/// The index of the variant tagged `tag`, if there is one.
fn variant_index(variants: &Vec<(String, VariantShape)>, tag: &String) -> (r: Option<usize>)
    ensures
        r matches Some(i) ==> i < variants@.len() && variants@[i as int].0@ == tag@ && forall|j: int|
            0 <= j < i ==> (#[trigger] variants@[j]).0@ != tag@,
        r is None ==> forall|j: int| 0 <= j < variants@.len() ==> (#[trigger] variants@[j]).0@ != tag@,
{
    let mut i: usize = 0;
    while i < variants.len()
        invariant
            i <= variants@.len(),
            forall|j: int| 0 <= j < i ==> (#[trigger] variants@[j]).0@ != tag@,
        decreases variants@.len() - i,
    {
        if variants[i].0 == *tag {
            return Some(i);
        }
        i = i + 1;
    }
    None
}

/// Letters, digits and `_`.
fn is_ident_char(c: char) -> (r: bool)
    ensures
        r == is_ident(c),
{
    ('a' <= c && c <= 'z') || ('A' <= c && c <= 'Z') || ('0' <= c && c <= '9') || c == '_'
}

/// `a` and `b` are the same scalar key, as `same_scalar` finds: for a
/// string, the same text.
pub open spec fn same_scalar_key(a: Value, b: Value) -> bool {
    b matches Value::Str(y) ==> a matches Value::Str(x) && x@ == y@
}

/// `key` is a scalar equal to the key of one of `pairs`.
fn repeats(pairs: &Vec<(Value, Value)>, key: &Value) -> (r: bool)
    ensures
        r ==> exists|j: int| 0 <= j < pairs@.len() && same_scalar_key(#[trigger] pairs@[j].0, *key),
{
    let mut i: usize = 0;
    while i < pairs.len()
        invariant
            i <= pairs@.len(),
        decreases pairs@.len() - i,
    {
        if same_scalar(&pairs[i].0, key) {
            return true;
        }
        i = i + 1;
    }
    false
}

/// `a` and `b` are the same scalar; containers are never the same here.
fn same_scalar(a: &Value, b: &Value) -> (r: bool)
    ensures
        r ==> same_scalar_key(*a, *b),
{
    match (a, b) {
        (Value::Bool(x), Value::Bool(y)) => *x == *y,
        (Value::Int(x), Value::Int(y)) => *x == *y,
        (Value::UInt(x), Value::UInt(y)) => *x == *y,
        (Value::Char(x), Value::Char(y)) => *x == *y,
        (Value::Str(x), Value::Str(y)) => *x == *y,
        (Value::Unit, Value::Unit) => true,
        _ => false,
    }
}

/// Reads a value of shape `shape` from the whole of `input`: after the
/// value only whitespace may follow. A value read conforms to the shape;
/// an error carries the line and column of an offset of the input. Every
/// text-safe value of a readable shape is read back from the text it is
/// written as, whatever the config it was written under.
pub fn from_str(input: &str, shape: &Shape) -> (r: Result<Value, Error>)
    requires
        input@.len() < u32::MAX,
    ensures
        r matches Ok(v) ==> conforms(v, *shape),
        r matches Err(e) ==> located_error(input@, e),
        forall|v: Value, c: PrettyConfig|
            round_trips(v, *shape) && input@ == #[trigger] render(v, c, 0, false)
                ==> reads_back(r, v),
{
    let mut de = Deserializer::new(input);
    proof {
        assert(de.rest() =~= input@);
        assert forall|v: Value, c: PrettyConfig|
            round_trips(v, *shape) && input@ == #[trigger] render(v, c, 0, false) implies leads(
            de.rest(),
            render(v, c, 0, false),
        ) by {
            assert(de.rest().subrange(0, de.rest().len() as int) =~= de.rest());
        }
    }
    let v = de.parse_value(shape, false)?;
    de.skip_space();
    let here = de.mark();
    if de.peek().is_some() {
        return Err(de.syntax_error(here));
    }
    Ok(v)
}

/// Whether a bare key ends at `i`: at `->`, a delimiter or a bracket.
fn ends_bare(chars: &Vec<char>, i: usize) -> (r: bool)
    requires
        i < chars@.len(),
    ensures
        r == ends_bare_at(chars@, i as int),
{
    let c = chars[i];
    c == ':' || c == ' ' || c == '\t' || c == '\n' || c == '\r' || c == '}' || c == ')' || c
        == ']' || (c == '-' && i < chars.len() - 1 && chars[i + 1] == '>')
}

/// The characters of `s`, in order.
fn chars_of(s: &str) -> (r: Vec<char>)
    ensures
        r@ == s@,
{
    broadcast use vstd::string::group_string_axioms;
    let mut it = s.chars();
    let mut r: Vec<char> = Vec::new();
    loop
        invariant
            r@ + it.remaining() == s@,
            it.decrease() is Some,
        ensures
            r@ == s@,
        decreases it.decrease()->0,
    {
        match it.next() {
            Some(c) => {
                r.push(c);
            },
            None => {
                assert(r@ =~= s@);
                break;
            },
        }
    }
    r
}

} // verus!
