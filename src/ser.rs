use vstd::prelude::*;

use crate::config::{DelimiterType, PrettyConfig};
use crate::grammar::{
    indent_of, keyed_close, quoted, keyed_sep, ordered_sep, render, render_items, render_pair,
    render_pairs, spaces,
};
use crate::numeric::{decimal_of, format_i64, format_u64, push_char};
use crate::value::Value;

verus! {

/// The kind of an open container.
#[derive(Debug, Clone, Copy, PartialEq, Eq, Structural)]
pub enum Container {
    /// `[...]`
    Sequence,
    /// `(...)`: a tuple, a tuple struct or the body of a tuple variant.
    Tuple,
    /// `{...}`: a map, a struct or the body of a struct variant.
    Keyed,
}

/// One open container: its kind, whether an item has been written in it yet,
/// and whether keys were being written when it was opened.
#[derive(Debug, Clone, Copy, PartialEq, Eq, Structural)]
pub struct Frame {
    pub kind: Container,
    pub started: bool,
    pub key_mode: bool,
}

/// The state of a serializer as contracts see it.
pub struct SerializerView {
    pub output: Seq<char>,
    pub pretty: PrettyConfig,
    /// The number of open keyed containers.
    pub depth: nat,
    /// Whether a key is being written: strings are then written bare.
    pub key_mode: bool,
    /// The open containers, innermost last.
    pub frames: Seq<Frame>,
}

impl SerializerView {
    /// The same state with `text` written at the end of the output.
    pub open spec fn appended(self, text: Seq<char>) -> SerializerView {
        SerializerView { output: self.output + text, ..self }
    }

    /// The state after `text` opened a container of kind `kind`.
    pub open spec fn opened(self, text: Seq<char>, kind: Container) -> SerializerView {
        SerializerView {
            output: self.output + text,
            depth: if kind == Container::Keyed { self.depth + 1 } else { self.depth },
            frames: self.frames.push(Frame { kind, started: false, key_mode: self.key_mode }),
            ..self
        }
    }

    /// The innermost open container.
    pub open spec fn top(self) -> Frame {
        self.frames.last()
    }

    /// The same state with the innermost container marked as started.
    pub open spec fn started(self) -> SerializerView {
        SerializerView {
            frames: self.frames.update(
                self.frames.len() - 1,
                Frame { started: true, ..self.top() },
            ),
            ..self
        }
    }

    /// What is written before the next pair of the innermost keyed container.
    pub open spec fn key_lead(self) -> Seq<char> {
        if self.pretty.delimiter == DelimiterType::Newline {
            seq!['\n'] + indent_of(self.pretty, self.depth)
        } else if self.top().started {
            keyed_sep(self.pretty)
        } else {
            Seq::empty()
        }
    }

    /// What is written before the next element of the innermost sequence or tuple.
    pub open spec fn element_lead(self) -> Seq<char> {
        if self.top().started {
            ordered_sep(self.pretty)
        } else {
            Seq::empty()
        }
    }

    /// What closes the innermost container.
    pub open spec fn closer(self) -> Seq<char> {
        match self.top().kind {
            Container::Sequence => seq![']'],
            Container::Tuple => seq![')'],
            Container::Keyed => keyed_close(
                self.pretty,
                (self.depth - 1) as nat,
                if self.top().started { 1 } else { 0 },
            ),
        }
    }

    /// The state after the innermost container was closed.
    pub open spec fn closed(self) -> SerializerView {
        SerializerView {
            output: self.output + self.closer(),
            depth: if self.top().kind == Container::Keyed {
                (self.depth - 1) as nat
            } else {
                self.depth
            },
            key_mode: self.top().key_mode,
            frames: self.frames.drop_last(),
            ..self
        }
    }
}

/// The number of keyed containers among `frames`.
pub open spec fn keyed_count(frames: Seq<Frame>) -> nat
    decreases frames.len(),
{
    if frames.len() == 0 {
        0
    } else {
        keyed_count(frames.drop_last()) + if frames.last().kind == Container::Keyed {
            1nat
        } else {
            0nat
        }
    }
}

proof fn lemma_keyed_count_bound(frames: Seq<Frame>)
    ensures
        keyed_count(frames) <= frames.len(),
    decreases frames.len(),
{
    if frames.len() > 0 {
        lemma_keyed_count_bound(frames.drop_last());
    }
}

/// A string that is a quoted value, or bare while a key is written.
pub open spec fn str_text(s: Seq<char>, key: bool) -> Seq<char> {
    if key {
        s
    } else {
        quoted(s)
    }
}

/// Bytes as the values they are written as: unsigned integers.
pub open spec fn byte_values(b: Seq<u8>) -> Seq<Value> {
    b.map_values(|x: u8| Value::UInt(x as u64))
}

/// Writes values as text, one call per token of the value being described,
/// as a driver that walks a value calls it.
pub struct Serializer {
    output: String,
    pretty: PrettyConfig,
    depth: usize,
    key_mode: bool,
    frames: Vec<Frame>,
}

impl View for Serializer {
    type V = SerializerView;

    closed spec fn view(&self) -> SerializerView {
        SerializerView {
            output: self.output@,
            pretty: self.pretty,
            depth: self.depth as nat,
            key_mode: self.key_mode,
            frames: self.frames@,
        }
    }
}

impl Serializer {
    /// The depth counts the open keyed containers.
    pub open spec fn well_formed(&self) -> bool {
        self@.depth == keyed_count(self@.frames)
    }

    /// A serializer with empty output and nothing open.
    pub fn new(pretty: PrettyConfig) -> (r: Serializer)
        ensures
            r.well_formed(),
            r@.output == Seq::<char>::empty(),
            r@.pretty == pretty,
            r@.depth == 0,
            !r@.key_mode,
            r@.frames == Seq::<Frame>::empty(),
    {
        Serializer {
            output: String::new(),
            pretty,
            depth: 0,
            key_mode: false,
            frames: Vec::new(),
        }
    }

    /// The kind of the innermost open container, if any is open.
    pub fn innermost(&self) -> (r: Option<Container>)
        ensures
            r == (if self@.frames.len() > 0 {
                Some(self@.top().kind)
            } else {
                None
            }),
    {
        let n = self.frames.len();
        if n > 0 {
            Some(self.frames[n - 1].kind)
        } else {
            None
        }
    }

    /// The text written so far.
    pub fn into_output(self) -> (r: String)
        ensures
            r@ == self@.output,
    {
        self.output
    }

    fn write(&mut self, s: &str)
        ensures
            final(self)@ == old(self)@.appended(s@),
    {
        self.output.append(s);
    }

    /// `indent_width × depth` spaces.
    pub fn create_indent(&self) -> (r: String)
        ensures
            r@ == indent_of(self@.pretty, self@.depth),
    {
        let w = self.pretty.indent_width;
        let mut indent = String::new();
        let mut i: usize = 0;
        while i < self.depth
            invariant
                i <= self.depth,
                indent@ == spaces((w as nat * i) as nat),
            decreases self.depth - i,
        {
            let mut j: u8 = 0;
            while j < w
                invariant
                    j <= w,
                    indent@ == spaces((w as nat * i + j) as nat),
                decreases w - j,
            {
                push_char(&mut indent, ' ');
                assert(indent@ =~= spaces((w as nat * i + j + 1) as nat));
                j = j + 1;
            }
            assert(w as nat * i + w == w as nat * (i + 1)) by (nonlinear_arith);
            i = i + 1;
        }
        indent
    }

    pub fn serialize_bool(&mut self, v: bool)
        ensures
            final(self)@ == old(self)@.appended(
                if v {
                    seq!['t', 'r', 'u', 'e']
                } else {
                    seq!['f', 'a', 'l', 's', 'e']
                },
            ),
    {
        proof {
            reveal_strlit("true");
            reveal_strlit("false");
            assert("true"@ =~= seq!['t', 'r', 'u', 'e']);
            assert("false"@ =~= seq!['f', 'a', 'l', 's', 'e']);
        }
        if v {
            self.write("true");
        } else {
            self.write("false");
        }
    }

    /// Every signed width is written through its 64-bit widening.
    pub fn serialize_i64(&mut self, v: i64)
        ensures
            final(self)@ == old(self)@.appended(decimal_of(v as int)),
    {
        let text = format_i64(v);
        self.write(text.as_str());
    }

    /// Every unsigned width is written through its 64-bit widening.
    pub fn serialize_u64(&mut self, v: u64)
        ensures
            final(self)@ == old(self)@.appended(decimal_of(v as int)),
    {
        let text = format_u64(v);
        self.write(text.as_str());
    }

    /// Writes the decimal text of a floating-point number as it is given.
    pub fn serialize_float_text(&mut self, text: &str)
        ensures
            final(self)@ == old(self)@.appended(text@),
    {
        self.write(text);
    }

    /// A character between single quotes, not escaped.
    pub fn serialize_char(&mut self, v: char)
        ensures
            final(self)@ == old(self)@.appended(seq!['\'', v, '\'']),
    {
        push_char(&mut self.output, '\'');
        push_char(&mut self.output, v);
        push_char(&mut self.output, '\'');
        assert(self@.output =~= old(self)@.output + seq!['\'', v, '\'']);
    }

    /// A string between double quotes, not escaped; bare while a key is written.
    pub fn serialize_str(&mut self, v: &str)
        ensures
            final(self)@ == old(self)@.appended(str_text(v@, old(self)@.key_mode)),
    {
        if self.key_mode {
            self.write(v);
        } else {
            push_char(&mut self.output, '"');
            self.write(v);
            push_char(&mut self.output, '"');
            assert(self@.output =~= old(self)@.output + str_text(v@, false));
        }
    }

    /// The unit value and an absent optional.
    pub fn serialize_unit(&mut self)
        ensures
            final(self)@ == old(self)@.appended(seq!['/']),
    {
        proof {
            reveal_strlit("/");
            assert("/"@ =~= seq!['/']);
        }
        self.write("/");
    }

    pub fn serialize_unit_variant(&mut self, variant: &str)
        ensures
            final(self)@ == old(self)@.appended(seq!['$'] + variant@),
    {
        proof {
            reveal_strlit("$");
            assert("$"@ =~= seq!['$']);
        }
        self.write("$");
        self.write(variant);
        assert(self@.output =~= old(self)@.output + (seq!['$'] + variant@));
    }

    fn open(&mut self, text: &str, kind: Container)
        requires
            old(self).well_formed(),
        ensures
            final(self).well_formed(),
            final(self)@ == old(self)@.opened(text@, kind),
    {
        self.write(text);
        self.frames.push(Frame { kind, started: false, key_mode: self.key_mode });
        proof {
            lemma_keyed_count_bound(old(self)@.frames);
            assert(self@.frames.drop_last() =~= old(self)@.frames);
        }
        if kind == Container::Keyed {
            let _ = self.frames.len();
            self.depth = self.depth + 1;
        }
    }

    /// Opens `[`.
    pub fn serialize_seq(&mut self)
        requires
            old(self).well_formed(),
        ensures
            final(self).well_formed(),
            final(self)@ == old(self)@.opened(seq!['['], Container::Sequence),
    {
        proof {
            reveal_strlit("[");
            assert("["@ =~= seq!['[']);
        }
        self.open("[", Container::Sequence);
    }

    /// Opens `(`.
    pub fn serialize_tuple(&mut self)
        requires
            old(self).well_formed(),
        ensures
            final(self).well_formed(),
            final(self)@ == old(self)@.opened(seq!['('], Container::Tuple),
    {
        proof {
            reveal_strlit("(");
            assert("("@ =~= seq!['(']);
        }
        self.open("(", Container::Tuple);
    }

    /// Writes `$variant` and opens `(`.
    pub fn serialize_tuple_variant(&mut self, variant: &str)
        requires
            old(self).well_formed(),
        ensures
            final(self).well_formed(),
            final(self)@ == old(self)@.appended(seq!['$'] + variant@).opened(seq!['('], Container::Tuple),
    {
        self.serialize_unit_variant(variant);
        proof {
            reveal_strlit("(");
            assert("("@ =~= seq!['(']);
        }
        self.open("(", Container::Tuple);
    }

    /// Opens `{`.
    pub fn serialize_map(&mut self)
        requires
            old(self).well_formed(),
        ensures
            final(self).well_formed(),
            final(self)@ == old(self)@.opened(seq!['{'], Container::Keyed),
    {
        proof {
            reveal_strlit("{");
            assert("{"@ =~= seq!['{']);
        }
        self.open("{", Container::Keyed);
    }

    /// Writes `$variant` and opens `{`, with no delimiter between them.
    pub fn serialize_struct_variant(&mut self, variant: &str)
        requires
            old(self).well_formed(),
        ensures
            final(self).well_formed(),
            final(self)@ == old(self)@.appended(seq!['$'] + variant@).opened(seq!['{'], Container::Keyed),
    {
        self.serialize_unit_variant(variant);
        proof {
            reveal_strlit("{");
            assert("{"@ =~= seq!['{']);
        }
        self.open("{", Container::Keyed);
    }

    /// Starts the next element of the innermost sequence or tuple: the
    /// separator is written unless it is the first.
    pub fn begin_element(&mut self)
        requires
            old(self).well_formed(),
            old(self)@.frames.len() > 0,
            old(self)@.top().kind != Container::Keyed,
        ensures
            final(self).well_formed(),
            final(self)@ == old(self)@.appended(old(self)@.element_lead()).started(),
    {
        let n = self.frames.len();
        let top = self.frames[n - 1];
        proof {
            reveal_strlit(": ");
            reveal_strlit(" ");
            assert(": "@ =~= seq![':', ' ']);
            assert(" "@ =~= seq![' ']);
        }
        if top.started {
            match self.pretty.delimiter {
                DelimiterType::Colon => self.write(": "),
                _ => self.write(" "),
            }
        }
        self.frames.set(n - 1, Frame { started: true, ..top });
        proof {
            assert(self@.frames.drop_last() =~= old(self)@.frames.drop_last());
        }
    }

    /// Starts the next key of the innermost keyed container: under `Newline`
    /// a line break and the indentation, otherwise the delimiter unless it is
    /// the first. Strings are bare until `begin_value`.
    pub fn begin_key(&mut self)
        requires
            old(self).well_formed(),
            old(self)@.frames.len() > 0,
            old(self)@.top().kind == Container::Keyed,
        ensures
            final(self).well_formed(),
            final(self)@ == (SerializerView {
                key_mode: true,
                ..old(self)@.appended(old(self)@.key_lead()).started()
            }),
    {
        let n = self.frames.len();
        let top = self.frames[n - 1];
        proof {
            reveal_strlit("\n");
            reveal_strlit(":");
            reveal_strlit(" ");
            assert("\n"@ =~= seq!['\n']);
            assert(":"@ =~= seq![':']);
            assert(" "@ =~= seq![' ']);
        }
        match self.pretty.delimiter {
            DelimiterType::Newline => {
                self.write("\n");
                let indent = self.create_indent();
                self.write(indent.as_str());
                assert(self@.output =~= old(self)@.output + old(self)@.key_lead());
            },
            DelimiterType::Colon => if top.started {
                self.write(":");
            },
            DelimiterType::Whitespace => if top.started {
                self.write(" ");
            },
        }
        self.frames.set(n - 1, Frame { started: true, ..top });
        self.key_mode = true;
        proof {
            assert(self@.frames.drop_last() =~= old(self)@.frames.drop_last());
        }
    }

    /// Ends a key and starts its value: writes `->`; strings are quoted again.
    pub fn begin_value(&mut self)
        requires
            old(self).well_formed(),
        ensures
            final(self).well_formed(),
            final(self)@ == (SerializerView { key_mode: false, ..old(self)@.appended(seq!['-', '>']) }),
    {
        proof {
            reveal_strlit("->");
            assert("->"@ =~= seq!['-', '>']);
        }
        self.write("->");
        self.key_mode = false;
    }

    /// Starts a field of a struct: its name as a bare key, then `->`.
    pub fn serialize_field(&mut self, key: &str)
        requires
            old(self).well_formed(),
            old(self)@.frames.len() > 0,
            old(self)@.top().kind == Container::Keyed,
        ensures
            final(self).well_formed(),
            final(self)@ == (SerializerView {
                key_mode: false,
                ..old(self)@.appended(old(self)@.key_lead() + key@ + seq!['-', '>']).started()
            }),
    {
        self.begin_key();
        self.serialize_str(key);
        self.begin_value();
        assert(self@.output =~= old(self)@.output + (old(self)@.key_lead() + key@ + seq!['-', '>']));
    }

    /// Closes the innermost container. A non-empty keyed container closes on
    /// a line of its own under `Newline`, indented one level out.
    pub fn end(&mut self)
        requires
            old(self).well_formed(),
            old(self)@.frames.len() > 0,
        ensures
            final(self).well_formed(),
            final(self)@ == old(self)@.closed(),
    {
        let top = self.frames.pop().unwrap();
        proof {
            reveal_strlit("\n");
            reveal_strlit("}");
            assert("\n"@ =~= seq!['\n']);
            assert("}"@ =~= seq!['}']);
        }
        proof {
            assert(self@.frames =~= old(self)@.frames.drop_last());
        }
        proof {
            reveal_strlit("]");
            reveal_strlit(")");
            assert("]"@ =~= seq![']']);
            assert(")"@ =~= seq![')']);
        }
        match top.kind {
            Container::Sequence => self.write("]"),
            Container::Tuple => self.write(")"),
            Container::Keyed => {
                self.depth = self.depth - 1;
                if top.started && self.pretty.delimiter == DelimiterType::Newline {
                    self.write("\n");
                    let indent = self.create_indent();
                    self.write(indent.as_str());
                    self.write("}");
                    assert(self@.output =~= old(self)@.output + old(self)@.closer());
                } else {
                    self.write("}");
                }
            },
        }
        self.key_mode = top.key_mode;
    }
}

impl Serializer {
    /// A byte sequence, written as a sequence of integers.
    pub fn serialize_bytes(&mut self, v: &[u8])
        requires
            old(self).well_formed(),
        ensures
            final(self).well_formed(),
            final(self)@ == old(self)@.appended(
                seq!['['] + render_items(byte_values(v@), old(self)@.pretty, old(self)@.depth, old(self)@.key_mode)
                    + seq![']'],
            ),
    {
        let ghost start = self@;
        let ghost items = byte_values(v@);
        self.serialize_seq();
        let mut i: usize = 0;
        while i < v.len()
            invariant
                self.well_formed(),
                i <= v@.len(),
                items == byte_values(v@),
                start.depth == keyed_count(start.frames),
                self@ == (SerializerView {
                    output: start.output + seq!['['] + render_items(items.take(i as int), start.pretty, start.depth, start.key_mode),
                    frames: start.frames.push(Frame { kind: Container::Sequence, started: i > 0, key_mode: start.key_mode }),
                    ..start
                }),
            decreases v@.len() - i,
        {
            self.begin_element();
            self.serialize_u64(v[i] as u64);
            proof {
                let next = items.take(i + 1);
                assert(next.drop_last() =~= items.take(i as int));
                assert(next.last() == Value::UInt(v@[i as int] as u64));
                assert(next[0] == items[0]);
                assert(render(next.last(), start.pretty, start.depth, start.key_mode) == decimal_of(v@[i as int] as int));
                assert(self@.frames =~= start.frames.push(Frame { kind: Container::Sequence, started: true, key_mode: start.key_mode }));
                assert(self@.output =~= start.output + seq!['['] + render_items(next, start.pretty, start.depth, start.key_mode));
            }
            i = i + 1;
        }
        assert(items.take(i as int) =~= items);
        self.end();
        assert(self@.output =~= start.output + (seq!['['] + render_items(items, start.pretty, start.depth, start.key_mode) + seq![']']));
        assert(self@.frames =~= start.frames);
    }

    /// Writes a whole value, in the context the serializer is in.
    #[verifier::rlimit(40)]
    pub fn write_value(&mut self, v: &Value)
        requires
            old(self).well_formed(),
        ensures
            final(self).well_formed(),
            final(self)@ == old(self)@.appended(
                render(*v, old(self)@.pretty, old(self)@.depth, old(self)@.key_mode),
            ),
        decreases v,
    {
        match v {
            Value::Bool(b) => self.serialize_bool(*b),
            Value::Int(i) => self.serialize_i64(*i),
            Value::UInt(u) => self.serialize_u64(*u),
            Value::Char(c) => self.serialize_char(*c),
            Value::Str(s) => self.serialize_str(s.as_str()),
            Value::Unit => self.serialize_unit(),
            Value::Sequence(items) => {
                let ghost start = self@;
                self.serialize_seq();
                self.write_items(items);
                self.end();
                assert(self@.output =~= start.output + render(*v, start.pretty, start.depth, start.key_mode));
                assert(self@.frames =~= start.frames);
            },
            Value::Tuple(items) => {
                let ghost start = self@;
                self.serialize_tuple();
                self.write_items(items);
                self.end();
                assert(self@.output =~= start.output + render(*v, start.pretty, start.depth, start.key_mode));
                assert(self@.frames =~= start.frames);
            },
            Value::UnitVariant(tag) => self.serialize_unit_variant(tag.as_str()),
            Value::NewtypeVariant(tag, inner) => {
                let ghost start = self@;
                self.serialize_tuple_variant(tag.as_str());
                self.begin_element();
                self.write_value(inner);
                self.end();
                assert(self@.output =~= start.output + render(*v, start.pretty, start.depth, start.key_mode));
                assert(self@.frames =~= start.frames);
            },
            Value::TupleVariant(tag, items) => {
                let ghost start = self@;
                self.serialize_tuple_variant(tag.as_str());
                self.write_items(items);
                self.end();
                assert(self@.output =~= start.output + render(*v, start.pretty, start.depth, start.key_mode));
                assert(self@.frames =~= start.frames);
            },
            Value::Mapping(pairs) => {
                let ghost start = self@;
                self.serialize_map();
                self.write_pairs(pairs);
                self.end();
                assert(self@.output =~= start.output + render(*v, start.pretty, start.depth, start.key_mode));
                assert(self@.frames =~= start.frames);
            },
            Value::StructVariant(tag, pairs) => {
                let ghost start = self@;
                self.serialize_struct_variant(tag.as_str());
                self.write_pairs(pairs);
                self.end();
                assert(self@.output =~= start.output + render(*v, start.pretty, start.depth, start.key_mode));
                assert(self@.frames =~= start.frames);
            },
        }
    }

    /// Writes the elements of the innermost, just opened, sequence or tuple.
    fn write_items(&mut self, items: &Vec<Value>)
        requires
            old(self).well_formed(),
            old(self)@.frames.len() > 0,
            old(self)@.top().kind != Container::Keyed,
            !old(self)@.top().started,
        ensures
            final(self).well_formed(),
            final(self)@ == (SerializerView {
                output: old(self)@.output + render_items(items@, old(self)@.pretty, old(self)@.depth, old(self)@.key_mode),
                frames: if items@.len() > 0 { old(self)@.started().frames } else { old(self)@.frames },
                ..old(self)@
            }),
        decreases items, 0nat,
    {
        let ghost start = self@;
        let mut i: usize = 0;
        while i < items.len()
            invariant
                self.well_formed(),
                i <= items@.len(),
                start.frames.len() > 0,
                start.top().kind != Container::Keyed,
                !start.top().started,
                self@ == (SerializerView {
                    output: start.output + render_items(items@.take(i as int), start.pretty, start.depth, start.key_mode),
                    frames: if i > 0 { start.started().frames } else { start.frames },
                    ..start
                }),
            decreases items@.len() - i,
        {
            self.begin_element();
            self.write_value(&items[i]);
            proof {
                let next = items@.take(i + 1);
                assert(next.drop_last() =~= items@.take(i as int));
                assert(self@.frames =~= start.started().frames);
                assert(self@.output =~= start.output + render_items(next, start.pretty, start.depth, start.key_mode));
            }
            i = i + 1;
        }
        assert(items@.take(i as int) =~= items@);
    }

    /// Writes the pairs of the innermost, just opened, keyed container.
    fn write_pairs(&mut self, pairs: &Vec<(Value, Value)>)
        requires
            old(self).well_formed(),
            old(self)@.frames.len() > 0,
            old(self)@.top().kind == Container::Keyed,
            !old(self)@.top().started,
            old(self)@.depth > 0,
        ensures
            final(self).well_formed(),
            final(self)@ == (SerializerView {
                output: old(self)@.output + render_pairs(pairs@, old(self)@.pretty, (old(self)@.depth - 1) as nat),
                frames: if pairs@.len() > 0 { old(self)@.started().frames } else { old(self)@.frames },
                key_mode: if pairs@.len() > 0 { false } else { old(self)@.key_mode },
                ..old(self)@
            }),
        decreases pairs, 0nat,
    {
        let ghost start = self@;
        let ghost d = (start.depth - 1) as nat;
        let mut i: usize = 0;
        while i < pairs.len()
            invariant
                self.well_formed(),
                i <= pairs@.len(),
                start.frames.len() > 0,
                start.top().kind == Container::Keyed,
                !start.top().started,
                start.depth == d + 1,
                self@ == (SerializerView {
                    output: start.output + render_pairs(pairs@.take(i as int), start.pretty, d),
                    frames: if i > 0 { start.started().frames } else { start.frames },
                    key_mode: if i > 0 { false } else { start.key_mode },
                    ..start
                }),
            decreases pairs@.len() - i,
        {
            let ghost before = self@;
            self.begin_key();
            self.write_value(&pairs[i].0);
            self.begin_value();
            self.write_value(&pairs[i].1);
            proof {
                let next = pairs@.take(i + 1);
                assert(next.drop_last() =~= pairs@.take(i as int));
                assert(next.last() == pairs@[i as int]);
                assert(self@.frames =~= start.started().frames);
                assert(self@.output =~= before.output + before.key_lead() + render_pair(pairs@[i as int], start.pretty, d));
                assert(self@.output =~= start.output + render_pairs(next, start.pretty, d));
            }
            i = i + 1;
        }
        assert(pairs@.take(i as int) =~= pairs@);
    }
}

/// The text of a value under the default config: colon delimiter, no indentation.
pub fn to_string(value: &Value) -> (r: String)
    ensures
        r@ == render(*value, PrettyConfig { delimiter: DelimiterType::Colon, indent_width: 0 }, 0, false),
{
    let config = PrettyConfig::default();
    to_string_pretty(value, config)
}

/// The text of a value under `pretty`.
pub fn to_string_pretty(value: &Value, pretty: PrettyConfig) -> (r: String)
    ensures
        r@ == render(*value, pretty, 0, false),
{
    let mut serializer = Serializer::new(pretty);
    serializer.write_value(value);
    assert(serializer@.output =~= render(*value, pretty, 0, false));
    serializer.into_output()
}

} // verus!
