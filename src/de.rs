use crate::field::{flat, views, FieldConfig, FieldSet, FieldView};
use crate::text::{decimal, decimal_text, digits, int_text, parse_int, trim, trim_bounds, utf8_text};
use crate::value::{
    eviews, lemma_eviews_push, lemma_vviews_push, vviews, IntKind, Shape, Value, ValueView,
};
use vstd::prelude::*;
use vstd::slice::{slice_subrange, slice_to_vec};
use vstd::string::StringSliceAdditionalSpecFns;
use vstd::utf8::{decode_utf8, valid_utf8};

verus! {

/// Errors that occur while reading a record.
#[derive(Debug)]
pub enum DeserializeError {
    /// A field held more than its shape allows, or no variant could be chosen.
    Message(String),
    /// The shape asked for cannot be read from fixed-width fields.
    Unsupported(String),
    /// A field was asked for where none is left, or its range lies outside the record.
    UnexpectedEndOfRecord,
    /// A field's text is not valid UTF-8.
    InvalidUtf8,
    /// A field could not be read as a boolean.
    ParseBoolError,
    /// A field could not be read as an integer of the type asked for.
    ParseIntError,
    /// A field could not be read as a floating-point number.
    ParseFloatError,
}

/// The kinds of reading errors, as plain values.
pub enum Failure {
    Message,
    Unsupported,
    EndOfRecord,
    InvalidUtf8,
    ParseBool,
    ParseInt,
    ParseFloat,
}

impl DeserializeError {
    /// The kind of this error.
    pub open spec fn failure(self) -> Failure {
        match self {
            DeserializeError::Message(_) => Failure::Message,
            DeserializeError::Unsupported(_) => Failure::Unsupported,
            DeserializeError::UnexpectedEndOfRecord => Failure::EndOfRecord,
            DeserializeError::InvalidUtf8 => Failure::InvalidUtf8,
            DeserializeError::ParseBoolError => Failure::ParseBool,
            DeserializeError::ParseIntError => Failure::ParseInt,
            DeserializeError::ParseFloatError => Failure::ParseFloat,
        }
    }
}

/// The bytes of field `f` in `input`, where its range lies inside the input.
pub open spec fn field_bytes(input: Seq<u8>, f: FieldView) -> Option<Seq<u8>> {
    if f.start <= f.end && f.end <= input.len() {
        Some(input.subrange(f.start as int, f.end as int))
    } else {
        None
    }
}

/// The raw bytes of field `pos`.
pub open spec fn raw_at(input: Seq<u8>, fields: Seq<FieldView>, pos: int) -> Result<
    Seq<u8>,
    Failure,
> {
    if 0 <= pos < fields.len() {
        match field_bytes(input, fields[pos]) {
            Some(b) => Ok(b),
            None => Err(Failure::EndOfRecord),
        }
    } else {
        Err(Failure::EndOfRecord)
    }
}

/// The text of field `pos`: its bytes without surrounding whitespace, which must be valid
/// UTF-8, which they are exactly where the whole field is (`lemma_trim_valid`).
pub open spec fn text_at(input: Seq<u8>, fields: Seq<FieldView>, pos: int) -> Result<
    Seq<u8>,
    Failure,
> {
    match raw_at(input, fields, pos) {
        Ok(b) => if valid_utf8(trim(b)) {
            Ok(trim(b))
        } else {
            Err(Failure::InvalidUtf8)
        },
        Err(e) => Err(e),
    }
}

/// A flag from a field's text: blank or `0` is false, any other single byte true.
pub open spec fn bool_of(t: Seq<u8>) -> Result<ValueView, Failure> {
    if t.len() > 1 {
        Err(Failure::Message)
    } else {
        Ok(ValueView::Bool(!(t.len() == 0 || t[0] == 48)))
    }
}

/// A character from a field's text: blank is a space.
pub open spec fn char_of(t: Seq<u8>) -> Result<ValueView, Failure> {
    if t.len() > 1 {
        Err(Failure::Message)
    } else if t.len() == 0 {
        Ok(ValueView::Char(' '))
    } else {
        Ok(ValueView::Char(t[0] as char))
    }
}

/// An integer of kind `k` from a field's text.
pub open spec fn int_of(t: Seq<u8>, k: IntKind) -> Result<ValueView, Failure> {
    match int_text(t, k.signed()) {
        Some(v) => if k.min() <= v <= k.max() {
            Ok(ValueView::Int(v))
        } else {
            Err(Failure::ParseInt)
        },
        None => Err(Failure::ParseInt),
    }
}

/// What a field's text reads as best: `1` and `0` as flags, another single byte as a
/// character, a 64-bit signed integer as such, anything else as text.
pub open spec fn any_of(t: Seq<u8>) -> ValueView {
    if t.len() == 1 {
        if t[0] == 49 {
            ValueView::Bool(true)
        } else if t[0] == 48 {
            ValueView::Bool(false)
        } else {
            ValueView::Char(t[0] as char)
        }
    } else {
        match int_text(t, true) {
            Some(v) => if IntKind::I64.min() <= v <= IntKind::I64.max() {
                ValueView::Int(v)
            } else {
                ValueView::Str(decode_utf8(t))
            },
            None => ValueView::Str(decode_utf8(t)),
        }
    }
}

/// The key an unnamed field stands under: its range, as `start..end`.
pub open spec fn range_key(f: FieldView) -> Seq<u8> {
    decimal(f.start as int) + seq![46u8, 46u8] + decimal(f.end as int)
}

/// The key of a field: its name, or else its range.
pub open spec fn key_of(f: FieldView) -> Seq<char> {
    match f.name {
        Some(n) => n,
        None => range_key(f).map_values(|b: u8| b as char),
    }
}

/// Whether the first variant named `name` carries a payload, where there is one.
pub open spec fn variant_payload(vs: Seq<(String, bool)>, name: Seq<char>) -> Option<bool>
    decreases vs.len(),
{
    if vs.len() == 0 {
        None
    } else if vs[0].0@ == name {
        Some(vs[0].1)
    } else {
        variant_payload(vs.drop_first(), name)
    }
}

/// A value read from one field, with the field consumed.
pub open spec fn one_field(r: Result<ValueView, Failure>, pos: int) -> Result<(ValueView, int), Failure> {
    match r {
        Ok(v) => Ok((v, pos + 1)),
        Err(e) => Err(e),
    }
}

/// A primitive read from the text of field `pos`.
pub open spec fn read_text(
    input: Seq<u8>,
    fields: Seq<FieldView>,
    pos: int,
    shape: Shape,
) -> Result<(ValueView, int), Failure> {
    match text_at(input, fields, pos) {
        Ok(t) => one_field(
            match shape {
                Shape::Bool => bool_of(t),
                Shape::Int(k) => int_of(t, k),
                Shape::Char => char_of(t),
                Shape::Float => Ok(ValueView::Float(decode_utf8(t))),
                Shape::Any => Ok(any_of(t)),
                _ => Ok(ValueView::Str(decode_utf8(t))),
            },
            pos,
        ),
        Err(e) => Err(e),
    }
}

/// What reading `shape` from field `pos` on gives: the value and the position of the next
/// field, or the kind of error.
pub open spec fn read_spec(input: Seq<u8>, fields: Seq<FieldView>, pos: int, shape: Shape) -> Result<
    (ValueView, int),
    Failure,
>
    decreases shape, 0int,
{
    match shape {
        Shape::Bytes => match raw_at(input, fields, pos) {
            Ok(b) => Ok((ValueView::Bytes(b), pos + 1)),
            Err(e) => Err(e),
        },
        Shape::Optional(inner) => match text_at(input, fields, pos) {
            Ok(t) => if t.len() == 0 {
                Ok((ValueView::Absent, pos + 1))
            } else {
                match read_spec(input, fields, pos, *inner) {
                    Ok((v, p)) => Ok((ValueView::Present(Box::new(v)), p)),
                    Err(e) => Err(e),
                }
            },
            Err(e) => Err(e),
        },
        Shape::Unit => Ok(
            (
                ValueView::Unit,
                if pos < fields.len() {
                    pos + 1
                } else {
                    pos
                },
            ),
        ),
        Shape::List(inner) => read_list(input, fields, pos, *inner, seq![]),
        Shape::Tuple(shapes) => read_tuple(input, fields, pos, shapes@, 0, seq![]),
        Shape::Keyed(inner) => read_keyed(input, fields, pos, *inner, seq![]),
        Shape::Enum(vs) => if 0 <= pos < fields.len() {
            match fields[pos].name {
                Some(n) => match variant_payload(vs@, n) {
                    Some(payload) => if payload {
                        Err(Failure::Unsupported)
                    } else {
                        Ok((ValueView::Variant(n), pos))
                    },
                    None => Err(Failure::Message),
                },
                None => Err(Failure::Message),
            }
        } else {
            Err(Failure::EndOfRecord)
        },
        _ => read_text(input, fields, pos, shape),
    }
}

/// Members of shape `elem` read from field `pos` on until the fields run out, after `acc`.
pub open spec fn read_list(
    input: Seq<u8>,
    fields: Seq<FieldView>,
    pos: int,
    elem: Shape,
    acc: Seq<ValueView>,
) -> Result<(ValueView, int), Failure>
    decreases elem,
        if pos < fields.len() {
            fields.len() - pos
        } else {
            0
        },
{
    if pos >= fields.len() {
        Ok((ValueView::List(acc), pos))
    } else {
        match read_spec(input, fields, pos, elem) {
            Ok((v, p)) => if p <= pos {
                Err(Failure::Unsupported)
            } else {
                read_list(input, fields, p, elem, acc.push(v))
            },
            Err(e) => Err(e),
        }
    }
}

/// Members `shapes[i..]` read one after the other from field `pos` on, after `acc`.
pub open spec fn read_tuple(
    input: Seq<u8>,
    fields: Seq<FieldView>,
    pos: int,
    shapes: Seq<Shape>,
    i: int,
    acc: Seq<ValueView>,
) -> Result<(ValueView, int), Failure>
    decreases shapes,
        if i < shapes.len() {
            shapes.len() - i
        } else {
            0
        },
{
    if i >= shapes.len() || i < 0 {
        Ok((ValueView::List(acc), pos))
    } else if pos >= fields.len() {
        Err(Failure::EndOfRecord)
    } else {
        match read_spec(input, fields, pos, shapes[i]) {
            Ok((v, p)) => read_tuple(input, fields, p, shapes, i + 1, acc.push(v)),
            Err(e) => Err(e),
        }
    }
}

/// Entries with values of shape `elem` read from field `pos` on until the fields run out,
/// after `acc`; each entry is keyed by its field.
pub open spec fn read_keyed(
    input: Seq<u8>,
    fields: Seq<FieldView>,
    pos: int,
    elem: Shape,
    acc: Seq<(Seq<char>, ValueView)>,
) -> Result<(ValueView, int), Failure>
    decreases elem,
        if pos < fields.len() {
            fields.len() - pos
        } else {
            0
        },
{
    if pos >= fields.len() || pos < 0 {
        Ok((ValueView::Entries(acc), pos))
    } else {
        match read_spec(input, fields, pos, elem) {
            Ok((v, p)) => if p <= pos {
                Err(Failure::Unsupported)
            } else {
                read_keyed(input, fields, p, elem, acc.push((key_of(fields[pos]), v)))
            },
            Err(e) => Err(e),
        }
    }
}

/// `r` is what `s` describes, and the reader stopped at `after`.
pub open spec fn agrees(
    r: Result<Value, DeserializeError>,
    s: Result<(ValueView, int), Failure>,
    after: int,
) -> bool {
    match s {
        Ok((v, p)) => r is Ok && r->Ok_0@ == v && after == p,
        Err(f) => r is Err && r->Err_0.failure() == f,
    }
}

/// `r` is the value or the error that `s` describes.
pub open spec fn gives(r: Result<Value, DeserializeError>, s: Result<(ValueView, int), Failure>) -> bool {
    match s {
        Ok((v, _)) => r is Ok && r->Ok_0@ == v,
        Err(f) => r is Err && r->Err_0.failure() == f,
    }
}

/// Reads structured values out of one record, field after field.
pub struct Deserializer<'r> {
    fields: Vec<FieldConfig>,
    pos: usize,
    input: &'r [u8],
}

impl<'r> Deserializer<'r> {
    /// The record being read.
    pub closed spec fn record(&self) -> Seq<u8> {
        self.input@
    }

    /// The fields, in reading order.
    pub closed spec fn layout(&self) -> Seq<FieldView> {
        views(self.fields@)
    }

    /// The position of the next field to read.
    pub closed spec fn cursor(&self) -> int {
        self.pos as int
    }

    #[verifier::type_invariant]
    spec fn cursor_in_range(&self) -> bool {
        self.pos <= self.fields@.len()
    }

    /// A reader of `input` through the fields of `fields`, in depth-first order.
    pub fn new(input: &'r [u8], fields: FieldSet) -> (r: Self)
        ensures
            r.record() == input@,
            r.layout() == flat(fields.tree()),
            r.cursor() == 0,
    {
        Deserializer { fields: fields.flatten(), pos: 0, input }
    }

    /// The record being read.
    pub fn get_ref(&self) -> (r: &'r [u8])
        ensures
            r@ == self.record(),
    {
        self.input
    }

    /// Every field has been read.
    pub fn done(&self) -> (r: bool)
        ensures
            r == (self.cursor() >= self.layout().len()),
            self.cursor() <= self.layout().len(),
    {
        proof {
            use_type_invariant(self);
        }
        self.pos >= self.fields.len()
    }

    /// The next field, without reading it.
    pub fn peek_field(&self) -> (r: Option<&FieldConfig>)
        ensures
            match r {
                Some(f) => self.cursor() < self.layout().len() && f@ == self.layout()[self.cursor()],
                None => self.cursor() >= self.layout().len(),
            },
    {
        if self.pos < self.fields.len() {
            Some(&self.fields[self.pos])
        } else {
            None
        }
    }

    /// Passes over the next field, if there is one.
    pub fn skip_field(&mut self)
        ensures
            final(self).record() == old(self).record(),
            final(self).layout() == old(self).layout(),
            final(self).cursor() == if old(self).cursor() < old(self).layout().len() {
                old(self).cursor() + 1
            } else {
                old(self).cursor()
            },
    {
        if self.pos < self.fields.len() {
            self.pos = self.pos + 1;
        }
    }

    /// The raw bytes of the next field, without reading it.
    pub fn peek_bytes(&self) -> (r: Result<&'r [u8], DeserializeError>)
        ensures
            match (r, raw_at(self.record(), self.layout(), self.cursor())) {
                (Ok(b), Ok(s)) => b@ == s,
                (Err(e), Err(f)) => e.failure() == f,
                _ => false,
            },
    {
        if self.pos >= self.fields.len() {
            return Err(DeserializeError::UnexpectedEndOfRecord);
        }
        let f = &self.fields[self.pos];
        let start = f.range().start;
        let end = f.range().end;
        if start <= end && end <= self.input.len() {
            Ok(slice_subrange(self.input, start, end))
        } else {
            Err(DeserializeError::UnexpectedEndOfRecord)
        }
    }

    /// The raw bytes of the next field, which is read.
    pub fn next_bytes(&mut self) -> (r: Result<&'r [u8], DeserializeError>)
        ensures
            final(self).record() == old(self).record(),
            final(self).layout() == old(self).layout(),
            match (r, raw_at(old(self).record(), old(self).layout(), old(self).cursor())) {
                (Ok(b), Ok(s)) => b@ == s && final(self).cursor() == old(self).cursor() + 1,
                (Err(e), Err(f)) => e.failure() == f,
                _ => false,
            },
    {
        proof {
            use_type_invariant(&*self);
        }
        let r = self.peek_bytes();
        if r.is_ok() && self.pos < self.fields.len() {
            self.pos = self.pos + 1;
        }
        r
    }

    /// The text of the next field, without reading it.
    pub fn peek_str(&self) -> (r: Result<&'r str, DeserializeError>)
        ensures
            match (r, text_at(self.record(), self.layout(), self.cursor())) {
                (Ok(s), Ok(t)) => s@ == decode_utf8(t),
                (Err(e), Err(f)) => e.failure() == f,
                _ => false,
            },
    {
        match self.peek_text() {
            Ok((_, s)) => Ok(s),
            Err(e) => Err(e),
        }
    }

    /// The text of the next field, which is read.
    pub fn next_str(&mut self) -> (r: Result<&'r str, DeserializeError>)
        ensures
            final(self).record() == old(self).record(),
            final(self).layout() == old(self).layout(),
            match (r, text_at(old(self).record(), old(self).layout(), old(self).cursor())) {
                (Ok(s), Ok(t)) => s@ == decode_utf8(t) && final(self).cursor() == old(
                    self,
                ).cursor() + 1,
                (Err(e), Err(f)) => e.failure() == f,
                _ => false,
            },
    {
        match self.next_text() {
            Ok((_, s)) => Ok(s),
            Err(e) => Err(e),
        }
    }

    fn peek_text(&self) -> (r: Result<(&'r [u8], &'r str), DeserializeError>)
        ensures
            match (r, text_at(self.record(), self.layout(), self.cursor())) {
                (Ok((b, s)), Ok(t)) => b@ == t && s@ == decode_utf8(t),
                (Err(e), Err(f)) => e.failure() == f,
                _ => false,
            },
    {
        match self.peek_bytes() {
            Ok(b) => {
                let (i, j) = trim_bounds(b);
                let t = slice_subrange(b, i, j);
                match utf8_text(t) {
                    Some(s) => Ok((t, s)),
                    None => Err(DeserializeError::InvalidUtf8),
                }
            },
            Err(e) => Err(e),
        }
    }

    fn next_text(&mut self) -> (r: Result<(&'r [u8], &'r str), DeserializeError>)
        ensures
            final(self).record() == old(self).record(),
            final(self).layout() == old(self).layout(),
            match (r, text_at(old(self).record(), old(self).layout(), old(self).cursor())) {
                (Ok((b, s)), Ok(t)) => b@ == t && s@ == decode_utf8(t) && final(self).cursor()
                    == old(self).cursor() + 1,
                (Err(e), Err(f)) => e.failure() == f,
                _ => false,
            },
    {
        proof {
            use_type_invariant(&*self);
        }
        let r = self.peek_text();
        if r.is_ok() && self.pos < self.fields.len() {
            self.pos = self.pos + 1;
        }
        r
    }
}


impl<'r> Deserializer<'r> {
    /// Reads a primitive from the text of the next field: a flag, an integer, a character,
    /// the text of a floating-point number, the best reading of the text, or else the text.
    pub fn read_text(&mut self, shape: &Shape) -> (r: Result<Value, DeserializeError>)
        ensures
            final(self).record() == old(self).record(),
            final(self).layout() == old(self).layout(),
            agrees(
                r,
                read_text(old(self).record(), old(self).layout(), old(self).cursor(), *shape),
                final(self).cursor(),
            ),
    {
        let (t, s) = match self.next_text() {
            Ok(p) => p,
            Err(e) => return Err(e),
        };
        match shape {
            Shape::Bool => {
                if t.len() > 1 {
                    Err(DeserializeError::Message("expected a one-byte flag".to_owned()))
                } else {
                    Ok(Value::Bool(!(t.len() == 0 || t[0] == 48)))
                }
            },
            Shape::Int(k) => {
                let (signed, min, max) = k.bounds();
                match parse_int(t, signed, min, max) {
                    Some(v) => Ok(Value::Int(v)),
                    None => Err(DeserializeError::ParseIntError),
                }
            },
            Shape::Char => {
                if t.len() > 1 {
                    Err(DeserializeError::Message("expected a one-byte character".to_owned()))
                } else if t.len() == 0 {
                    Ok(Value::Char(' '))
                } else {
                    Ok(Value::Char(t[0] as char))
                }
            },
            Shape::Float => Ok(Value::Float(s.to_owned())),
            Shape::Any => {
                if t.len() == 1 {
                    if t[0] == 49 {
                        Ok(Value::Bool(true))
                    } else if t[0] == 48 {
                        Ok(Value::Bool(false))
                    } else {
                        Ok(Value::Char(t[0] as char))
                    }
                } else {
                    match parse_int(t, true, -0x8000_0000_0000_0000, 0x7fff_ffff_ffff_ffff) {
                        Some(v) => Ok(Value::Int(v)),
                        None => Ok(Value::Str(s.to_owned())),
                    }
                }
            },
            _ => Ok(Value::Str(s.to_owned())),
        }
    }
}


impl<'r> Deserializer<'r> {
    /// The key the next field stands under: its name, or else its range as `start..end`.
    pub fn next_key(&self) -> (r: Option<String>)
        ensures
            match r {
                Some(k) => self.cursor() < self.layout().len() && k@ == key_of(
                    self.layout()[self.cursor()],
                ),
                None => self.cursor() >= self.layout().len(),
            },
    {
        let f = match self.peek_field() {
            Some(f) => f,
            None => return None,
        };
        match f.name() {
            Some(n) => Some(n.clone()),
            None => {
                let range = f.range();
                let mut k = decimal_text(range.start as i128);
                k.push(46);
                k.push(46);
                let mut e = decimal_text(range.end as i128);
                let ghost a = k@;
                let ghost b = e@;
                k.append(&mut e);
                proof {
                    crate::text::lemma_digits(range.start as nat);
                    crate::text::lemma_digits(range.end as nat);
                    assert(k@ =~= range_key(f@));
                    assert forall|i: int| 0 <= i < k@.len() implies #[trigger] k@[i] < 128 by {
                        if i < a.len() - 2 {
                            assert(k@[i] == digits(range.start as nat)[i]);
                        } else if i >= a.len() {
                            assert(k@[i] == digits(range.end as nat)[i - a.len()]);
                        }
                    }
                    crate::text::lemma_ascii_text(k@);
                }
                match utf8_text(k.as_slice()) {
                    Some(s) => Some(s.to_owned()),
                    None => None,
                }
            },
        }
    }

    /// Reads a value of the given shape from the next fields.
    pub fn read(&mut self, shape: &Shape) -> (r: Result<Value, DeserializeError>)
        ensures
            final(self).record() == old(self).record(),
            final(self).layout() == old(self).layout(),
            agrees(
                r,
                read_spec(old(self).record(), old(self).layout(), old(self).cursor(), *shape),
                final(self).cursor(),
            ),
        decreases shape, 0int,
    {
        match shape {
            Shape::Bytes => match self.next_bytes() {
                Ok(b) => Ok(Value::Bytes(slice_to_vec(b))),
                Err(e) => Err(e),
            },
            Shape::Optional(inner) => {
                let blank = match self.peek_text() {
                    Ok((t, _)) => t.len() == 0,
                    Err(e) => return Err(e),
                };
                if blank {
                    self.skip_field();
                    Ok(Value::Absent)
                } else {
                    match self.read(inner) {
                        Ok(v) => Ok(Value::Present(Box::new(v))),
                        Err(e) => Err(e),
                    }
                }
            },
            Shape::Unit => {
                self.skip_field();
                Ok(Value::Unit)
            },
            Shape::List(inner) => self.read_list(inner),
            Shape::Tuple(shapes) => self.read_tuple(shapes),
            Shape::Keyed(inner) => self.read_keyed(inner),
            Shape::Enum(vs) => self.read_variant(vs),
            _ => self.read_text(shape),
        }
    }

    fn read_list(&mut self, elem: &Shape) -> (r: Result<Value, DeserializeError>)
        ensures
            final(self).record() == old(self).record(),
            final(self).layout() == old(self).layout(),
            agrees(
                r,
                read_list(old(self).record(), old(self).layout(), old(self).cursor(), *elem, seq![]),
                final(self).cursor(),
            ),
        decreases elem, 1int,
    {
        let ghost input = self.record();
        let ghost fields = self.layout();
        let ghost start = self.cursor();
        let mut out: Vec<Value> = Vec::new();
        while !self.done()
            invariant
                self.record() == input,
                self.layout() == fields,
                input == old(self).record(),
                fields == old(self).layout(),
                start == old(self).cursor(),
                read_list(input, fields, start, *elem, seq![]) == read_list(
                    input,
                    fields,
                    self.cursor(),
                    *elem,
                    vviews(out@),
                ),
            decreases fields.len() - self.cursor(),
        {
            let before = self.pos;
            let v = match self.read(elem) {
                Ok(v) => v,
                Err(e) => return Err(e),
            };
            if self.pos <= before {
                return Err(DeserializeError::Unsupported("a member that reads no field".to_owned()));
            }
            let ghost prev = out@;
            out.push(v);
            proof {
                lemma_vviews_push(prev, v);
                use_type_invariant(&*self);
                assert(self.layout().len() == self.fields@.len());
            }
        }
        Ok(Value::List(out))
    }

    fn read_tuple(&mut self, shapes: &Vec<Shape>) -> (r: Result<Value, DeserializeError>)
        ensures
            final(self).record() == old(self).record(),
            final(self).layout() == old(self).layout(),
            agrees(
                r,
                read_tuple(
                    old(self).record(),
                    old(self).layout(),
                    old(self).cursor(),
                    shapes@,
                    0,
                    seq![],
                ),
                final(self).cursor(),
            ),
        decreases shapes, 1int,
    {
        let ghost input = self.record();
        let ghost fields = self.layout();
        let ghost start = self.cursor();
        let mut out: Vec<Value> = Vec::new();
        let mut i: usize = 0;
        while i < shapes.len()
            invariant
                self.record() == input,
                self.layout() == fields,
                input == old(self).record(),
                fields == old(self).layout(),
                start == old(self).cursor(),
                i <= shapes@.len(),
                read_tuple(input, fields, start, shapes@, 0, seq![]) == read_tuple(
                    input,
                    fields,
                    self.cursor(),
                    shapes@,
                    i as int,
                    vviews(out@),
                ),
            decreases shapes@.len() - i,
        {
            if self.done() {
                return Err(DeserializeError::UnexpectedEndOfRecord);
            }
            proof {
                assert(decreases_to!(*shapes => shapes@));
            }
            let v = match self.read(&shapes[i]) {
                Ok(v) => v,
                Err(e) => return Err(e),
            };
            let ghost prev = out@;
            out.push(v);
            proof {
                lemma_vviews_push(prev, v);
            }
            i += 1;
        }
        Ok(Value::List(out))
    }

    fn read_keyed(&mut self, elem: &Shape) -> (r: Result<Value, DeserializeError>)
        ensures
            final(self).record() == old(self).record(),
            final(self).layout() == old(self).layout(),
            agrees(
                r,
                read_keyed(old(self).record(), old(self).layout(), old(self).cursor(), *elem, seq![]),
                final(self).cursor(),
            ),
        decreases elem, 1int,
    {
        let ghost input = self.record();
        let ghost fields = self.layout();
        let ghost start = self.cursor();
        let mut out: Vec<(String, Value)> = Vec::new();
        while !self.done()
            invariant
                self.record() == input,
                self.layout() == fields,
                input == old(self).record(),
                fields == old(self).layout(),
                start == old(self).cursor(),
                0 <= self.cursor(),
                read_keyed(input, fields, start, *elem, seq![]) == read_keyed(
                    input,
                    fields,
                    self.cursor(),
                    *elem,
                    eviews(out@),
                ),
            decreases fields.len() - self.cursor(),
        {
            let before = self.pos;
            let key = match self.next_key() {
                Some(k) => k,
                None => return Err(DeserializeError::UnexpectedEndOfRecord),
            };
            let v = match self.read(elem) {
                Ok(v) => v,
                Err(e) => return Err(e),
            };
            if self.pos <= before {
                return Err(DeserializeError::Unsupported("a value that reads no field".to_owned()));
            }
            let ghost prev = out@;
            out.push((key, v));
            proof {
                lemma_eviews_push(prev, key, v);
                use_type_invariant(&*self);
                assert(self.layout().len() == self.fields@.len());
            }
        }
        Ok(Value::Entries(out))
    }

    #[verifier::loop_isolation(false)]
    fn read_variant(&mut self, vs: &Vec<(String, bool)>) -> (r: Result<Value, DeserializeError>)
        ensures
            final(self).record() == old(self).record(),
            final(self).layout() == old(self).layout(),
            agrees(
                r,
                read_spec(
                    old(self).record(),
                    old(self).layout(),
                    old(self).cursor(),
                    Shape::Enum(*vs),
                ),
                final(self).cursor(),
            ),
    {
        let f = match self.peek_field() {
            Some(f) => f,
            None => return Err(DeserializeError::UnexpectedEndOfRecord),
        };
        let name = match f.name() {
            Some(n) => n,
            None => return Err(DeserializeError::Message("a variant needs a named field".to_owned())),
        };
        let mut i: usize = 0;
        proof {
            assert(vs@.subrange(0, vs@.len() as int) =~= vs@);
        }
        while i < vs.len()
            invariant
                i <= vs@.len(),
                variant_payload(vs@, name@) == variant_payload(vs@.subrange(i as int, vs@.len() as int), name@),
            decreases vs@.len() - i,
        {
            proof {
                let rest = vs@.subrange(i as int, vs@.len() as int);
                assert(rest.drop_first() =~= vs@.subrange(i + 1, vs@.len() as int));
            }
            proof {
                let rest = vs@.subrange(i as int, vs@.len() as int);
                assert(rest[0] == vs@[i as int]);
            }
            if vs[i].0 == *name {
                if vs[i].1 {
                    return Err(DeserializeError::Unsupported("a variant with a payload".to_owned()));
                }
                return Ok(Value::Variant(name.clone()));
            }
            i += 1;
        }
        Err(DeserializeError::Message("no variant of that name".to_owned()))
    }
}

/// Reads a value of the given shape from `bytes` through the fields of `fields`.
pub fn from_bytes_with_fields(bytes: &[u8], fields: FieldSet, shape: &Shape) -> (r: Result<
    Value,
    DeserializeError,
>)
    ensures
        gives(r, read_spec(bytes@, flat(fields.tree()), 0, *shape)),
{
    let mut de = Deserializer::new(bytes, fields);
    de.read(shape)
}

/// Reads a value of the given shape from the bytes of `s` through the fields of `fields`.
pub fn from_str_with_fields(s: &str, fields: FieldSet, shape: &Shape) -> (r: Result<
    Value,
    DeserializeError,
>)
    ensures
        gives(r, read_spec(s.spec_bytes(), flat(fields.tree()), 0, *shape)),
{
    from_bytes_with_fields(s.as_bytes(), fields, shape)
}


/// Reading a product of two members fails at the end of the record when the fields run out
/// before the second member: there is no field at all, or the first member reads without
/// error and takes up every field there is.
pub proof fn lemma_product_runs_out(input: Seq<u8>, fields: Seq<FieldView>, shapes: Vec<Shape>)
    requires
        shapes@.len() == 2,
        fields.len() == 0 || ({
            let first = read_spec(input, fields, 0, shapes@[0]);
            first is Ok && first->Ok_0.1 >= fields.len()
        }),
    ensures
        read_spec(input, fields, 0, Shape::Tuple(shapes)) == Err::<(ValueView, int), Failure>(
            Failure::EndOfRecord,
        ),
{
    let s = shapes@;
    if fields.len() > 0 {
        let (v, p) = read_spec(input, fields, 0, s[0])->Ok_0;
        assert(read_tuple(input, fields, 0, s, 0, seq![]) == read_tuple(
            input,
            fields,
            p,
            s,
            1,
            seq![v],
        ));
    }
}

} // verus!
