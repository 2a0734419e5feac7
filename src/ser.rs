use crate::field::{flat, views, FieldConfig, FieldSet, FieldView, Justify};
use crate::text::{char_utf8, decimal, decimal_text};
use crate::value::{vview, vviews, Value, ValueView};
use vstd::prelude::*;
use vstd::string::StringSliceAdditionalSpecFns;
use vstd::utf8::encode_utf8;

verus! {

/// Errors that occur while writing a record.
#[derive(Debug)]
pub enum SerializeError {
    /// A general message.
    Message(String),
    /// The value cannot be written into fixed-width fields.
    Unsupported(String),
    /// More values remain to be written than there are fields.
    UnexpectedEndOfFields,
}

/// The kinds of writing errors, as plain values.
pub enum SerFailure {
    Message,
    Unsupported,
    EndOfFields,
}

impl SerializeError {
    /// The kind of this error.
    pub open spec fn failure(self) -> SerFailure {
        match self {
            SerializeError::Message(_) => SerFailure::Message,
            SerializeError::Unsupported(_) => SerFailure::Unsupported,
            SerializeError::UnexpectedEndOfFields => SerFailure::EndOfFields,
        }
    }
}

/// The byte a pad character is written as: its low eight bits.
pub open spec fn pad_byte(c: char) -> u8 {
    (c as u32 % 256) as u8
}

/// `b` fitted to the width of field `f`: cut to the width where longer, else filled with the
/// pad byte after the content (left-justified) or before it (right-justified).
pub open spec fn padded(b: Seq<u8>, f: FieldView) -> Seq<u8> {
    let w = f.end - f.start;
    if b.len() > w {
        b.take(w)
    } else {
        let fill = Seq::new((w - b.len()) as nat, |i: int| pad_byte(f.pad_with));
        match f.justify {
            Justify::Left => b + fill,
            Justify::Right => fill + b,
        }
    }
}

/// Fits `bytes` to the width of `field` (see `padded`).
pub fn pad(bytes: &[u8], field: &FieldConfig) -> (r: Vec<u8>)
    ensures
        r@ == padded(bytes@, field@),
{
    let width = field.width();
    let p: u8 = (field.pad_with() as u32 % 256) as u8;
    let mut v: Vec<u8> = Vec::new();
    if bytes.len() > width {
        let mut i: usize = 0;
        while i < width
            invariant
                i <= width < bytes@.len(),
                v@ == bytes@.take(i as int),
            decreases width - i,
        {
            v.push(bytes[i]);
            proof {
                assert(bytes@.take(i + 1) =~= bytes@.take(i as int).push(bytes@[i as int]));
            }
            i += 1;
        }
        return v;
    }
    let n = width - bytes.len();
    let ghost fill = Seq::new(n as nat, |i: int| p);
    let mut k: usize = 0;
    if field.justify() == Justify::Right {
        while k < n
            invariant
                k <= n,
                fill == Seq::new(n as nat, |i: int| p),
                v@ == fill.take(k as int),
            decreases n - k,
        {
            v.push(p);
            proof {
                assert(fill.take(k + 1) =~= fill.take(k as int).push(p));
            }
            k += 1;
        }
    }
    let ghost before = v@;
    let mut i: usize = 0;
    while i < bytes.len()
        invariant
            i <= bytes@.len(),
            v@ == before + bytes@.take(i as int),
        decreases bytes@.len() - i,
    {
        v.push(bytes[i]);
        proof {
            assert(bytes@.take(i + 1) =~= bytes@.take(i as int).push(bytes@[i as int]));
        }
        i += 1;
    }
    if field.justify() == Justify::Left {
        let ghost mid = v@;
        while k < n
            invariant
                k <= n,
                fill == Seq::new(n as nat, |i: int| p),
                v@ == mid + fill.take(k as int),
            decreases n - k,
        {
            v.push(p);
            proof {
                assert(fill.take(k + 1) =~= fill.take(k as int).push(p));
            }
            k += 1;
        }
    }
    proof {
        assert(bytes@.take(bytes@.len() as int) =~= bytes@);
        assert(fill.take(n as int) =~= fill);
        if field@.justify == Justify::Left {
            assert(v@ =~= bytes@ + fill);
        } else {
            assert(v@ =~= fill + bytes@);
        }
    }
    v
}

/// Writing one primitive's bytes into field `pos`.
pub open spec fn write_field_spec(b: Seq<u8>, fields: Seq<FieldView>, pos: int) -> Result<
    (Seq<u8>, int),
    SerFailure,
> {
    if 0 <= pos < fields.len() {
        Ok((padded(b, fields[pos]), pos + 1))
    } else {
        Err(SerFailure::EndOfFields)
    }
}

/// The text a primitive value is written as, where `v` is a primitive.
pub open spec fn text_of(v: ValueView) -> Seq<u8> {
    match v {
        ValueView::Bool(b) => if b {
            seq![49u8]
        } else {
            seq![48u8]
        },
        ValueView::Int(i) => decimal(i),
        ValueView::Float(t) => encode_utf8(t),
        ValueView::Char(c) => encode_utf8(seq![c]),
        ValueView::Str(s) => encode_utf8(s),
        ValueView::Bytes(b) => b,
        ValueView::Variant(n) => encode_utf8(n),
        _ => seq![],
    }
}

/// What writing `v` from field `pos` on gives: the bytes and the position of the next field,
/// or the kind of error.
pub open spec fn write_spec(v: ValueView, fields: Seq<FieldView>, pos: int) -> Result<
    (Seq<u8>, int),
    SerFailure,
>
    decreases v, 0int,
{
    match v {
        ValueView::Present(x) => write_spec(*x, fields, pos),
        ValueView::List(xs) => write_list(xs, 0, fields, pos, seq![]),
        ValueView::Entries(_) => Err(SerFailure::Unsupported),
        ValueView::Tagged(n, x) => match write_field_spec(encode_utf8(n), fields, pos) {
            Ok((b, p)) => match write_spec(*x, fields, p) {
                Ok((c, q)) => Ok((b + c, q)),
                Err(e) => Err(e),
            },
            Err(e) => Err(e),
        },
        _ => write_field_spec(text_of(v), fields, pos),
    }
}

/// Members `xs[i..]` written one after the other from field `pos` on, after `acc`.
pub open spec fn write_list(
    xs: Seq<ValueView>,
    i: int,
    fields: Seq<FieldView>,
    pos: int,
    acc: Seq<u8>,
) -> Result<(Seq<u8>, int), SerFailure>
    decreases xs,
        if 0 <= i < xs.len() {
            xs.len() - i
        } else {
            0
        },
{
    if i < 0 || i >= xs.len() {
        Ok((acc, pos))
    } else {
        match write_spec(xs[i], fields, pos) {
            Ok((b, p)) => write_list(xs, i + 1, fields, p, acc + b),
            Err(e) => Err(e),
        }
    }
}

proof fn lemma_vviews_index(s: Seq<Value>)
    ensures
        vviews(s).len() == s.len(),
        forall|i: int| 0 <= i < s.len() ==> #[trigger] vviews(s)[i] == vview(s[i]),
    decreases s.len(),
{
    if s.len() > 0 {
        lemma_vviews_index(s.drop_last());
        assert forall|i: int| 0 <= i < s.len() implies #[trigger] vviews(s)[i] == vview(s[i]) by {
            if i < s.len() - 1 {
                assert(s.drop_last()[i] == s[i]);
            }
        }
    }
}

/// Writes structured values into one record, field after field.
pub struct Serializer {
    fields: Vec<FieldConfig>,
    pos: usize,
    out: Vec<u8>,
}

impl Serializer {
    /// The bytes written so far.
    pub closed spec fn written(&self) -> Seq<u8> {
        self.out@
    }

    /// The fields, in writing order.
    pub closed spec fn layout(&self) -> Seq<FieldView> {
        views(self.fields@)
    }

    /// The position of the next field to write.
    pub closed spec fn cursor(&self) -> int {
        self.pos as int
    }

    /// A writer through the fields of `fields`, in depth-first order, with nothing written.
    pub fn new(fields: FieldSet) -> (r: Serializer)
        ensures
            r.written() == Seq::<u8>::empty(),
            r.layout() == flat(fields.tree()),
            r.cursor() == 0,
    {
        Serializer { fields: fields.flatten(), pos: 0, out: Vec::new() }
    }

    /// The next field, which is used up.
    pub fn next_field(&mut self) -> (r: Result<FieldConfig, SerializeError>)
        ensures
            final(self).written() == old(self).written(),
            final(self).layout() == old(self).layout(),
            match r {
                Ok(f) => old(self).cursor() < old(self).layout().len() && f@ == old(
                    self,
                ).layout()[old(self).cursor()] && final(self).cursor() == old(self).cursor() + 1,
                Err(e) => e is UnexpectedEndOfFields && old(self).cursor() >= old(
                    self,
                ).layout().len() && final(self).cursor() == old(self).cursor(),
            },
    {
        if self.pos < self.fields.len() {
            let f = self.fields[self.pos].clone();
            self.pos = self.pos + 1;
            Ok(f)
        } else {
            Err(SerializeError::UnexpectedEndOfFields)
        }
    }

    /// Appends `bytes` as they stand.
    pub fn write_bytes(&mut self, bytes: &[u8])
        ensures
            final(self).written() == old(self).written() + bytes@,
            final(self).layout() == old(self).layout(),
            final(self).cursor() == old(self).cursor(),
    {
        let mut i: usize = 0;
        while i < bytes.len()
            invariant
                i <= bytes@.len(),
                self.written() == old(self).written() + bytes@.take(i as int),
                self.layout() == old(self).layout(),
                self.cursor() == old(self).cursor(),
            decreases bytes@.len() - i,
        {
            self.out.push(bytes[i]);
            proof {
                assert(bytes@.take(i + 1) =~= bytes@.take(i as int).push(bytes@[i as int]));
            }
            i += 1;
        }
        proof {
            assert(bytes@.take(bytes@.len() as int) =~= bytes@);
        }
    }

    /// Writes `bytes` into the next field, fitted to its width.
    pub fn write_field(&mut self, bytes: &[u8]) -> (r: Result<(), SerializeError>)
        ensures
            final(self).layout() == old(self).layout(),
            match write_field_spec(bytes@, old(self).layout(), old(self).cursor()) {
                Ok((b, p)) => r is Ok && final(self).written() == old(self).written() + b
                    && final(self).cursor() == p,
                Err(f) => r is Err && r->Err_0.failure() == f && final(self).written() == old(
                    self,
                ).written(),
            },
    {
        let f = match self.next_field() {
            Ok(f) => f,
            Err(e) => return Err(e),
        };
        let b = pad(bytes, &f);
        self.write_bytes(b.as_slice());
        Ok(())
    }

    /// The bytes written so far.
    pub fn output(&self) -> (r: &[u8])
        ensures
            r@ == self.written(),
    {
        self.out.as_slice()
    }

    /// The bytes written.
    pub fn into_bytes(self) -> (r: Vec<u8>)
        ensures
            r@ == self.written(),
    {
        self.out
    }

    /// Writes `v` into the next fields: each primitive as its text fitted to one field, the
    /// members of a list one after the other, a variant with a payload as its name and then
    /// the payload. Keyed entries cannot be written: their order is not the fields' order.
    #[verifier::loop_isolation(false)]
    pub fn write(&mut self, v: &Value) -> (r: Result<(), SerializeError>)
        ensures
            final(self).layout() == old(self).layout(),
            match write_spec(v@, old(self).layout(), old(self).cursor()) {
                Ok((b, p)) => r is Ok && final(self).written() == old(self).written() + b
                    && final(self).cursor() == p,
                Err(f) => r is Err && r->Err_0.failure() == f,
            },
        decreases v,
    {
        match v {
            Value::Bool(b) => {
                let t: Vec<u8> = if *b {
                    vec![49u8]
                } else {
                    vec![48u8]
                };
                proof {
                    assert(t@ =~= text_of(v@));
                }
                self.write_field(t.as_slice())
            },
            Value::Int(i) => {
                let t = decimal_text(*i);
                self.write_field(t.as_slice())
            },
            Value::Float(s) | Value::Str(s) | Value::Variant(s) => self.write_field(
                s.as_str().as_bytes(),
            ),
            Value::Char(c) => {
                let t = char_utf8(*c);
                self.write_field(t.as_slice())
            },
            Value::Bytes(b) => self.write_field(b.as_slice()),
            Value::Absent | Value::Unit => {
                let t: Vec<u8> = Vec::new();
                proof {
                    assert(t@ =~= text_of(v@));
                }
                self.write_field(t.as_slice())
            },
            Value::Present(x) => self.write(x),
            Value::List(xs) => {
                let ghost start = self.written();
                let ghost pos0 = self.cursor();
                let ghost xv = vviews(xs@);
                proof {
                    lemma_vviews_index(xs@);
                    assert(self.written().subrange(start.len() as int, start.len() as int)
                        =~= Seq::<u8>::empty());
                    assert(self.written().subrange(0, start.len() as int) =~= start);
                }
                let mut i: usize = 0;
                while i < xs.len()
                    invariant
                        i <= xs@.len(),
                        self.layout() == old(self).layout(),
                        start == old(self).written(),
                        pos0 == old(self).cursor(),
                        start.len() <= self.written().len(),
                        write_list(xv, 0, self.layout(), pos0, seq![]) == write_list(
                            xv,
                            i as int,
                            self.layout(),
                            self.cursor(),
                            self.written().subrange(start.len() as int, self.written().len() as int),
                        ),
                        self.written().subrange(0, start.len() as int) == start,
                    decreases xs@.len() - i,
                {
                    let ghost w0 = self.written();
                    let ghost acc = w0.subrange(start.len() as int, w0.len() as int);
                    let ghost c0 = self.cursor();
                    proof {
                        assert(xv[i as int] == xs@[i as int]@);
                    }
                    match self.write(&xs[i]) {
                        Ok(()) => {},
                        Err(e) => return Err(e),
                    }
                    proof {
                        let (bs, p) = write_spec(xv[i as int], self.layout(), c0)->Ok_0;
                        assert(self.cursor() == p);
                        assert(self.written() == w0 + bs);
                        assert(write_list(xv, i as int, self.layout(), c0, acc) == write_list(
                            xv,
                            i + 1,
                            self.layout(),
                            p,
                            acc + bs,
                        ));
                        let w1 = self.written();
                        let b = w1.subrange(w0.len() as int, w1.len() as int);
                        assert(w1 =~= w0 + b);
                        assert(b =~= bs);
                        assert(w1.subrange(start.len() as int, w1.len() as int) =~= acc + b);
                        assert(w1.subrange(0, start.len() as int) =~= start);
                    }
                    i += 1;
                }
                proof {
                    assert(self.written() =~= start + self.written().subrange(
                        start.len() as int,
                        self.written().len() as int,
                    ));
                    assert(start.subrange(start.len() as int, start.len() as int) =~= Seq::<u8>::empty());
                }
                Ok(())
            },
            Value::Entries(_) => Err(
                SerializeError::Unsupported("keyed entries have no field order".to_owned()),
            ),
            Value::Tagged(n, x) => {
                match self.write_field(n.as_str().as_bytes()) {
                    Ok(()) => {},
                    Err(e) => return Err(e),
                }
                self.write(x)
            },
        }
    }
}

/// The bytes of `v` written through the fields of `fields`; all of them, or an error.
pub fn to_bytes_with_fields(v: &Value, fields: FieldSet) -> (r: Result<Vec<u8>, SerializeError>)
    ensures
        match write_spec(v@, flat(fields.tree()), 0) {
            Ok((b, _)) => r is Ok && r->Ok_0@ == b,
            Err(f) => r is Err && r->Err_0.failure() == f,
        },
{
    let mut ser = Serializer::new(fields);
    match ser.write(v) {
        Ok(()) => Ok(ser.into_bytes()),
        Err(e) => Err(e),
    }
}

} // verus!
