use crate::text::utf8_text;
use vstd::prelude::*;
use vstd::string::StringSliceAdditionalSpecFns;
use vstd::utf8::{decode_utf8, encode_utf8, valid_utf8};

verus! {

/// The bytes that separate records.
#[derive(Debug, Clone, Copy, PartialEq, Eq, Structural)]
pub enum LineBreak {
    /// Records follow each other directly.
    NoBreak,
    /// `\n`
    Newline,
    /// `\r\n`
    CRLF,
}

impl LineBreak {
    /// The number of bytes of the separator.
    pub open spec fn width(self) -> nat {
        match self {
            LineBreak::NoBreak => 0,
            LineBreak::Newline => 1,
            LineBreak::CRLF => 2,
        }
    }

    /// The bytes of the separator.
    pub open spec fn bytes(self) -> Seq<u8> {
        match self {
            LineBreak::NoBreak => seq![],
            LineBreak::Newline => seq![10u8],
            LineBreak::CRLF => seq![13u8, 10u8],
        }
    }

    /// The width in bytes of the separator.
    pub fn byte_width(&self) -> (r: usize)
        ensures
            r == self.width(),
    {
        match self {
            LineBreak::NoBreak => 0,
            LineBreak::Newline => 1,
            LineBreak::CRLF => 2,
        }
    }
}

/// How one step of reading moves a reader from `before` to `after`, handing out `r`.
pub open spec fn advanced(before: Reader, after: Reader, r: Option<Seq<u8>>) -> bool {
    let rest = before.rest();
    let w = before.record_len() as int;
    let k = before.separator().width() as int;
    &&& after.record_len() == before.record_len()
    &&& after.separator() == before.separator()
    &&& if before.ended() || w == 0 {
        r is None && after.rest() == rest && after.ended() == before.ended()
    } else if rest.len() < w {
        r is None && after.ended()
    } else {
        r == Some(rest.take(w)) && if rest.len() - w < k {
            after.ended()
        } else {
            !after.ended() && after.rest() == rest.skip(w + k)
        }
    }
}

/// Splits in-memory data into records of a fixed width, skipping a separator after each.
pub struct Reader {
    data: Vec<u8>,
    pos: usize,
    eof: bool,
    /// The width in bytes of a record, without its separator.
    pub record_width: usize,
    /// The separator that follows each record.
    pub linebreak: LineBreak,
}

impl Reader {
    /// The data not read yet.
    pub closed spec fn rest(&self) -> Seq<u8> {
        self.data@.subrange(self.pos as int, self.data@.len() as int)
    }

    /// The width in bytes of a record.
    pub closed spec fn record_len(&self) -> usize {
        self.record_width
    }

    /// The separator after each record.
    pub closed spec fn separator(&self) -> LineBreak {
        self.linebreak
    }

    /// Reading has come to an end.
    pub closed spec fn ended(&self) -> bool {
        self.eof
    }

    #[verifier::type_invariant]
    spec fn position_in_range(&self) -> bool {
        self.pos <= self.data@.len()
    }

    /// A reader of `bytes`, with a record width of zero and no separator.
    pub fn from_bytes(bytes: &[u8]) -> (r: Reader)
        ensures
            r.rest() == bytes@,
            !r.ended(),
            r.record_len() == 0,
            r.separator() == LineBreak::NoBreak,
    {
        let data = vstd::slice::slice_to_vec(bytes);
        let r = Reader { data, pos: 0, eof: false, record_width: 0, linebreak: LineBreak::NoBreak };
        proof {
            assert(r.rest() =~= bytes@);
        }
        r
    }

    /// A reader of the bytes of `s`, with a record width of zero and no separator.
    pub fn from_string(s: &str) -> (r: Reader)
        ensures
            r.rest() == s.spec_bytes(),
            !r.ended(),
            r.record_len() == 0,
            r.separator() == LineBreak::NoBreak,
    {
        Reader::from_bytes(s.as_bytes())
    }

    /// The same reader with records of `width` bytes.
    pub fn width(self, width: usize) -> (r: Reader)
        ensures
            r.rest() == self.rest(),
            r.ended() == self.ended(),
            r.record_len() == width,
            r.separator() == self.separator(),
    {
        proof {
            use_type_invariant(&self);
        }
        Reader { record_width: width, ..self }
    }

    /// The same reader with `linebreak` after each record.
    pub fn linebreak(self, linebreak: LineBreak) -> (r: Reader)
        ensures
            r.rest() == self.rest(),
            r.ended() == self.ended(),
            r.record_len() == self.record_len(),
            r.separator() == linebreak,
    {
        proof {
            use_type_invariant(&self);
        }
        Reader { linebreak, ..self }
    }

    /// Records are followed by a separator.
    pub fn has_linebreak(&self) -> (r: bool)
        ensures
            r == (self.separator().width() > 0),
    {
        match self.linebreak {
            LineBreak::NoBreak => false,
            _ => true,
        }
    }

    /// The next record. Reading ends at the first record that is not whole, and after a
    /// record whose separator is cut short; a width of zero gives no record.
    pub fn next_record(&mut self) -> (r: Option<Vec<u8>>)
        ensures
            advanced(
                *old(self),
                *final(self),
                match r {
                    Some(v) => Some(v@),
                    None => None,
                },
            ),
    {
        proof {
            use_type_invariant(&*self);
        }
        if self.eof || self.record_width == 0 {
            return None;
        }
        let left = self.data.len() - self.pos;
        if left < self.record_width {
            self.eof = true;
            self.pos = self.data.len();
            return None;
        }
        let end = self.pos + self.record_width;
        let record = vstd::slice::slice_to_vec(
            vstd::slice::slice_subrange(self.data.as_slice(), self.pos, end),
        );
        let k = self.linebreak.byte_width();
        if self.data.len() - end < k {
            self.eof = true;
            self.pos = self.data.len();
        } else {
            self.pos = end + k;
        }
        proof {
            let rest = old(self).rest();
            assert(record@ =~= rest.take(self.record_width as int));
            if !self.eof {
                assert(self.rest() =~= rest.skip(self.record_width + k));
            }
        }
        Some(record)
    }

    /// The records, as bytes, one at a time.
    pub fn byte_reader(&mut self) -> (r: ByteReader<'_>)
        ensures
            r.reader() == *old(self),
    {
        ByteReader { r: self }
    }

    /// The records, as text, one at a time.
    pub fn string_reader(&mut self) -> (r: StringReader<'_>)
        ensures
            r.reader() == *old(self),
    {
        StringReader { r: self }
    }
}

} // verus!
verus! {

/// Hands out the records of a reader as bytes, one at a time.
pub struct ByteReader<'a> {
    r: &'a mut Reader,
}

impl<'a> ByteReader<'a> {
    /// The reader handing out the records.
    pub closed spec fn reader(&self) -> Reader {
        *self.r
    }

    /// The next record.
    pub fn next(&mut self) -> (r: Option<Vec<u8>>)
        ensures
            advanced(
                old(self).reader(),
                final(self).reader(),
                match r {
                    Some(v) => Some(v@),
                    None => None,
                },
            ),
    {
        self.r.next_record()
    }
}

/// Hands out the records of a reader as text, one at a time.
pub struct StringReader<'a> {
    r: &'a mut Reader,
}

/// The text that UTF-8 decoding with replacement gives for `b`.
pub uninterp spec fn lossy_text(b: Seq<u8>) -> Seq<char>;

/// Relies on `String::from_utf8_lossy`: valid UTF-8 is decoded as it stands, and each
/// invalid sequence becomes a replacement character.
#[verifier::external_body]
fn lossy(b: &[u8]) -> (r: String)
    ensures
        r@ == lossy_text(b@),
        valid_utf8(b@) ==> r@ == decode_utf8(b@),
{
    String::from_utf8_lossy(b).into_owned()
}

impl<'a> StringReader<'a> {
    /// The reader handing out the records.
    pub closed spec fn reader(&self) -> Reader {
        *self.r
    }

    /// The next record, as text; bytes that are not valid UTF-8 are replaced.
    pub fn next(&mut self) -> (r: Option<String>)
        ensures
            exists|b: Option<Seq<u8>>|
                {
                    &&& advanced(old(self).reader(), final(self).reader(), b)
                    &&& match (b, r) {
                        (Some(b), Some(s)) => s@ == lossy_text(b),
                        (None, None) => true,
                        _ => false,
                    }
                },
    {
        match self.r.next_record() {
            Some(b) => Some(lossy(b.as_slice())),
            None => None,
        }
    }
}

/// The bytes that can be written as a record.
pub trait AsByteSlice {
    /// The bytes, as plain values.
    spec fn byte_view(&self) -> Seq<u8>;

    /// Borrows the bytes.
    fn as_byte_slice(&self) -> (r: &[u8])
        ensures
            r@ == self.byte_view(),
    ;
}

impl AsByteSlice for String {
    open spec fn byte_view(&self) -> Seq<u8> {
        encode_utf8(self@)
    }

    fn as_byte_slice(&self) -> (r: &[u8]) {
        self.as_str().as_bytes()
    }
}

impl AsByteSlice for Vec<u8> {
    open spec fn byte_view(&self) -> Seq<u8> {
        self@
    }

    fn as_byte_slice(&self) -> (r: &[u8]) {
        self.as_slice()
    }
}

/// Records joined, with `sep` between each two.
pub open spec fn joined(records: Seq<Seq<u8>>, sep: Seq<u8>) -> Seq<u8>
    decreases records.len(),
{
    if records.len() == 0 {
        seq![]
    } else if records.len() == 1 {
        records[0]
    } else {
        joined(records.drop_last(), sep) + sep + records.last()
    }
}

/// Collects records in memory, with a separator between each two.
pub struct Writer {
    buf: Vec<u8>,
    linebreak: LineBreak,
}

impl Writer {
    /// The bytes written so far.
    pub closed spec fn written(&self) -> Seq<u8> {
        self.buf@
    }

    /// The separator between records.
    pub closed spec fn separator(&self) -> LineBreak {
        self.linebreak
    }

    /// An empty writer without separator.
    pub fn from_memory() -> (r: Writer)
        ensures
            r.written() == Seq::<u8>::empty(),
            r.separator() == LineBreak::NoBreak,
    {
        Writer { buf: Vec::new(), linebreak: LineBreak::NoBreak }
    }

    /// The same writer with `linebreak` between records.
    pub fn linebreak(self, linebreak: LineBreak) -> (r: Writer)
        ensures
            r.written() == self.written(),
            r.separator() == linebreak,
    {
        Writer { linebreak, ..self }
    }

    /// Appends `bytes` as they stand, and gives their number.
    pub fn write(&mut self, bytes: &[u8]) -> (r: usize)
        ensures
            final(self).written() == old(self).written() + bytes@,
            final(self).separator() == old(self).separator(),
            r == bytes@.len(),
    {
        let mut i: usize = 0;
        while i < bytes.len()
            invariant
                i <= bytes@.len(),
                self.written() == old(self).written() + bytes@.take(i as int),
                self.separator() == old(self).separator(),
            decreases bytes@.len() - i,
        {
            self.buf.push(bytes[i]);
            proof {
                assert(bytes@.take(i + 1) =~= bytes@.take(i as int).push(bytes@[i as int]));
            }
            i += 1;
        }
        proof {
            assert(bytes@.take(bytes@.len() as int) =~= bytes@);
        }
        bytes.len()
    }

    /// Appends the separator.
    pub fn write_linebreak(&mut self)
        ensures
            final(self).written() == old(self).written() + old(self).separator().bytes(),
            final(self).separator() == old(self).separator(),
    {
        match self.linebreak {
            LineBreak::Newline => {
                let nl: Vec<u8> = vec![10u8];
                self.write(nl.as_slice());
                proof {
                    assert(nl@ =~= LineBreak::Newline.bytes());
                }
            },
            LineBreak::CRLF => {
                let crlf: Vec<u8> = vec![13u8, 10u8];
                self.write(crlf.as_slice());
                proof {
                    assert(crlf@ =~= LineBreak::CRLF.bytes());
                }
            },
            LineBreak::NoBreak => {
                assert(self.written() =~= self.written() + LineBreak::NoBreak.bytes());
            },
        }
    }

    /// Appends the records, with the separator between each two.
    pub fn write_iter<T: AsByteSlice>(&mut self, records: &[T]) -> (r: ())
        ensures
            final(self).written() == old(self).written() + joined(
                records@.map_values(|t: T| t.byte_view()),
                old(self).separator().bytes(),
            ),
            final(self).separator() == old(self).separator(),
    {
        let ghost views = records@.map_values(|t: T| t.byte_view());
        let ghost sep = self.separator().bytes();
        let mut i: usize = 0;
        proof {
            assert(views.take(0) =~= Seq::<Seq<u8>>::empty());
            assert(old(self).written() + joined(views.take(0), sep) =~= old(self).written());
        }
        while i < records.len()
            invariant
                i <= records@.len(),
                views == records@.map_values(|t: T| t.byte_view()),
                sep == old(self).separator().bytes(),
                self.separator() == old(self).separator(),
                self.written() == old(self).written() + joined(views.take(i as int), sep),
            decreases records@.len() - i,
        {
            let ghost before = self.written();
            if i > 0 {
                self.write_linebreak();
            }
            let b = records[i].as_byte_slice();
            self.write(b);
            proof {
                let t = views.take(i + 1);
                assert(t.drop_last() =~= views.take(i as int));
                assert(t.last() == b@);
                if i == 0 {
                    assert(joined(views.take(0), sep) =~= Seq::<u8>::empty());
                    assert(self.written() =~= old(self).written() + joined(t, sep));
                } else {
                    assert(self.written() =~= old(self).written() + joined(t, sep));
                }
            }
            i += 1;
        }
        proof {
            assert(views.take(records@.len() as int) =~= views);
        }
    }

    /// The bytes written.
    pub fn into_bytes(self) -> (r: Vec<u8>)
        ensures
            r@ == self.written(),
    {
        self.buf
    }

    /// The bytes written, as text, where they are valid UTF-8.
    pub fn into_string(self) -> (r: Option<String>)
        ensures
            r is Some <==> valid_utf8(self.written()),
            r is Some ==> r->0@ == decode_utf8(self.written()),
    {
        match utf8_text(self.buf.as_slice()) {
            Some(s) => Some(s.to_owned()),
            None => None,
        }
    }
}

} // verus!
