use vstd::prelude::*;

verus! {

/// The fixed-size integer types a field can be read as.
#[derive(Debug, Clone, Copy, PartialEq, Eq, Structural)]
pub enum IntKind {
    I8,
    I16,
    I32,
    I64,
    U8,
    U16,
    U32,
    U64,
}

impl IntKind {
    /// A leading minus sign is allowed.
    pub open spec fn signed(self) -> bool {
        match self {
            IntKind::I8 | IntKind::I16 | IntKind::I32 | IntKind::I64 => true,
            _ => false,
        }
    }

    /// The least value of the type.
    pub open spec fn min(self) -> int {
        match self {
            IntKind::I8 => -0x80,
            IntKind::I16 => -0x8000,
            IntKind::I32 => -0x8000_0000,
            IntKind::I64 => -0x8000_0000_0000_0000,
            _ => 0,
        }
    }

    /// The greatest value of the type.
    pub open spec fn max(self) -> int {
        match self {
            IntKind::I8 => 0x7f,
            IntKind::I16 => 0x7fff,
            IntKind::I32 => 0x7fff_ffff,
            IntKind::I64 => 0x7fff_ffff_ffff_ffff,
            IntKind::U8 => 0xff,
            IntKind::U16 => 0xffff,
            IntKind::U32 => 0xffff_ffff,
            IntKind::U64 => 0xffff_ffff_ffff_ffff,
        }
    }

    /// Whether the type is signed, and its least and greatest values.
    pub fn bounds(self) -> (r: (bool, i128, i128))
        ensures
            r.0 == self.signed(),
            r.1 == self.min(),
            r.2 == self.max(),
    {
        match self {
            IntKind::I8 => (true, -0x80, 0x7f),
            IntKind::I16 => (true, -0x8000, 0x7fff),
            IntKind::I32 => (true, -0x8000_0000, 0x7fff_ffff),
            IntKind::I64 => (true, -0x8000_0000_0000_0000, 0x7fff_ffff_ffff_ffff),
            IntKind::U8 => (false, 0, 0xff),
            IntKind::U16 => (false, 0, 0xffff),
            IntKind::U32 => (false, 0, 0xffff_ffff),
            IntKind::U64 => (false, 0, 0xffff_ffff_ffff_ffff),
        }
    }
}

/// The shape a record, or a part of it, is read as. Each primitive reads one field; the
/// composite shapes read runs of fields.
#[derive(Debug)]
pub enum Shape {
    /// One field: blank or `0` is false, any other single character true.
    Bool,
    /// One field holding a decimal integer of the given type.
    Int(IntKind),
    /// One field holding the text of a floating-point number, handed back as text.
    Float,
    /// One field holding at most one character; blank reads as a space.
    Char,
    /// One field's text, with surrounding whitespace removed.
    Str,
    /// One field's bytes, as they stand.
    Bytes,
    /// Absent where the next field is blank, else the inner shape.
    Optional(Box<Shape>),
    /// One field, skipped.
    Unit,
    /// The inner shape repeated until the fields run out.
    List(Box<Shape>),
    /// A product of fixed arity (a tuple, a struct), one member after the other.
    Tuple(Vec<Shape>),
    /// Entries keyed by field name, each value of the inner shape, until the fields run out.
    Keyed(Box<Shape>),
    /// A choice among variants, selected by the next field's name, which is left in place
    /// for what follows; each variant is given with whether it carries a payload, and one
    /// that does cannot be read.
    Enum(Vec<(String, bool)>),
    /// Whatever the next field's text reads as best: a flag, a character, an integer or text.
    Any,
}

/// A structured value, as read from a record or to be written into one.
#[derive(Debug)]
pub enum Value {
    Bool(bool),
    Int(i128),
    /// A floating-point number, as its text.
    Float(String),
    Char(char),
    Str(String),
    Bytes(Vec<u8>),
    /// An optional value that is not there.
    Absent,
    /// An optional value that is there.
    Present(Box<Value>),
    Unit,
    /// The members of a sequence, tuple or struct, in order.
    List(Vec<Value>),
    /// Keyed entries, in field order.
    Entries(Vec<(String, Value)>),
    /// A variant without payload.
    Variant(String),
    /// A variant with a payload.
    Tagged(String, Box<Value>),
}

/// A structured value as plain mathematical values.
pub enum ValueView {
    Bool(bool),
    Int(int),
    Float(Seq<char>),
    Char(char),
    Str(Seq<char>),
    Bytes(Seq<u8>),
    Absent,
    Present(Box<ValueView>),
    Unit,
    List(Seq<ValueView>),
    Entries(Seq<(Seq<char>, ValueView)>),
    Variant(Seq<char>),
    Tagged(Seq<char>, Box<ValueView>),
}

/// The plain view of a value.
pub open spec fn vview(v: Value) -> ValueView
    decreases v,
{
    match v {
        Value::Bool(b) => ValueView::Bool(b),
        Value::Int(i) => ValueView::Int(i as int),
        Value::Float(s) => ValueView::Float(s@),
        Value::Char(c) => ValueView::Char(c),
        Value::Str(s) => ValueView::Str(s@),
        Value::Bytes(b) => ValueView::Bytes(b@),
        Value::Absent => ValueView::Absent,
        Value::Present(x) => ValueView::Present(Box::new(vview(*x))),
        Value::Unit => ValueView::Unit,
        Value::List(xs) => ValueView::List(vviews(xs@)),
        Value::Entries(es) => ValueView::Entries(eviews(es@)),
        Value::Variant(n) => ValueView::Variant(n@),
        Value::Tagged(n, x) => ValueView::Tagged(n@, Box::new(vview(*x))),
    }
}

/// The plain views of a list of values.
pub open spec fn vviews(s: Seq<Value>) -> Seq<ValueView>
    decreases s,
{
    if s.len() == 0 {
        seq![]
    } else {
        vviews(s.drop_last()).push(vview(s.last()))
    }
}

/// The plain views of a list of keyed entries.
pub open spec fn eviews(s: Seq<(String, Value)>) -> Seq<(Seq<char>, ValueView)>
    decreases s,
{
    if s.len() == 0 {
        seq![]
    } else {
        eviews(s.drop_last()).push((s.last().0@, vview(s.last().1)))
    }
}

impl View for Value {
    type V = ValueView;

    open spec fn view(&self) -> ValueView {
        vview(*self)
    }
}

pub proof fn lemma_vviews_push(s: Seq<Value>, x: Value)
    ensures
        vviews(s.push(x)) == vviews(s).push(vview(x)),
{
    assert(s.push(x).drop_last() =~= s);
}

pub proof fn lemma_eviews_push(s: Seq<(String, Value)>, k: String, x: Value)
    ensures
        eviews(s.push((k, x))) == eviews(s).push((k@, vview(x))),
{
    assert(s.push((k, x)).drop_last() =~= s);
}

} // verus!
