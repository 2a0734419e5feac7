use crate::de::{read_spec, read_tuple, text_at, Failure};
use crate::field::FieldView;
use crate::ser::{pad_byte, padded, text_of, write_list, write_spec, SerFailure};
use crate::text::{decimal, is_space, lemma_ascii_text, lemma_decimal_reads, trim, trim_end, trim_start};
use crate::value::{Shape, ValueView};
use vstd::prelude::*;
use vstd::utf8::*;

verus! {

/// The fields lie one after the other from byte 0, and each pads with whitespace.
pub open spec fn back_to_back(fields: Seq<FieldView>) -> bool {
    &&& forall|i: int|
        0 <= i < fields.len() ==> (#[trigger] fields[i]).start <= fields[i].end && is_space(
            pad_byte(fields[i].pad_with),
        )
    &&& fields.len() > 0 ==> fields[0].start == 0
    &&& forall|i: int| 0 < i < fields.len() ==> (#[trigger] fields[i]).start == fields[i - 1].end
}

/// A character that is ASCII whitespace.
pub open spec fn is_space_char(c: char) -> bool {
    c as u32 == 32 || (9 <= c as u32 && c as u32 <= 13)
}

/// Text with no whitespace at either end.
pub open spec fn plain_text(t: Seq<char>) -> bool {
    t.len() > 0 ==> !is_space_char(t[0]) && !is_space_char(t.last())
}

/// `v` is a scalar of shape `s` whose text fits in `width` bytes (an optional one present
/// with a non-empty text, or absent).
pub open spec fn scalar_fits(v: ValueView, s: Shape, width: int) -> bool {
    match s {
        Shape::Optional(inner) => v is Absent || (v is Present && plain_fits(*v->Present_0, *inner, width)
            && text_of(*v->Present_0).len() > 0),
        _ => plain_fits(v, s, width),
    }
}

/// `v` is a flag, an integer of the kind asked for, an ASCII character that is not
/// whitespace, plain text, the plain text of a floating-point number, or a unit, and its
/// text fits in `width` bytes.
pub open spec fn plain_fits(v: ValueView, s: Shape, width: int) -> bool {
    match s {
        Shape::Bool => v is Bool && width >= 1,
        Shape::Int(k) => v is Int && k.min() <= v->Int_0 <= k.max() && decimal(v->Int_0).len() <= width,
        Shape::Char => v is Char && (v->Char_0 as u32) < 128 && !is_space(v->Char_0 as u32 as u8)
            && width >= 1,
        Shape::Str => v is Str && plain_text(v->Str_0) && encode_utf8(v->Str_0).len() <= width,
        Shape::Float => v is Float && plain_text(v->Float_0) && encode_utf8(v->Float_0).len()
            <= width,
        Shape::Unit => v is Unit && width >= 0,
        _ => false,
    }
}

/// The text a scalar is written as; an optional one is written as its value.
pub open spec fn scalar_text(v: ValueView) -> Seq<u8> {
    match v {
        ValueView::Present(x) => text_of(*x),
        _ => text_of(v),
    }
}

/// The bytes of the first `n` scalars, each in its field.
pub open spec fn record_of(values: Seq<ValueView>, fields: Seq<FieldView>, n: int) -> Seq<u8>
    decreases n,
{
    if n <= 0 {
        seq![]
    } else {
        record_of(values, fields, n - 1) + padded(scalar_text(values[n - 1]), fields[n - 1])
    }
}

/// Valid UTF-8, with no whitespace at either end.
spec fn clean(t: Seq<u8>) -> bool {
    &&& valid_utf8(t)
    &&& t.len() > 0 ==> !is_space(t[0]) && !is_space(t.last())
}

proof fn lemma_ascii_chars_bytes(t: Seq<char>)
    requires
        is_ascii_chars(t),
    ensures
        encode_utf8(t) == t.map_values(|c: char| c as u8),
        decode_utf8(encode_utf8(t)) == t,
        forall|i: int| 0 <= i < t.len() ==> #[trigger] encode_utf8(t)[i] == t[i] as u8,
{
    is_ascii_chars_encode_utf8(t);
    assert(encode_utf8(t) =~= t.map_values(|c: char| c as u8));
    encode_utf8_decode_utf8(t);
}

/// The first and the last byte of a character's encoding are whitespace only where the
/// character is.
proof fn lemma_scalar_edges(c: char)
    ensures
        encode_scalar(c as u32).len() >= 1,
        !is_space_char(c) ==> !is_space(encode_scalar(c as u32)[0]) && !is_space(
            encode_scalar(c as u32).last(),
        ),
{
    let u = c as u32;
    char_is_scalar(c);
    if has_width_1_encoding(u) {
        assert((u & 0x7F) == u) by (bit_vector)
            requires
                u <= 0x7F,
        ;
    } else {
        let x1: u8 = ((u >> 6) & 0x1F) as u8;
        let x2: u8 = ((u >> 12) & 0x0F) as u8;
        let x3: u8 = ((u >> 18) & 0x7) as u8;
        let y: u8 = (u & 0x3F) as u8;
        assert(0xC0 | x1 >= 0xC0) by (bit_vector);
        assert(0xE0 | x2 >= 0xE0) by (bit_vector);
        assert(0xF0 | x3 >= 0xF0) by (bit_vector);
        assert(0x80 | y >= 0x80) by (bit_vector);
    }
}

proof fn lemma_encode_push(a: Seq<char>, c: char)
    ensures
        encode_utf8(a.push(c)) == encode_utf8(a) + encode_scalar(c as u32),
    decreases a.len(),
{
    if a.len() == 0 {
        assert(a.push(c) =~= seq![c]);
        assert(seq![c].drop_first() =~= Seq::<char>::empty());
        assert(encode_utf8(Seq::<char>::empty()) =~= Seq::<u8>::empty());
        assert(encode_utf8(a) =~= Seq::<u8>::empty());
        assert(encode_utf8(seq![c]) =~= encode_scalar(c as u32));
    } else {
        assert(a.push(c).drop_first() =~= a.drop_first().push(c));
        lemma_encode_push(a.drop_first(), c);
        assert(a.push(c)[0] == a[0]);
        assert(encode_utf8(a.push(c)) =~= encode_utf8(a) + encode_scalar(c as u32));
    }
}

/// Text with no whitespace at either end is encoded with none either.
proof fn lemma_plain_text_bytes(t: Seq<char>)
    requires
        plain_text(t),
    ensures
        clean(encode_utf8(t)),
        decode_utf8(encode_utf8(t)) == t,
        encode_utf8(t).len() > 0 <==> t.len() > 0,
{
    encode_utf8_valid_utf8(t);
    encode_utf8_decode_utf8(t);
    let b = encode_utf8(t);
    if t.len() > 0 {
        lemma_scalar_edges(t[0]);
        lemma_scalar_edges(t.last());
        assert(b == encode_scalar(t[0] as u32) + encode_utf8(t.drop_first()));
        assert(b[0] == encode_scalar(t[0] as u32)[0]);
        assert(t.drop_last().push(t.last()) =~= t);
        lemma_encode_push(t.drop_last(), t.last());
        assert(b.last() == encode_scalar(t.last() as u32).last());
    } else {
        assert(b =~= Seq::<u8>::empty());
    }
}

/// What a plain scalar is written as, and what that text reads as.
proof fn lemma_plain(v: ValueView, s: Shape, width: int)
    requires
        plain_fits(v, s, width),
    ensures
        clean(text_of(v)),
        text_of(v).len() <= width,
        text_of(v).len() > 0 || s is Str || s is Float || s is Unit,
        ({
            let t = text_of(v);
            match s {
                Shape::Bool => t.len() == 1 && v == ValueView::Bool(t[0] != 48),
                Shape::Int(k) => crate::de::int_of(t, k) == Ok::<ValueView, Failure>(v),
                Shape::Char => t.len() == 1 && v == ValueView::Char(t[0] as char),
                Shape::Float => v == ValueView::Float(decode_utf8(t)),
                Shape::Unit => v == ValueView::Unit,
                _ => v == ValueView::Str(decode_utf8(t)),
            }
        }),
{
    match s {
        Shape::Bool => {
            let t = text_of(v);
            assert forall|j: int| 0 <= j < t.len() implies #[trigger] t[j] < 128 by {}
            lemma_ascii_text(t);
        },
        Shape::Int(k) => {
            let i = v->Int_0;
            lemma_decimal_reads(i, k.signed());
            let t = decimal(i);
            assert forall|j: int| 0 <= j < t.len() implies #[trigger] t[j] < 128 by {}
            lemma_ascii_text(t);
        },
        Shape::Char => {
            let c = v->Char_0;
            let t = seq![c];
            assert(is_ascii_chars(t));
            lemma_ascii_chars_bytes(t);
            assert(text_of(v) == encode_utf8(t));
            assert(text_of(v).len() == 1);
            assert(text_of(v)[0] == c as u8);
            assert((c as u8) as char == c);
            encode_utf8_valid_utf8(t);
        },
        Shape::Unit => {
            assert(text_of(v) =~= Seq::<u8>::empty());
            assert(valid_utf8(Seq::<u8>::empty()));
        },
        _ => {
            let t = if s is Str {
                v->Str_0
            } else {
                v->Float_0
            };
            lemma_plain_text_bytes(t);
        },
    }
}

proof fn lemma_trim_start_spaces(w: Seq<u8>, s: Seq<u8>)
    requires
        forall|i: int| 0 <= i < w.len() ==> is_space(#[trigger] w[i]),
    ensures
        trim_start(w + s) == trim_start(s),
    decreases w.len(),
{
    if w.len() > 0 {
        assert((w + s)[0] == w[0]);
        assert((w + s).drop_first() =~= w.drop_first() + s);
        lemma_trim_start_spaces(w.drop_first(), s);
    } else {
        assert(w + s =~= s);
    }
}

proof fn lemma_trim_end_spaces(s: Seq<u8>, w: Seq<u8>)
    requires
        forall|i: int| 0 <= i < w.len() ==> is_space(#[trigger] w[i]),
    ensures
        trim_end(s + w) == trim_end(s),
    decreases w.len(),
{
    if w.len() > 0 {
        assert((s + w).last() == w.last());
        assert((s + w).drop_last() =~= s + w.drop_last());
        lemma_trim_end_spaces(s, w.drop_last());
    } else {
        assert(s + w =~= s);
    }
}

/// Padding with whitespace is undone by trimming a text with no whitespace at its ends.
proof fn lemma_trim_padded(t: Seq<u8>, f: FieldView)
    requires
        clean(t),
        t.len() <= f.end - f.start,
        is_space(pad_byte(f.pad_with)),
    ensures
        trim(padded(t, f)) == t,
        padded(t, f).len() == f.end - f.start,
{
    let w = f.end - f.start;
    let fill = Seq::new((w - t.len()) as nat, |i: int| pad_byte(f.pad_with));
    assert forall|i: int| 0 <= i < fill.len() implies is_space(#[trigger] fill[i]) by {}
    let e = Seq::<u8>::empty();
    assert(trim_start(t) == t);
    assert(trim_end(t) == t);
    assert(trim_start(e) == e);
    assert(trim_end(e) == e);
    match f.justify {
        crate::field::Justify::Left => {
            lemma_trim_end_spaces(t, fill);
            if t.len() > 0 {
                assert((t + fill)[0] == t[0]);
                assert(trim_start(t + fill) == t + fill);
            } else {
                assert(t + fill =~= e + fill);
                lemma_trim_end_spaces(e, fill);
                lemma_trim_start_spaces(fill, e);
                assert(fill + e =~= fill);
            }
        },
        crate::field::Justify::Right => {
            lemma_trim_start_spaces(fill, t);
        },
    }
}

proof fn lemma_record_len(values: Seq<ValueView>, fields: Seq<FieldView>, shapes: Seq<Shape>, n: int)
    requires
        back_to_back(fields),
        0 <= n <= fields.len(),
        values.len() == shapes.len() == fields.len(),
        forall|i: int|
            0 <= i < fields.len() ==> scalar_fits(
                #[trigger] values[i],
                shapes[i],
                fields[i].end - fields[i].start,
            ),
    ensures
        record_of(values, fields, n).len() == if n == 0 {
            0
        } else {
            fields[n - 1].end as int
        },
    decreases n,
{
    if n > 0 {
        lemma_record_len(values, fields, shapes, n - 1);
        lemma_scalar_text(values[n - 1], shapes[n - 1], fields[n - 1].end - fields[n - 1].start);
        lemma_trim_padded(scalar_text(values[n - 1]), fields[n - 1]);
    }
}

proof fn lemma_record_prefix(values: Seq<ValueView>, fields: Seq<FieldView>, m: int, n: int)
    requires
        0 <= m <= n,
    ensures
        record_of(values, fields, m).len() <= record_of(values, fields, n).len(),
        record_of(values, fields, n).subrange(0, record_of(values, fields, m).len() as int)
            == record_of(values, fields, m),
    decreases n,
{
    if m < n {
        lemma_record_prefix(values, fields, m, n - 1);
        let a = record_of(values, fields, n - 1);
        let k = record_of(values, fields, m).len() as int;
        assert(record_of(values, fields, n).subrange(0, k) =~= a.subrange(0, k));
    } else {
        let r = record_of(values, fields, n);
        assert(r.subrange(0, r.len() as int) =~= r);
    }
}

/// What a scalar is written as is clean text that fits its field.
proof fn lemma_scalar_text(v: ValueView, s: Shape, width: int)
    requires
        scalar_fits(v, s, width),
        width >= 0,
    ensures
        clean(scalar_text(v)),
        scalar_text(v).len() <= width,
{
    match s {
        Shape::Optional(inner) => {
            if v is Present {
                lemma_plain(*v->Present_0, *inner, width);
            } else {
                assert(scalar_text(v) =~= Seq::<u8>::empty());
            }
        },
        _ => {
            lemma_plain(v, s, width);
        },
    }
}

/// A scalar is written into exactly its own field.
proof fn lemma_write_scalar(v: ValueView, s: Shape, fields: Seq<FieldView>, pos: int)
    requires
        0 <= pos < fields.len(),
        scalar_fits(v, s, fields[pos].end - fields[pos].start),
    ensures
        write_spec(v, fields, pos) == Ok::<(Seq<u8>, int), SerFailure>(
            (padded(scalar_text(v), fields[pos]), pos + 1),
        ),
{
    if v is Present {
        let x = *v->Present_0;
        assert(write_spec(v, fields, pos) == write_spec(x, fields, pos));
    }
}

proof fn lemma_write_all(
    values: Seq<ValueView>,
    shapes: Seq<Shape>,
    fields: Seq<FieldView>,
    i: int,
)
    requires
        0 <= i <= fields.len(),
        values.len() == shapes.len() == fields.len(),
        forall|j: int|
            0 <= j < fields.len() ==> scalar_fits(
                #[trigger] values[j],
                shapes[j],
                fields[j].end - fields[j].start,
            ),
    ensures
        write_list(values, i, fields, i, record_of(values, fields, i)) == Ok::<
            (Seq<u8>, int),
            SerFailure,
        >((record_of(values, fields, fields.len() as int), fields.len() as int)),
    decreases fields.len() - i,
{
    if i < fields.len() {
        lemma_write_scalar(values[i], shapes[i], fields, i);
        lemma_write_all(values, shapes, fields, i + 1);
    }
}

/// A plain scalar reads back from a field whose text is the scalar's text.
proof fn lemma_read_plain(
    input: Seq<u8>,
    fields: Seq<FieldView>,
    i: int,
    v: ValueView,
    s: Shape,
    width: int,
)
    requires
        plain_fits(v, s, width),
        text_at(input, fields, i) == Ok::<Seq<u8>, Failure>(text_of(v)),
    ensures
        read_spec(input, fields, i, s) == Ok::<(ValueView, int), Failure>((v, i + 1)),
{
    lemma_plain(v, s, width);
}

/// The text of field `i` of the record is the text its scalar was written as.
#[verifier::rlimit(100)]
proof fn lemma_field_text(
    values: Seq<ValueView>,
    shapes: Seq<Shape>,
    fields: Seq<FieldView>,
    i: int,
)
    requires
        back_to_back(fields),
        0 <= i < fields.len(),
        values.len() == shapes.len() == fields.len(),
        forall|j: int|
            0 <= j < fields.len() ==> scalar_fits(
                #[trigger] values[j],
                shapes[j],
                fields[j].end - fields[j].start,
            ),
    ensures
        text_at(record_of(values, fields, fields.len() as int), fields, i) == Ok::<
            Seq<u8>,
            Failure,
        >(scalar_text(values[i])),
{
    let n = fields.len() as int;
    let b = record_of(values, fields, n);
    let f = fields[i];
    let t = scalar_text(values[i]);
    lemma_scalar_text(values[i], shapes[i], f.end - f.start);
    lemma_trim_padded(t, f);
    lemma_record_len(values, fields, shapes, i);
    lemma_record_len(values, fields, shapes, i + 1);
    lemma_record_prefix(values, fields, i + 1, n);
    let upto = record_of(values, fields, i + 1);
    assert(b.subrange(f.start as int, f.end as int) =~= upto.subrange(f.start as int, f.end as int));
    assert(upto.subrange(f.start as int, f.end as int) =~= padded(t, f));
}

/// Each scalar reads back from the record that holds them all.
proof fn lemma_read_scalar(
    values: Seq<ValueView>,
    shapes: Seq<Shape>,
    fields: Seq<FieldView>,
    i: int,
)
    requires
        back_to_back(fields),
        0 <= i < fields.len(),
        values.len() == shapes.len() == fields.len(),
        forall|j: int|
            0 <= j < fields.len() ==> scalar_fits(
                #[trigger] values[j],
                shapes[j],
                fields[j].end - fields[j].start,
            ),
    ensures
        read_spec(record_of(values, fields, fields.len() as int), fields, i, shapes[i]) == Ok::<
            (ValueView, int),
            Failure,
        >((values[i], i + 1)),
{
    let b = record_of(values, fields, fields.len() as int);
    let f = fields[i];
    let v = values[i];
    let s = shapes[i];
    lemma_field_text(values, shapes, fields, i);
    match s {
        Shape::Optional(inner) => {
            if v is Present {
                let x = *v->Present_0;
                lemma_plain(x, *inner, f.end - f.start);
                lemma_read_plain(b, fields, i, x, *inner, f.end - f.start);
            }
        },
        _ => {
            lemma_read_plain(b, fields, i, v, s, f.end - f.start);
        },
    }
}

#[verifier::rlimit(100)]
proof fn lemma_read_all(
    values: Seq<ValueView>,
    shapes: Seq<Shape>,
    fields: Seq<FieldView>,
    i: int,
)
    requires
        back_to_back(fields),
        0 <= i <= fields.len(),
        values.len() == shapes.len() == fields.len(),
        forall|j: int|
            0 <= j < fields.len() ==> scalar_fits(
                #[trigger] values[j],
                shapes[j],
                fields[j].end - fields[j].start,
            ),
    ensures
        read_tuple(
            record_of(values, fields, fields.len() as int),
            fields,
            i,
            shapes,
            i,
            values.take(i),
        ) == Ok::<(ValueView, int), Failure>((ValueView::List(values), fields.len() as int)),
    decreases fields.len() - i,
{
    if i < fields.len() {
        let b = record_of(values, fields, fields.len() as int);
        lemma_read_scalar(values, shapes, fields, i);
        lemma_read_all(values, shapes, fields, i + 1);
        assert(values.take(i).push(values[i]) =~= values.take(i + 1));
        assert(read_tuple(b, fields, i, shapes, i, values.take(i)) == read_tuple(
            b,
            fields,
            i + 1,
            shapes,
            i + 1,
            values.take(i + 1),
        ));
    } else {
        assert(values.take(i) =~= values);
    }
}

/// Round trip: a record of scalars written through fields that lie back to back and pad
/// with whitespace, each wide enough for its value's text, reads back as the same values.
/// The scalars are flags, integers within their kind's range, ASCII characters that are
/// not whitespace, text (plain or the text of a floating-point number) without whitespace
/// at its ends, units, and optional ones of these (present ones with a non-empty text).
pub proof fn lemma_round_trip(values: Seq<ValueView>, shapes: Vec<Shape>, fields: Seq<FieldView>)
    requires
        back_to_back(fields),
        values.len() == shapes@.len() == fields.len(),
        forall|i: int|
            0 <= i < fields.len() ==> scalar_fits(
                #[trigger] values[i],
                shapes@[i],
                fields[i].end - fields[i].start,
            ),
    ensures
        write_spec(ValueView::List(values), fields, 0) is Ok,
        read_spec(
            write_spec(ValueView::List(values), fields, 0)->Ok_0.0,
            fields,
            0,
            Shape::Tuple(shapes),
        ) == Ok::<(ValueView, int), Failure>((ValueView::List(values), fields.len() as int)),
{
    lemma_write_all(values, shapes@, fields, 0);
    assert(record_of(values, fields, 0) =~= Seq::<u8>::empty());
    lemma_read_all(values, shapes@, fields, 0);
    assert(values.take(0) =~= Seq::<ValueView>::empty());
}


/// The scalars of a value of a (possibly nested) product shape, in writing order, each with
/// its shape.
pub open spec fn leaves(v: ValueView, s: Shape) -> Seq<(ValueView, Shape)>
    decreases s,
{
    match s {
        Shape::Tuple(ss) => match v {
            ValueView::List(vs) => leaves_all(vs, ss@),
            _ => seq![(v, s)],
        },
        _ => seq![(v, s)],
    }
}

/// The scalars of the members `vs` of shapes `ss`, in order.
pub open spec fn leaves_all(vs: Seq<ValueView>, ss: Seq<Shape>) -> Seq<(ValueView, Shape)>
    decreases ss,
{
    if ss.len() == 0 || vs.len() == 0 {
        seq![]
    } else {
        leaves(vs[0], ss[0]) + leaves_all(vs.drop_first(), ss.drop_first())
    }
}

/// Every product in `v` has as many members as its shape, and every member takes up at
/// least one field.
pub open spec fn shaped(v: ValueView, s: Shape) -> bool
    decreases s,
{
    match s {
        Shape::Tuple(ss) => v is List && v->List_0.len() == ss@.len() && shaped_all(v->List_0, ss@),
        _ => true,
    }
}

/// Each member is shaped and takes up at least one field.
pub open spec fn shaped_all(vs: Seq<ValueView>, ss: Seq<Shape>) -> bool
    decreases ss,
{
    if ss.len() == 0 || vs.len() == 0 {
        true
    } else {
        shaped(vs[0], ss[0]) && leaves(vs[0], ss[0]).len() >= 1 && shaped_all(
            vs.drop_first(),
            ss.drop_first(),
        )
    }
}

/// The values of a list of scalars.
pub open spec fn firsts(l: Seq<(ValueView, Shape)>) -> Seq<ValueView> {
    l.map_values(|p: (ValueView, Shape)| p.0)
}

/// The shapes of a list of scalars.
pub open spec fn seconds(l: Seq<(ValueView, Shape)>) -> Seq<Shape> {
    l.map_values(|p: (ValueView, Shape)| p.1)
}

/// `l` stands in `all` from index `pos` on.
pub open spec fn found_at(all: Seq<(ValueView, Shape)>, l: Seq<(ValueView, Shape)>, pos: int) -> bool {
    &&& 0 <= pos
    &&& pos + l.len() <= all.len()
    &&& forall|j: int| 0 <= j < l.len() ==> all[pos + j] == #[trigger] l[j]
}

proof fn lemma_found_split(all: Seq<(ValueView, Shape)>, a: Seq<(ValueView, Shape)>, b: Seq<(ValueView, Shape)>, pos: int)
    requires
        found_at(all, a + b, pos),
    ensures
        found_at(all, a, pos),
        found_at(all, b, pos + a.len()),
{
    assert forall|j: int| 0 <= j < a.len() implies all[pos + j] == #[trigger] a[j] by {
        assert((a + b)[j] == a[j]);
    }
    assert forall|j: int| 0 <= j < b.len() implies all[pos + a.len() + j] == #[trigger] b[j] by {
        assert((a + b)[a.len() + j] == b[j]);
    }
}

/// The bytes of the scalars `l`, the first in field `pos`, each in its own field.
pub open spec fn segment(l: Seq<(ValueView, Shape)>, fields: Seq<FieldView>, pos: int) -> Seq<u8>
    decreases l.len(),
{
    if l.len() == 0 {
        seq![]
    } else {
        padded(scalar_text(l[0].0), fields[pos]) + segment(l.drop_first(), fields, pos + 1)
    }
}

proof fn lemma_segment_concat(a: Seq<(ValueView, Shape)>, b: Seq<(ValueView, Shape)>, fields: Seq<FieldView>, pos: int)
    ensures
        segment(a + b, fields, pos) == segment(a, fields, pos) + segment(b, fields, pos + a.len()),
    decreases a.len(),
{
    if a.len() == 0 {
        assert(a + b =~= b);
        assert(segment(a, fields, pos) =~= Seq::<u8>::empty());
        assert(Seq::<u8>::empty() + segment(b, fields, pos) =~= segment(b, fields, pos));
    } else {
        assert((a + b).drop_first() =~= a.drop_first() + b);
        lemma_segment_concat(a.drop_first(), b, fields, pos + 1);
        assert(segment(a + b, fields, pos) =~= segment(a, fields, pos) + segment(b, fields, pos + a.len()));
    }
}

/// The first scalars of the record, as one segment.
proof fn lemma_record_segment(l: Seq<(ValueView, Shape)>, fields: Seq<FieldView>, n: int)
    requires
        0 <= n <= l.len(),
        l.len() <= fields.len(),
    ensures
        record_of(firsts(l), fields, n) == segment(l.take(n), fields, 0),
    decreases n,
{
    let values = firsts(l);
    if n == 0 {
        assert(l.take(0) =~= Seq::<(ValueView, Shape)>::empty());
    } else {
        lemma_record_segment(l, fields, n - 1);
        assert(l.take(n) =~= l.take(n - 1) + seq![l[n - 1]]);
        lemma_segment_concat(l.take(n - 1), seq![l[n - 1]], fields, 0);
        let one = seq![l[n - 1]];
        assert(one.drop_first() =~= Seq::<(ValueView, Shape)>::empty());
        assert(segment(Seq::<(ValueView, Shape)>::empty(), fields, n) =~= Seq::<u8>::empty());
        assert(segment(one, fields, n - 1) =~= padded(scalar_text(l[n - 1].0), fields[n - 1]));
        assert(values[n - 1] == l[n - 1].0);
    }
}

/// The scalars `l`, written from field `pos` on, each fit the field they land in.
pub open spec fn fits_from(l: Seq<(ValueView, Shape)>, fields: Seq<FieldView>, pos: int) -> bool {
    &&& 0 <= pos
    &&& pos + l.len() <= fields.len()
    &&& forall|j: int|
        0 <= j < l.len() ==> scalar_fits(
            (#[trigger] l[j]).0,
            l[j].1,
            fields[pos + j].end - fields[pos + j].start,
        )
}

proof fn lemma_fits_split(a: Seq<(ValueView, Shape)>, b: Seq<(ValueView, Shape)>, fields: Seq<FieldView>, pos: int)
    requires
        fits_from(a + b, fields, pos),
    ensures
        fits_from(a, fields, pos),
        fits_from(b, fields, pos + a.len()),
{
    assert forall|j: int| 0 <= j < a.len() implies scalar_fits(
        (#[trigger] a[j]).0,
        a[j].1,
        fields[pos + j].end - fields[pos + j].start,
    ) by {
        assert((a + b)[j] == a[j]);
    }
    assert forall|j: int| 0 <= j < b.len() implies scalar_fits(
        (#[trigger] b[j]).0,
        b[j].1,
        fields[pos + a.len() + j].end - fields[pos + a.len() + j].start,
    ) by {
        assert((a + b)[a.len() + j] == b[j]);
    }
}

/// A shaped value is written as the segment of its scalars.
proof fn lemma_write_nested(v: ValueView, s: Shape, fields: Seq<FieldView>, pos: int)
    requires
        shaped(v, s),
        fits_from(leaves(v, s), fields, pos),
    ensures
        write_spec(v, fields, pos) == Ok::<(Seq<u8>, int), SerFailure>(
            (segment(leaves(v, s), fields, pos), pos + leaves(v, s).len()),
        ),
    decreases s, 1int,
{
    match s {
        Shape::Tuple(ss) => {
            let vs = v->List_0;
            assert(vs.subrange(0, vs.len() as int) =~= vs);
            assert(ss@.subrange(0, ss@.len() as int) =~= ss@);
            lemma_write_members(vs, ss@, fields, pos, 0, seq![]);
            assert(Seq::<u8>::empty() + segment(leaves(v, s), fields, pos) =~= segment(leaves(v, s), fields, pos));
        },
        _ => {
            let l = leaves(v, s);
            assert(l[0] == (v, s));
            lemma_write_scalar(v, s, fields, pos);
            assert(l.drop_first() =~= Seq::<(ValueView, Shape)>::empty());
            assert(segment(Seq::<(ValueView, Shape)>::empty(), fields, pos + 1) =~= Seq::<u8>::empty());
            assert(segment(l, fields, pos) =~= padded(scalar_text(v), fields[pos]));
        },
    }
}

/// Members `vs[i..]` are written as the segment of their scalars, after `acc`.
proof fn lemma_write_members(
    vs: Seq<ValueView>,
    ss: Seq<Shape>,
    fields: Seq<FieldView>,
    pos: int,
    i: int,
    acc: Seq<u8>,
)
    requires
        vs.len() == ss.len(),
        0 <= i <= ss.len(),
        shaped_all(vs.subrange(i, vs.len() as int), ss.subrange(i, ss.len() as int)),
        fits_from(leaves_all(vs.subrange(i, vs.len() as int), ss.subrange(i, ss.len() as int)), fields, pos),
    ensures
        ({
            let l = leaves_all(vs.subrange(i, vs.len() as int), ss.subrange(i, ss.len() as int));
            write_list(vs, i, fields, pos, acc) == Ok::<(Seq<u8>, int), SerFailure>(
                (acc + segment(l, fields, pos), pos + l.len()),
            )
        }),
    decreases ss, ss.len() - i,
{
    let rv = vs.subrange(i, vs.len() as int);
    let rs = ss.subrange(i, ss.len() as int);
    let l = leaves_all(rv, rs);
    if i == ss.len() {
        assert(l =~= Seq::<(ValueView, Shape)>::empty());
        assert(acc + segment(l, fields, pos) =~= acc);
    } else {
        let first = leaves(vs[i], ss[i]);
        assert(rv[0] == vs[i]);
        assert(rs[0] == ss[i]);
        assert(rv.drop_first() =~= vs.subrange(i + 1, vs.len() as int));
        assert(rs.drop_first() =~= ss.subrange(i + 1, ss.len() as int));
        let rest = leaves_all(vs.subrange(i + 1, vs.len() as int), ss.subrange(i + 1, ss.len() as int));
        assert(l == first + rest);
        lemma_fits_split(first, rest, fields, pos);
        lemma_write_nested(vs[i], ss[i], fields, pos);
        lemma_write_members(vs, ss, fields, pos + first.len(), i + 1, acc + segment(first, fields, pos));
        lemma_segment_concat(first, rest, fields, pos);
        assert(acc + segment(first, fields, pos) + segment(rest, fields, pos + first.len()) =~= acc
            + segment(l, fields, pos));
    }
}

/// A shaped value reads back from the record of all scalars, where its scalars are those
/// from field `pos` on.
#[verifier::rlimit(100)]
proof fn lemma_read_nested(
    v: ValueView,
    s: Shape,
    all: Seq<(ValueView, Shape)>,
    fields: Seq<FieldView>,
    pos: int,
)
    requires
        back_to_back(fields),
        all.len() == fields.len(),
        fits_from(all, fields, 0),
        shaped(v, s),
        found_at(all, leaves(v, s), pos),
    ensures
        read_spec(record_of(firsts(all), fields, fields.len() as int), fields, pos, s) == Ok::<
            (ValueView, int),
            Failure,
        >((v, pos + leaves(v, s).len())),
    decreases s, 1int,
{
    match s {
        Shape::Tuple(ss) => {
            let vs = v->List_0;
            assert(vs.subrange(0, vs.len() as int) =~= vs);
            assert(ss@.subrange(0, ss@.len() as int) =~= ss@);
            assert(vs.take(0) =~= Seq::<ValueView>::empty());
            lemma_read_members(vs, ss@, all, fields, pos, 0);
            assert(vs.take(vs.len() as int) =~= vs);
        },
        _ => {
            let values = firsts(all);
            let shapes = seconds(all);
            assert(leaves(v, s)[0] == (v, s));
            assert(all[pos] == (v, s));
            assert forall|j: int| 0 <= j < fields.len() implies scalar_fits(
                #[trigger] values[j],
                shapes[j],
                fields[j].end - fields[j].start,
            ) by {
                assert(all[j] == (values[j], shapes[j]));
            }
            lemma_read_scalar(values, shapes, fields, pos);
        },
    }
}

/// Members `vs[i..]` read back one after the other from field `pos` on.
#[verifier::rlimit(100)]
proof fn lemma_read_members(
    vs: Seq<ValueView>,
    ss: Seq<Shape>,
    all: Seq<(ValueView, Shape)>,
    fields: Seq<FieldView>,
    pos: int,
    i: int,
)
    requires
        back_to_back(fields),
        all.len() == fields.len(),
        fits_from(all, fields, 0),
        vs.len() == ss.len(),
        0 <= i <= ss.len(),
        shaped_all(vs.subrange(i, vs.len() as int), ss.subrange(i, ss.len() as int)),
        found_at(all, leaves_all(vs.subrange(i, vs.len() as int), ss.subrange(i, ss.len() as int)), pos),
    ensures
        read_tuple(record_of(firsts(all), fields, fields.len() as int), fields, pos, ss, i, vs.take(i))
            == Ok::<(ValueView, int), Failure>(
            (
                ValueView::List(vs),
                pos + leaves_all(vs.subrange(i, vs.len() as int), ss.subrange(i, ss.len() as int)).len(),
            ),
        ),
    decreases ss, ss.len() - i,
{
    let b = record_of(firsts(all), fields, fields.len() as int);
    let rv = vs.subrange(i, vs.len() as int);
    let rs = ss.subrange(i, ss.len() as int);
    let l = leaves_all(rv, rs);
    if i == ss.len() {
        assert(l =~= Seq::<(ValueView, Shape)>::empty());
        assert(vs.take(i) =~= vs);
    } else {
        let first = leaves(vs[i], ss[i]);
        assert(rv[0] == vs[i]);
        assert(rs[0] == ss[i]);
        assert(rv.drop_first() =~= vs.subrange(i + 1, vs.len() as int));
        assert(rs.drop_first() =~= ss.subrange(i + 1, ss.len() as int));
        let rest = leaves_all(vs.subrange(i + 1, vs.len() as int), ss.subrange(i + 1, ss.len() as int));
        assert(l == first + rest);
        lemma_found_split(all, first, rest, pos);
        lemma_read_nested(vs[i], ss[i], all, fields, pos);
        lemma_read_members(vs, ss, all, fields, pos + first.len(), i + 1);
        assert(vs.take(i).push(vs[i]) =~= vs.take(i + 1));
        assert(pos < fields.len());
        assert(read_tuple(b, fields, pos, ss, i, vs.take(i)) == read_tuple(
            b,
            fields,
            pos + first.len(),
            ss,
            i + 1,
            vs.take(i + 1),
        ));
    }
}

/// Round trip of nested products: a value whose products have as many members as their
/// shapes, each member taking up at least one field, and whose scalars are as the flat
/// round trip asks (see `lemma_round_trip`), written through back-to-back fields, one for
/// each scalar, reads back as the same value.
pub proof fn lemma_round_trip_nested(v: ValueView, s: Shape, fields: Seq<FieldView>)
    requires
        back_to_back(fields),
        shaped(v, s),
        leaves(v, s).len() == fields.len(),
        forall|i: int|
            0 <= i < fields.len() ==> scalar_fits(
                (#[trigger] leaves(v, s)[i]).0,
                leaves(v, s)[i].1,
                fields[i].end - fields[i].start,
            ),
    ensures
        write_spec(v, fields, 0) is Ok,
        read_spec(write_spec(v, fields, 0)->Ok_0.0, fields, 0, s) == Ok::<(ValueView, int), Failure>(
            (v, fields.len() as int),
        ),
{
    let all = leaves(v, s);
    assert(fits_from(all, fields, 0));
    lemma_write_nested(v, s, fields, 0);
    lemma_record_segment(all, fields, all.len() as int);
    assert(all.take(all.len() as int) =~= all);
    assert(found_at(all, all, 0));
    lemma_read_nested(v, s, all, fields, 0);
}

} // verus!
