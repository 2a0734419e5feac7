use vstd::prelude::*;
use vstd::utf8::*;

verus! {

/// ASCII whitespace: space, tab, line feed, vertical tab, form feed, carriage return.
pub open spec fn is_space(b: u8) -> bool {
    b == 32 || (9 <= b && b <= 13)
}

/// Leading whitespace removed.
pub open spec fn trim_start(s: Seq<u8>) -> Seq<u8>
    decreases s.len(),
{
    if s.len() > 0 && is_space(s[0]) {
        trim_start(s.drop_first())
    } else {
        s
    }
}

/// Trailing whitespace removed.
pub open spec fn trim_end(s: Seq<u8>) -> Seq<u8>
    decreases s.len(),
{
    if s.len() > 0 && is_space(s.last()) {
        trim_end(s.drop_last())
    } else {
        s
    }
}

/// Leading and trailing whitespace removed.
pub open spec fn trim(s: Seq<u8>) -> Seq<u8> {
    trim_end(trim_start(s))
}

proof fn lemma_trim_start_at(s: Seq<u8>, i: int)
    requires
        0 <= i <= s.len(),
        forall|k: int| 0 <= k < i ==> is_space(#[trigger] s[k]),
        i == s.len() || !is_space(s[i]),
    ensures
        trim_start(s) == s.subrange(i, s.len() as int),
    decreases i,
{
    if i == 0 {
        assert(s.subrange(0, s.len() as int) =~= s);
    } else {
        let t = s.drop_first();
        assert forall|k: int| 0 <= k < i - 1 implies is_space(#[trigger] t[k]) by {
            assert(t[k] == s[k + 1]);
        }
        lemma_trim_start_at(t, i - 1);
        assert(t.subrange(i - 1, t.len() as int) =~= s.subrange(i, s.len() as int));
    }
}

proof fn lemma_trim_end_at(s: Seq<u8>, j: int)
    requires
        0 <= j <= s.len(),
        forall|k: int| j <= k < s.len() ==> is_space(#[trigger] s[k]),
        j == 0 || !is_space(s[j - 1]),
    ensures
        trim_end(s) == s.subrange(0, j),
    decreases s.len() - j,
{
    if j == s.len() {
        assert(s.subrange(0, j) =~= s);
    } else {
        let t = s.drop_last();
        assert forall|k: int| j <= k < t.len() implies is_space(#[trigger] t[k]) by {
            assert(t[k] == s[k]);
        }
        lemma_trim_end_at(t, j);
        assert(t.subrange(0, j) =~= s.subrange(0, j));
    }
}

/// The bounds of `b` once leading and trailing whitespace are removed.
pub fn trim_bounds(b: &[u8]) -> (r: (usize, usize))
    ensures
        r.0 <= r.1 <= b@.len(),
        b@.subrange(r.0 as int, r.1 as int) == trim(b@),
{
    let mut i: usize = 0;
    while i < b.len() && (b[i] == 32 || (9 <= b[i] && b[i] <= 13))
        invariant
            i <= b@.len(),
            forall|k: int| 0 <= k < i ==> is_space(#[trigger] b@[k]),
        decreases b@.len() - i,
    {
        i += 1;
    }
    let mut j: usize = b.len();
    while j > i && (b[j - 1] == 32 || (9 <= b[j - 1] && b[j - 1] <= 13))
        invariant
            i <= j <= b@.len(),
            forall|k: int| j <= k < b@.len() ==> is_space(#[trigger] b@[k]),
        decreases j,
    {
        j -= 1;
    }
    proof {
        lemma_trim_start_at(b@, i as int);
        let s = b@.subrange(i as int, b@.len() as int);
        assert forall|k: int| j - i <= k < s.len() implies is_space(#[trigger] s[k]) by {
            assert(s[k] == b@[k + i]);
        }
        lemma_trim_end_at(s, j - i);
        assert(s.subrange(0, j - i) =~= b@.subrange(i as int, j as int));
    }
    (i, j)
}

/// The decimal digits of `n`, most significant first, with no leading zero.
pub open spec fn digits(n: nat) -> Seq<u8>
    decreases n,
{
    if n < 10 {
        seq![(48 + n) as u8]
    } else {
        digits(n / 10).push((48 + n % 10) as u8)
    }
}

/// The decimal text of `v`: a minus sign for a negative number, then its digits.
pub open spec fn decimal(v: int) -> Seq<u8> {
    if v < 0 {
        seq![45u8] + digits((-v) as nat)
    } else {
        digits(v as nat)
    }
}

/// The value of a run of decimal digits.
pub open spec fn digits_value(s: Seq<u8>) -> nat
    decreases s.len(),
{
    if s.len() == 0 {
        0
    } else {
        digits_value(s.drop_last()) * 10 + (s.last() - 48) as nat
    }
}

/// Every byte is a decimal digit.
pub open spec fn all_digits(s: Seq<u8>) -> bool {
    forall|i: int| 0 <= i < s.len() ==> 48 <= #[trigger] s[i] <= 57
}

/// The integer a text denotes: an optional sign (`-` only where `signed`), then one or more
/// decimal digits, and nothing else.
pub open spec fn int_text(s: Seq<u8>, signed: bool) -> Option<int> {
    if s.len() > 0 && (s[0] == 45 || s[0] == 43) {
        let rest = s.drop_first();
        if rest.len() > 0 && all_digits(rest) && (s[0] == 43 || signed) {
            if s[0] == 45 {
                Some(-digits_value(rest))
            } else {
                Some(digits_value(rest) as int)
            }
        } else {
            None
        }
    } else if s.len() > 0 && all_digits(s) {
        Some(digits_value(s) as int)
    } else {
        None
    }
}

fn push_digits(n: u128, out: &mut Vec<u8>)
    ensures
        final(out)@ == old(out)@ + digits(n as nat),
    decreases n,
{
    if n >= 10 {
        push_digits(n / 10, out);
        out.push(48 + (n % 10) as u8);
        proof {
            assert(out@ =~= old(out)@ + digits(n as nat));
        }
    } else {
        out.push(48 + n as u8);
        proof {
            assert(out@ =~= old(out)@ + digits(n as nat));
        }
    }
}

/// The decimal text of `v`.
pub fn decimal_text(v: i128) -> (r: Vec<u8>)
    ensures
        r@ == decimal(v as int),
{
    let mut out: Vec<u8> = Vec::new();
    if v < 0 {
        out.push(45);
        let mag: u128 = ((-(v + 1)) as u128) + 1;
        push_digits(mag, &mut out);
        proof {
            assert(out@ =~= seq![45u8] + digits((-v) as nat));
        }
    } else {
        push_digits(v as u128, &mut out);
        proof {
            assert(out@ =~= digits(v as nat));
        }
    }
    out
}

proof fn lemma_digits_value_grows(s: Seq<u8>, i: int)
    requires
        0 <= i <= s.len(),
        all_digits(s),
    ensures
        digits_value(s.subrange(0, i)) <= digits_value(s),
    decreases s.len() - i,
{
    if i < s.len() {
        lemma_digits_value_grows(s, i + 1);
        let p = s.subrange(0, i + 1);
        assert(p.drop_last() =~= s.subrange(0, i));
        assert(48 <= p.last());
    } else {
        assert(s.subrange(0, i) =~= s);
    }
}

/// The value of the decimal digits `b[start..]`, or `None` where one byte is no digit or the
/// value exceeds `limit`.
fn digits_upto(b: &[u8], start: usize, limit: u128) -> (r: Option<u128>)
    requires
        start <= b@.len(),
        limit <= 100_000_000_000_000_000_000,
    ensures
        match r {
            Some(v) => all_digits(b@.subrange(start as int, b@.len() as int)) && v == digits_value(
                b@.subrange(start as int, b@.len() as int),
            ) && v <= limit,
            None => !all_digits(b@.subrange(start as int, b@.len() as int)) || digits_value(
                b@.subrange(start as int, b@.len() as int),
            ) > limit,
        },
{
    let ghost s = b@.subrange(start as int, b@.len() as int);
    let mut acc: u128 = 0;
    let mut i: usize = start;
    while i < b.len()
        invariant
            start <= i <= b@.len(),
            s == b@.subrange(start as int, b@.len() as int),
            all_digits(s.subrange(0, i - start)),
            acc == digits_value(s.subrange(0, i - start)),
            acc <= limit,
            limit <= 100_000_000_000_000_000_000,
        decreases b@.len() - i,
    {
        let c = b[i];
        if c < 48 || c > 57 {
            proof {
                assert(s[i - start] == c);
            }
            return None;
        }
        assert(acc * 10 <= 1_000_000_000_000_000_000_000) by (nonlinear_arith)
            requires
                acc <= 100_000_000_000_000_000_000,
        ;
        let next = acc * 10 + (c - 48) as u128;
        proof {
            let p = s.subrange(0, i + 1 - start);
            assert(p.drop_last() =~= s.subrange(0, i - start));
            assert(p.last() == c);
            assert(all_digits(p));
        }
        if next > limit {
            proof {
                let p = s.subrange(0, i + 1 - start);
                if all_digits(s) {
                    lemma_digits_value_grows(s, i + 1 - start);
                }
            }
            return None;
        }
        acc = next;
        i += 1;
    }
    proof {
        assert(s.subrange(0, i - start) =~= s);
    }
    Some(acc)
}

/// The integer `b` denotes (see `int_text`), where it lies in `min..=max`.
pub fn parse_int(b: &[u8], signed: bool, min: i128, max: i128) -> (r: Option<i128>)
    requires
        -0x8000_0000_0000_0000 <= min <= 0,
        0 <= max <= 0xffff_ffff_ffff_ffff,
    ensures
        r == (match int_text(b@, signed) {
            Some(v) => if min <= v <= max {
                Some(v as i128)
            } else {
                None
            },
            None => None,
        }),
{
    let n = b.len();
    if n > 0 && (b[0] == 45 || b[0] == 43) {
        proof {
            assert(b@.subrange(1, b@.len() as int) =~= b@.drop_first());
        }
        if n == 1 || (b[0] == 45 && !signed) {
            return None;
        }
        if b[0] == 45 {
            match digits_upto(b, 1, (-min) as u128) {
                Some(v) => Some(-(v as i128)),
                None => None,
            }
        } else {
            match digits_upto(b, 1, max as u128) {
                Some(v) => Some(v as i128),
                None => None,
            }
        }
    } else if n > 0 {
        proof {
            assert(b@.subrange(0, b@.len() as int) =~= b@);
        }
        match digits_upto(b, 0, max as u128) {
            Some(v) => Some(v as i128),
            None => None,
        }
    } else {
        None
    }
}

/// Bytes below 128 are valid UTF-8, each the encoding of the character with its value.
pub proof fn lemma_ascii_text(b: Seq<u8>)
    requires
        forall|i: int| 0 <= i < b.len() ==> #[trigger] b[i] < 128,
    ensures
        valid_utf8(b),
        decode_utf8(b) == b.map_values(|x: u8| x as char),
{
    let chars = b.map_values(|x: u8| x as char);
    assert(is_ascii_chars(chars));
    is_ascii_chars_encode_utf8(chars);
    assert(encode_utf8(chars) =~= b);
    encode_utf8_valid_utf8(chars);
    encode_utf8_decode_utf8(chars);
}

/// Relies on `std::str::from_utf8`: it succeeds exactly on valid UTF-8, and the text it
/// gives back is the one those bytes encode.
#[verifier::external_body]
pub(crate) fn utf8_text<'a>(b: &'a [u8]) -> (r: Option<&'a str>)
    ensures
        r is Some <==> valid_utf8(b@),
        r is Some ==> r->0@ == decode_utf8(b@),
{
    std::str::from_utf8(b).ok()
}

/// Relies on `char::encode_utf8`: the UTF-8 encoding of one character.
#[verifier::external_body]
pub(crate) fn char_utf8(c: char) -> (r: Vec<u8>)
    ensures
        r@ == encode_utf8(seq![c]),
{
    let mut buf = [0u8;4];
    c.encode_utf8(&mut buf).as_bytes().to_vec()
}


/// The digits of a number are decimal digits, at least one, and their value is the number.
pub proof fn lemma_digits(n: nat)
    ensures
        digits(n).len() >= 1,
        all_digits(digits(n)),
        digits_value(digits(n)) == n,
    decreases n,
{
    let d = digits(n);
    if n >= 10 {
        lemma_digits(n / 10);
        assert(d == digits(n / 10).push((48 + n % 10) as u8));
        assert forall|i: int| 0 <= i < d.len() implies 48 <= #[trigger] d[i] <= 57 by {
            if i < d.len() - 1 {
                assert(d[i] == digits(n / 10)[i]);
            }
        }
        assert(d.drop_last() =~= digits(n / 10));
        assert(digits_value(d) == (n / 10) * 10 + n % 10);
        assert((n / 10) * 10 + n % 10 == n) by (nonlinear_arith);
    } else {
        assert(d == seq![(48 + n) as u8]);
        assert(d.drop_last() =~= Seq::<u8>::empty());
        assert(digits_value(Seq::<u8>::empty()) == 0);
        assert(d.last() == (48 + n) as u8);
    }
}

/// The decimal text of an integer reads back as that integer, where a sign is allowed or
/// the integer is not negative.
pub proof fn lemma_decimal_reads(v: int, signed: bool)
    requires
        v >= 0 || signed,
    ensures
        int_text(decimal(v), signed) == Some(v),
        decimal(v).len() >= 1,
        forall|i: int| 0 <= i < decimal(v).len() ==> {
            let b = #[trigger] decimal(v)[i];
            b == 45 || 48 <= b <= 57
        },
        decimal(v)[0] != 32 && !(9 <= decimal(v)[0] <= 13),
        decimal(v).last() != 32 && !(9 <= decimal(v).last() <= 13),
{
    if v < 0 {
        let d = digits((-v) as nat);
        lemma_digits((-v) as nat);
        let t = decimal(v);
        assert(t == seq![45u8] + d);
        assert(t.drop_first() =~= d);
        assert forall|i: int| 0 <= i < t.len() implies {
            let b = #[trigger] t[i];
            b == 45 || 48 <= b <= 57
        } by {
            if i > 0 {
                assert(t[i] == d[i - 1]);
            }
        }
        assert(t.last() == d.last());
    } else {
        lemma_digits(v as nat);
    }
}


/// An ASCII byte at the front is a whole character of its own.
proof fn lemma_valid_ascii_first(a: Seq<u8>)
    requires
        a.len() > 0,
        a[0] < 128,
    ensures
        valid_utf8(a) == valid_utf8(a.drop_first()),
{
    let b = a[0];
    assert((b & 0x7f) == b) by (bit_vector)
        requires
            b < 128,
    ;
    assert(valid_first_scalar(a));
    assert(pop_first_scalar(a) =~= a.drop_first());
}

/// An ASCII byte at the end is a whole character of its own.
proof fn lemma_valid_ascii_last(a: Seq<u8>, x: u8)
    requires
        x < 128,
    ensures
        valid_utf8(a.push(x)) == valid_utf8(a),
    decreases a.len(),
{
    let ax = a.push(x);
    let one = seq![x];
    lemma_valid_ascii_first(one);
    assert(one.drop_first() =~= Seq::<u8>::empty());
    if valid_utf8(a) {
        valid_utf8_concat(a, one);
        assert(a + one =~= ax);
    }
    if valid_utf8(ax) && a.len() > 0 {
        assert(ax[a.len() as int] == x);
        assert(forall|i: int| 0 <= i < a.len() ==> ax[i] == a[i]);
        let l = length_of_first_scalar(ax);
        assert(l <= a.len());
        assert(valid_first_scalar(a));
        assert(length_of_first_scalar(a) == l);
        assert(decode_first_scalar(a) == decode_first_scalar(ax));
        let rest = pop_first_scalar(a);
        assert(pop_first_scalar(ax) =~= rest.push(x));
        lemma_valid_ascii_last(rest, x);
    }
}

/// Removing surrounding whitespace keeps bytes valid UTF-8 or invalid: whitespace is ASCII.
pub proof fn lemma_trim_valid(b: Seq<u8>)
    ensures
        valid_utf8(trim_start(b)) == valid_utf8(b),
        valid_utf8(trim(b)) == valid_utf8(b),
    decreases b.len(),
{
    if b.len() > 0 && is_space(b[0]) {
        lemma_valid_ascii_first(b);
        lemma_trim_valid(b.drop_first());
    }
    lemma_trim_end_valid(trim_start(b));
}

proof fn lemma_trim_end_valid(b: Seq<u8>)
    ensures
        valid_utf8(trim_end(b)) == valid_utf8(b),
    decreases b.len(),
{
    if b.len() > 0 && is_space(b.last()) {
        assert(b.drop_last().push(b.last()) =~= b);
        lemma_valid_ascii_last(b.drop_last(), b.last());
        lemma_trim_end_valid(b.drop_last());
    }
}

} // verus!
