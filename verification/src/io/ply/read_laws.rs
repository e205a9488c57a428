//! What a reader makes of columns, numbers and names.

use super::{
    format_named, line, line_len, line_start, overflows, per_channel, rest_below, rest_columns,
    rest_index, scalar, type_width, width_sum, Format, HeaderView,
};
use crate::io::cameras::frame_name;
use crate::math::camera::Camera;
use crate::num::bytes::u64_of_le;
use crate::num::single::{small_integer, Double, Single};
use crate::num::text::{
    all_digits, decimal, digits_value, is_digit, lemma_decimal, lemma_decimal_parses,
    padded_decimal,
};
use vstd::prelude::*;

verus! {

// ── numbers ─────────────────────────────────────────────────────────────────────────────

/// Of a big-endian number the most significant byte comes first, of a little-endian one the
/// least; four bytes are a number as they are, eight are narrowed, one or two are an integer.
pub proof fn bytes_have_their_weights(b: Seq<u8>)
    ensures
        b.len() == 4 ==> {
            &&& scalar(b, 4, true).bits == b[0] + 0x100 * b[1] + 0x1_0000 * b[2] + 0x100_0000 * b[3]
            &&& scalar(b, 4, false).bits == b[3] + 0x100 * b[2] + 0x1_0000 * b[1] + 0x100_0000
                * b[0]
        },
        b.len() == 8 ==> {
            &&& exists|d: Double|
                d.bits == b[0] + 0x100 * b[1] + 0x1_0000 * b[2] + 0x100_0000 * b[3] + 0x1_0000_0000
                    * (b[4] + 0x100 * b[5] + 0x1_0000 * b[6] + 0x100_0000 * b[7])
                    && scalar(b, 8, true) == #[trigger] d.narrowed()
            &&& exists|d: Double|
                d.bits == b[7] + 0x100 * b[6] + 0x1_0000 * b[5] + 0x100_0000 * b[4] + 0x1_0000_0000
                    * (b[3] + 0x100 * b[2] + 0x1_0000 * b[1] + 0x100_0000 * b[0])
                    && scalar(b, 8, false) == #[trigger] d.narrowed()
        },
        b.len() == 1 ==> scalar(b, 1, true) == small_integer(b[0] as nat) && scalar(b, 1, false)
            == small_integer(b[0] as nat),
        b.len() == 2 ==> {
            &&& scalar(b, 2, true) == small_integer((b[0] + 0x100 * b[1]) as nat)
            &&& scalar(b, 2, false) == small_integer((b[1] + 0x100 * b[0]) as nat)
        },
{
    let r = b.reverse();
    if b.len() == 4 {
        assert(r[0] == b[3] && r[1] == b[2] && r[2] == b[1] && r[3] == b[0]);
    }
    if b.len() == 2 {
        assert(r[0] == b[1] && r[1] == b[0]);
    }
    if b.len() == 8 {
        lemma_eight(b);
        assert(r[0] == b[7] && r[1] == b[6] && r[2] == b[5] && r[3] == b[4]);
        assert(r[4] == b[3] && r[5] == b[2] && r[6] == b[1] && r[7] == b[0]);
        lemma_eight(r);
        assert(scalar(b, 8, true) == (Double { bits: u64_of_le(b) }).narrowed());
        assert(scalar(b, 8, false) == (Double { bits: u64_of_le(r) }).narrowed());
    }
}

proof fn lemma_eight(b: Seq<u8>)
    requires
        b.len() == 8,
    ensures
        u64_of_le(b) == b[0] + 0x100 * b[1] + 0x1_0000 * b[2] + 0x100_0000 * b[3] + 0x1_0000_0000
            * (b[4] + 0x100 * b[5] + 0x1_0000 * b[6] + 0x100_0000 * b[7]),
{
    let t = b.skip(4);
    assert(t[0] == b[4] && t[1] == b[5] && t[2] == b[6] && t[3] == b[7]);
}

/// Every type of a property has its width.
pub proof fn types_have_their_width()
    ensures
        type_width("float"@) == Some(4nat),
        type_width("float32"@) == Some(4nat),
        type_width("double"@) == Some(8nat),
        type_width("float64"@) == Some(8nat),
        type_width("char"@) == Some(1nat),
        type_width("uchar"@) == Some(1nat),
        type_width("int8"@) == Some(1nat),
        type_width("uint8"@) == Some(1nat),
        type_width("short"@) == Some(2nat),
        type_width("ushort"@) == Some(2nat),
        type_width("int16"@) == Some(2nat),
        type_width("uint16"@) == Some(2nat),
        type_width("int"@) == Some(4nat),
        type_width("uint"@) == Some(4nat),
        type_width("int32"@) == Some(4nat),
        type_width("uint32"@) == Some(4nat),
{
    reveal_strlit("float");
    reveal_strlit("float32");
    reveal_strlit("double");
    reveal_strlit("float64");
    reveal_strlit("char");
    reveal_strlit("uchar");
    reveal_strlit("int8");
    reveal_strlit("uint8");
    reveal_strlit("short");
    reveal_strlit("ushort");
    reveal_strlit("int16");
    reveal_strlit("uint16");
    reveal_strlit("int");
    reveal_strlit("uint");
    reveal_strlit("int32");
    reveal_strlit("uint32");
    lemma_other_lengths();
}

proof fn lemma_other_lengths()
    ensures
        "float"@.len() == 5 && "float32"@.len() == 7 && "double"@.len() == 6 && "float64"@.len() == 7,
        "char"@.len() == 4 && "uchar"@.len() == 5 && "int8"@.len() == 4 && "uint8"@.len() == 5,
        "short"@.len() == 5 && "ushort"@.len() == 6 && "int16"@.len() == 5 && "uint16"@.len() == 6,
        "int"@.len() == 3 && "uint"@.len() == 4 && "int32"@.len() == 5 && "uint32"@.len() == 6,
        "float"@[0] == 'f' && "uchar"@[0] == 'u' && "uchar"@[1] == 'c' && "uint8"@[1] == 'i',
        "short"@[0] == 's' && "int16"@[0] == 'i' && "int16"@[3] == '1' && "int32"@[3] == '3',
        "float32"@[5] == '3' && "float64"@[5] == '6',
        "double"@[0] == 'd' && "ushort"@[0] == 'u' && "ushort"@[1] == 's' && "uint16"@[1] == 'i',
        "uint16"@[4] == '1' && "uint32"@[4] == '3',
        "char"@[0] == 'c' && "int8"@[0] == 'i' && "uint"@[0] == 'u',
{
    reveal_strlit("float");
    reveal_strlit("float32");
    reveal_strlit("double");
    reveal_strlit("float64");
    reveal_strlit("char");
    reveal_strlit("uchar");
    reveal_strlit("int8");
    reveal_strlit("uint8");
    reveal_strlit("short");
    reveal_strlit("ushort");
    reveal_strlit("int16");
    reveal_strlit("uint16");
    reveal_strlit("int");
    reveal_strlit("uint");
    reveal_strlit("int32");
    reveal_strlit("uint32");
}

/// A body is text, or binary in one of two byte orders; no other format is known.
pub proof fn formats_have_their_names(name: Seq<char>)
    ensures
        format_named("ascii"@) == Some(Format::Ascii),
        format_named("binary_little_endian"@) == Some(Format::BinaryLe),
        format_named("binary_big_endian"@) == Some(Format::BinaryBe),
        name != "ascii"@ && name != "binary_little_endian"@ && name != "binary_big_endian"@
            ==> format_named(name) is None,
{
    reveal_strlit("ascii");
    reveal_strlit("binary_little_endian");
    reveal_strlit("binary_big_endian");
    assert("ascii"@.len() == 5 && "binary_little_endian"@.len() == 20
        && "binary_big_endian"@.len() == 17);
}

// ── degrees ─────────────────────────────────────────────────────────────────────────────

/// The names of the first `n` higher coefficients.
pub open spec fn higher_names(n: nat) -> Seq<Seq<char>> {
    Seq::new(n, |k: int| "f_rest_"@ + decimal(k as nat))
}

proof fn lemma_higher_name(k: nat)
    requires
        k <= usize::MAX,
    ensures
        rest_index("f_rest_"@ + decimal(k)) == Some(k),
{
    let name = "f_rest_"@ + decimal(k);
    lemma_decimal(k);
    lemma_decimal_parses(k);
    reveal_strlit("f_rest_");
    assert(name.take(7) =~= "f_rest_"@);
    assert(name.skip(7) =~= decimal(k));
}

proof fn lemma_none_of(names: Seq<Seq<char>>)
    requires
        forall|i: int| 0 <= i < names.len() ==> rest_index(#[trigger] names[i]) is None,
    ensures
        rest_columns(names) == 0,
    decreases names.len(),
{
    if names.len() > 0 {
        let before = names.drop_last();
        assert forall|i: int| 0 <= i < before.len() implies rest_index(
            #[trigger] before[i],
        ) is None by {
            assert(before[i] == names[i]);
        }
        lemma_none_of(before);
    }
}

proof fn lemma_all_of(other: Seq<Seq<char>>, n: nat)
    requires
        n <= 45,
        forall|i: int| 0 <= i < other.len() ==> rest_index(#[trigger] other[i]) is None,
    ensures
        rest_columns(other + higher_names(n)) == n,
    decreases n,
{
    let names = other + higher_names(n);
    if n == 0 {
        assert(names =~= other);
        lemma_none_of(other);
    } else {
        let m = (n - 1) as nat;
        assert(names.drop_last() =~= other + higher_names(m));
        lemma_all_of(other, m);
        assert(names.last() == "f_rest_"@ + decimal(m));
        lemma_higher_name(m);
    }
}

/// A file that has 9, 24 or 45 higher coefficients, of whatever else it has columns, has 3, 8 or
/// 15 of them in each channel.
pub proof fn degrees_divide_the_coefficients(other: Seq<Seq<char>>, n: nat)
    requires
        forall|i: int| 0 <= i < other.len() ==> rest_index(#[trigger] other[i]) is None,
        n == 9 || n == 24 || n == 45,
    ensures
        n == 9 ==> per_channel(other + higher_names(n)) == 3,
        n == 24 ==> per_channel(other + higher_names(n)) == 8,
        n == 45 ==> per_channel(other + higher_names(n)) == 15,
{
    let names = other + higher_names(n);
    lemma_all_of(other, n);
    assert(rest_below(names, n)) by {
        assert forall|i: int| 0 <= i < names.len() implies (rest_index(#[trigger] names[i]) matches Some(
            idx,
        ) ==> idx < n) by {
            if i < other.len() {
                assert(names[i] == other[i]);
            } else {
                let k = (i - other.len()) as nat;
                assert(names[i] == "f_rest_"@ + decimal(k));
                lemma_higher_name(k);
            }
        }
    }
}

// ── names ───────────────────────────────────────────────────────────────────────────────

proof fn lemma_zeros(k: nat, d: Seq<char>)
    requires
        all_digits(d),
    ensures
        all_digits(Seq::new(k, |i: int| '0') + d),
        digits_value(Seq::new(k, |i: int| '0') + d) == digits_value(d),
    decreases d.len(), k,
{
    let z = Seq::new(k, |i: int| '0');
    let s = z + d;
    assert forall|i: int| 0 <= i < s.len() implies is_digit(#[trigger] s[i]) by {
        if i >= k {
            assert(s[i] == d[i - k]);
        }
    }
    if d.len() > 0 {
        assert(s.drop_last() =~= z + d.drop_last());
        let e = d.drop_last();
        assert forall|i: int| 0 <= i < e.len() implies is_digit(#[trigger] e[i]) by {
            assert(e[i] == d[i]);
        }
        lemma_zeros(k, e);
        assert(s.last() == d.last());
    } else if k > 0 {
        let m = (k - 1) as nat;
        assert(s.drop_last() =~= Seq::new(m, |i: int| '0') + d);
        lemma_zeros(m, d);
        assert(s.last() == '0');
    }
}

proof fn lemma_decimal_len(n: nat, k: nat, top: nat)
    requires
        k >= 1,
        k == 1 ==> top == 10,
        k == 2 ==> top == 100,
        k == 3 ==> top == 1_000,
        k == 4 ==> top == 10_000,
        k == 5 ==> top == 100_000,
        k == 6 ==> top == 1_000_000,
        k <= 6,
        n < top,
    ensures
        decimal(n).len() <= k,
    decreases k,
{
    if n >= 10 {
        lemma_decimal_len(n / 10, (k - 1) as nat, top / 10);
    }
}

/// A frame without a name of its own is named after its number, which has six digits, or more
/// where it needs them.
pub proof fn frames_are_numbered(c: Camera<Single>, i: int) -> (d: Seq<char>)
    requires
        c.image_path is None,
        0 <= i,
    ensures
        frame_name(c, i) == "frame_"@ + d,
        all_digits(d),
        digits_value(d) == i,
        i < 1_000_000 ==> d.len() == 6,
        d.len() >= 6,
{
    let n = i as nat;
    let d = padded_decimal(n, 6);
    lemma_decimal(n);
    if n < 1_000_000 {
        lemma_decimal_len(n, 6, 1_000_000);
    }
    if decimal(n).len() < 6 {
        lemma_zeros((6 - decimal(n).len()) as nat, decimal(n));
    }
    d
}

// ── lines ───────────────────────────────────────────────────────────────────────────────

/// A text of these lines, each with a line feed behind it.
pub open spec fn text_of(ls: Seq<Seq<u8>>) -> Seq<u8>
    decreases ls.len(),
{
    if ls.len() == 0 {
        Seq::empty()
    } else {
        text_of(ls.drop_last()) + ls.last().push(0x0A)
    }
}

/// No line holds a line feed.
pub open spec fn unbroken(ls: Seq<Seq<u8>>) -> bool {
    forall|i: int, j: int| 0 <= i < ls.len() && 0 <= j < ls[i].len() ==> #[trigger] ls[i][j] != 0x0A
}

proof fn lemma_line_ends(l: Seq<u8>, rest: Seq<u8>)
    requires
        forall|j: int| 0 <= j < l.len() ==> #[trigger] l[j] != 0x0A,
    ensures
        line_len(l.push(0x0A) + rest) == l.len() + 1,
    decreases l.len(),
{
    let s = l.push(0x0A) + rest;
    if l.len() > 0 {
        let m = l.skip(1);
        assert forall|j: int| 0 <= j < m.len() implies #[trigger] m[j] != 0x0A by {
            assert(m[j] == l[j + 1]);
        }
        lemma_line_ends(m, rest);
        assert(s[0] == l[0]);
        assert(s.skip(1) =~= m.push(0x0A) + rest);
    } else {
        assert(s[0] == 0x0A);
    }
}

proof fn lemma_line_within(ls: Seq<Seq<u8>>, i: int) -> (rest: Seq<u8>)
    requires
        0 <= i < ls.len(),
    ensures
        text_of(ls) == text_of(ls.take(i)) + (ls[i].push(0x0A) + rest),
    decreases ls.len(),
{
    let before = ls.drop_last();
    if i == ls.len() - 1 {
        assert(ls.take(i) =~= before);
        let none = Seq::<u8>::empty();
        assert(ls.last().push(0x0A) + none =~= ls.last().push(0x0A));
        none
    } else {
        let rest = lemma_line_within(before, i);
        assert(before.take(i) =~= ls.take(i));
        assert(before[i] == ls[i]);
        let more = rest + ls.last().push(0x0A);
        assert(text_of(ls) =~= text_of(ls.take(i)) + (ls[i].push(0x0A) + more));
        more
    }
}

proof fn lemma_line_starts(ls: Seq<Seq<u8>>, i: nat)
    requires
        unbroken(ls),
        i <= ls.len(),
    ensures
        line_start(text_of(ls), i) == text_of(ls.take(i as int)).len(),
    decreases i,
{
    let body = text_of(ls);
    if i == 0 {
        assert(ls.take(0).len() == 0);
    } else {
        let m = (i - 1) as nat;
        lemma_line_starts(ls, m);
        let rest = lemma_line_within(ls, m as int);
        let first = text_of(ls.take(m as int));
        assert(body.skip(first.len() as int) =~= ls[m as int].push(0x0A) + rest);
        lemma_line_ends(ls[m as int], rest);
        assert(ls.take(i as int).drop_last() =~= ls.take(m as int));
        assert(ls.take(i as int).last() == ls[m as int]);
    }
}

/// Line `i` of a text is its `i`-th line, with the line feed behind it.
pub proof fn lines_end_in_line_feeds(ls: Seq<Seq<u8>>, i: nat)
    requires
        unbroken(ls),
        i < ls.len(),
    ensures
        line(text_of(ls), i) == ls[i as int].push(0x0A),
{
    lemma_line_starts(ls, i);
    lemma_line_starts(ls, i + 1);
    let rest = lemma_line_within(ls, i as int);
    let body = text_of(ls);
    let first = text_of(ls.take(i as int));
    assert(ls.take(i as int + 1).drop_last() =~= ls.take(i as int));
    assert(ls.take(i as int + 1).last() == ls[i as int]);
    assert(line(body, i) =~= ls[i as int].push(0x0A));
}

/// A file is refused for its size only if its Gaussians, of 59 numbers each, or one of its records,
/// take more memory than there can be.
pub proof fn files_are_refused_for_their_size(h: HeaderView)
    ensures
        overflows(h) <==> 236 * h.count > isize::MAX || (h.format != Format::Ascii && width_sum(
            h.widths,
            h.widths.len(),
        ) > isize::MAX),
{
}

} // verus!
