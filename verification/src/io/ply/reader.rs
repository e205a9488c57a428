//! Reading a `.ply` file.

use super::writer::params;
use super::{
    assigned, binary_gaussian, format_named, header, header_line, header_rest, lemma_line_len, line,
    line_len, line_start, named_param, overflows, per_channel, record_cells, rest_below,
    rest_columns, rest_index, rest_param, scalar, type_width, width_sum, Format, HeaderLine,
    HeaderView, PlyError, PlyFault, GAUSSIAN_BYTES,
};
use crate::math::Gaussian3D;
use crate::num::bytes::{u16_at, u16_of_le, u32_at, u32_of_le, u64_at, u64_of_le};
use crate::num::single::{Double, Single, ZERO};
use crate::num::text::{parse_usize, same_text, split_words, texts, utf8_text, words};
use vstd::prelude::*;
use vstd::slice::slice_subrange;
use vstd::utf8::{decode_utf8, valid_utf8};

verus! {

/// One declared column.
struct Property {
    name: String,
    width: usize,
}

/// What a header declares.
struct Header {
    format: Format,
    count: usize,
    props: Vec<Property>,
}

spec fn prop_names(props: Seq<Property>) -> Seq<Seq<char>> {
    Seq::new(props.len(), |i: int| props[i].name@)
}

spec fn prop_widths(props: Seq<Property>) -> Seq<nat> {
    Seq::new(props.len(), |i: int| props[i].width as nat)
}

impl View for Header {
    type V = HeaderView;

    closed spec fn view(&self) -> HeaderView {
        HeaderView {
            format: self.format,
            count: self.count as nat,
            names: prop_names(self.props@),
            widths: prop_widths(self.props@),
        }
    }
}

/// The end of the line of `data` that begins at `at`.
fn line_end(data: &[u8], at: usize) -> (r: usize)
    requires
        at <= data.len(),
    ensures
        r == at + line_len(data@.skip(at as int)),
        at <= r <= data.len(),
{
    let mut i: usize = at;
    proof {
        lemma_line_len(data@.skip(at as int));
    }
    while i < data.len()
        invariant
            at <= i <= data.len(),
            i + line_len(data@.skip(i as int)) == at + line_len(data@.skip(at as int)),
        decreases data.len() - i,
    {
        let ghost rest = data@.skip(i as int);
        assert(rest.skip(1) =~= data@.skip(i + 1));
        assert(rest[0] == data[i as int]);
        if data[i] == 0x0A {
            return i + 1;
        }
        i = i + 1;
    }
    i
}

fn format_of(name: &str) -> (r: Option<Format>)
    ensures
        r == format_named(name@),
{
    if same_text(name, "binary_little_endian") {
        Some(Format::BinaryLe)
    } else if same_text(name, "binary_big_endian") {
        Some(Format::BinaryBe)
    } else if same_text(name, "ascii") {
        Some(Format::Ascii)
    } else {
        None
    }
}

fn width_of(name: &str) -> (r: Option<usize>)
    ensures
        r is Some == type_width(name@) is Some,
        r matches Some(w) ==> type_width(name@) == Some(w as nat),
{
    if same_text(name, "float") || same_text(name, "float32") {
        Some(4)
    } else if same_text(name, "double") || same_text(name, "float64") {
        Some(8)
    } else if same_text(name, "uchar") || same_text(name, "uint8") || same_text(name, "char")
        || same_text(name, "int8") {
        Some(1)
    } else if same_text(name, "short") || same_text(name, "ushort") || same_text(name, "int16")
        || same_text(name, "uint16") {
        Some(2)
    } else if same_text(name, "int") || same_text(name, "uint") || same_text(name, "int32")
        || same_text(name, "uint32") {
        Some(4)
    } else {
        None
    }
}

/// What the words of a header line do to `h`: whether the header goes on.
fn take_header_line(h: &mut Header, w: &Vec<String>) -> (r: Result<bool, PlyError>)
    ensures
        match header_line(old(h)@, texts(w@)) {
            HeaderLine::Goes(next) => r == Ok::<bool, PlyError>(true) && final(h)@ == next,
            HeaderLine::Ends => r == Ok::<bool, PlyError>(false) && final(h)@ == old(h)@,
            HeaderLine::Fails(e) => r is Err && r->Err_0@ == e,
        },
{
    let ghost before = h@;
    let ghost t = texts(w@);
    assert(t.len() == w.len());
    if w.len() == 3 && same_text(w[0].as_str(), "format") {
        match format_of(w[1].as_str()) {
            Some(format) => {
                h.format = format;
                assert(h@ == HeaderView { format, ..before });
                Ok(true)
            },
            None => Err(PlyFault::UnknownFormat(w[1].clone())),
        }
    } else if w.len() == 3 && same_text(w[0].as_str(), "element") && same_text(
        w[1].as_str(),
        "vertex",
    ) {
        match parse_usize(w[2].as_str()) {
            Some(count) => {
                h.count = count;
                assert(h@ == HeaderView { count: count as nat, ..before });
                Ok(true)
            },
            None => Err(PlyFault::VertexCount),
        }
    } else if w.len() == 3 && same_text(w[0].as_str(), "property") {
        match width_of(w[1].as_str()) {
            Some(width) => {
                h.props.push(Property { name: w[2].clone(), width });
                assert(prop_names(h.props@) =~= before.names.push(t[2]));
                assert(prop_widths(h.props@) =~= before.widths.push(width as nat));
                Ok(true)
            },
            None => Err(PlyFault::UnknownType(w[1].clone())),
        }
    } else {
        Ok(!(w.len() == 1 && same_text(w[0].as_str(), "end_header")))
    }
}

/// The header of `data`, and where the body begins.
fn read_header(data: &[u8]) -> (r: Result<(Header, usize), PlyError>)
    ensures
        match header(data@) {
            Ok((h, body)) => r is Ok && r->Ok_0.0@ == h && r->Ok_0.1 <= data.len() && body
                == data@.skip(r->Ok_0.1 as int),
            Err(e) => r is Err && r->Err_0@ == e,
        },
{
    let mut at: usize = line_end(data, 0);
    assert(data@.skip(0) =~= data@);
    assert(data@.take(at as int) =~= data@.subrange(0, at as int));
    let first = match utf8_text(slice_subrange(data, 0, at)) {
        Some(s) => s,
        None => {
            return Err(PlyFault::NotText);
        },
    };
    let w = split_words(first);
    assert(texts(w@).len() == w.len());
    if w.len() != 1 || !same_text(w[0].as_str(), "ply") {
        proof {
            if w.len() == 1 {
                assert(texts(w@)[0] == w[0]@);
                assert(seq!["ply"@][0] == "ply"@);
            }
        }
        return Err(PlyFault::NotPly);
    }
    assert(texts(w@) =~= seq!["ply"@]);
    let mut h = Header { format: Format::Ascii, count: 0, props: Vec::new() };
    assert(prop_names(h.props@) =~= Seq::<Seq<char>>::empty());
    assert(prop_widths(h.props@) =~= Seq::<nat>::empty());
    while at < data.len()
        invariant
            at <= data.len(),
            header(data@) == header_rest(data@.skip(at as int), h@),
        decreases data.len() - at,
    {
        let ghost rest = data@.skip(at as int);
        proof {
            lemma_line_len(rest);
        }
        let end = line_end(data, at);
        assert(rest.take(end - at) =~= data@.subrange(at as int, end as int));
        assert(rest.skip(end - at) =~= data@.skip(end as int));
        let text = match utf8_text(slice_subrange(data, at, end)) {
            Some(s) => s,
            None => {
                return Err(PlyFault::NotText);
            },
        };
        let w = split_words(text);
        let goes = match take_header_line(&mut h, &w) {
            Ok(goes) => goes,
            Err(e) => {
                return Err(e);
            },
        };
        at = end;
        if !goes {
            return Ok((h, at));
        }
    }
    Err(PlyFault::HeaderEnd)
}

/// The value of the cell of `width` bytes at `at`.
fn decode_scalar(data: &[u8], at: usize, width: usize, le: bool) -> (r: Single)
    requires
        at + width <= data.len(),
    ensures
        r == scalar(data@.subrange(at as int, at + width), width as nat, le),
{
    let ghost b = data@.subrange(at as int, at + width);
    let ghost here = data@.skip(at as int);
    let ghost back = b.reverse();
    if width == 4 {
        if le {
            assert(u32_of_le(here) == u32_of_le(b));
            Single { bits: u32_at(data, at) }
        } else {
            let bits: u32 = data[at + 3] as u32 + 0x100 * data[at + 2] as u32 + 0x1_0000 * data[at
                + 1] as u32 + 0x100_0000 * data[at] as u32;
            assert(back[0] == data[at + 3] && back[1] == data[at + 2] && back[2] == data[at + 1]
                && back[3] == data[at as int]);
            Single { bits }
        }
    } else if width == 8 {
        let bits: u64 = if le {
            assert(here.skip(4)[0] == b.skip(4)[0] && here.skip(4)[1] == b.skip(4)[1]
                && here.skip(4)[2] == b.skip(4)[2] && here.skip(4)[3] == b.skip(4)[3]);
            assert(u32_of_le(here) == u32_of_le(b));
            assert(u64_of_le(here) == u64_of_le(b));
            u64_at(data, at)
        } else {
            let lo: u32 = data[at + 7] as u32 + 0x100 * data[at + 6] as u32 + 0x1_0000 * data[at
                + 5] as u32 + 0x100_0000 * data[at + 4] as u32;
            let hi: u32 = data[at + 3] as u32 + 0x100 * data[at + 2] as u32 + 0x1_0000 * data[at
                + 1] as u32 + 0x100_0000 * data[at] as u32;
            assert(back[0] == data[at + 7] && back[1] == data[at + 6] && back[2] == data[at + 5]
                && back[3] == data[at + 4]);
            assert(back.skip(4)[0] == data[at + 3] && back.skip(4)[1] == data[at + 2]
                && back.skip(4)[2] == data[at + 1] && back.skip(4)[3] == data[at as int]);
            lo as u64 + 0x1_0000_0000 * hi as u64
        };
        (Double { bits }).narrow()
    } else if width == 1 {
        Single::from_u16(data[at] as u16)
    } else if width == 2 {
        let n: u16 = if le {
            assert(u16_of_le(here) == u16_of_le(b));
            u16_at(data, at)
        } else {
            assert(back[0] == data[at + 1] && back[1] == data[at as int]);
            data[at + 1] as u16 + 0x100 * data[at] as u16
        };
        Single::from_u16(n)
    } else {
        Single { bits: ZERO }
    }
}

/// Which parameter a column of this name holds, with `per` higher coefficients per channel.
fn param_of(name: &str, per: usize) -> (r: Option<usize>)
    requires
        0 < per <= 15,
    ensures
        holds_param(r, named_param(name@, per as nat)),
{
    if same_text(name, "x") {
        Some(0)
    } else if same_text(name, "y") {
        Some(1)
    } else if same_text(name, "z") {
        Some(2)
    } else if same_text(name, "f_dc_0") {
        Some(11)
    } else if same_text(name, "f_dc_1") {
        Some(27)
    } else if same_text(name, "f_dc_2") {
        Some(43)
    } else if same_text(name, "opacity") {
        Some(10)
    } else if same_text(name, "scale_0") {
        Some(7)
    } else if same_text(name, "scale_1") {
        Some(8)
    } else if same_text(name, "scale_2") {
        Some(9)
    } else if same_text(name, "rot_0") {
        Some(3)
    } else if same_text(name, "rot_1") {
        Some(4)
    } else if same_text(name, "rot_2") {
        Some(5)
    } else if same_text(name, "rot_3") {
        Some(6)
    } else {
        rest_param_of(name, per)
    }
}

fn rest_param_of(name: &str, per: usize) -> (r: Option<usize>)
    requires
        0 < per <= 15,
    ensures
        holds_param(r, rest_param(name@, per as nat)),
{
    match rest_index_of(name) {
        Some(idx) => {
            let ch = idx / per;
            let k = idx % per;
            if ch < 3 {
                Some(12 + ch * 16 + k)
            } else {
                None
            }
        },
        None => None,
    }
}

/// The number of a column `f_rest_..`.
fn rest_index_of(name: &str) -> (r: Option<usize>)
    ensures
        r is Some == rest_index(name@) is Some,
        r matches Some(idx) ==> rest_index(name@) == Some(idx as nat),
{
    let n = name.unicode_len();
    if n < 7 {
        return None;
    }
    assert(name@.take(7) =~= name@.subrange(0, 7));
    assert(name@.skip(7) =~= name@.subrange(7, n as int));
    if !same_text(name.substring_char(0, 7), "f_rest_") {
        return None;
    }
    parse_usize(name.substring_char(7, n))
}

proof fn lemma_rest_below_push(before: Seq<Seq<char>>, after: Seq<Seq<char>>, m: nat)
    requires
        after.len() > 0,
        after.drop_last() == before,
    ensures
        rest_below(after, m) <==> rest_below(before, m) && (rest_index(after.last()) matches Some(
            idx,
        ) ==> idx < m),
{
    let last = rest_index(after.last()) matches Some(idx) ==> idx < m;
    if rest_below(before, m) && last {
        assert forall|i: int| 0 <= i < after.len() implies (rest_index(
            #[trigger] after[i],
        ) matches Some(idx) ==> idx < m) by {
            if i < before.len() {
                assert(before[i] == after[i]);
            }
        }
    }
    if rest_below(after, m) {
        assert(after[after.len() - 1] == after.last());
        assert forall|i: int| 0 <= i < before.len() implies (rest_index(
            #[trigger] before[i],
        ) matches Some(idx) ==> idx < m) by {
            assert(after[i] == before[i]);
        }
    }
}

/// How many higher coefficients per channel the columns hold.
fn per_channel_of(props: &Vec<Property>) -> (r: usize)
    ensures
        r == per_channel(prop_names(props@)),
        0 < r <= 15,
{
    let ghost names = prop_names(props@);
    let mut count: usize = 0;
    let mut first: bool = true;
    let mut second: bool = true;
    for i in 0..props.len()
        invariant
            names == prop_names(props@),
            count == rest_columns(names.take(i as int)),
            first == rest_below(names.take(i as int), 9),
            second == rest_below(names.take(i as int), 24),
            count <= i,
    {
        let ghost before = names.take(i as int);
        let ghost after = names.take(i + 1);
        assert(after.drop_last() =~= before);
        assert(after.last() == props[i as int].name@);
        if let Some(idx) = rest_index_of(props[i].name.as_str()) {
            count = count + 1;
            first = first && idx < 9;
            second = second && idx < 24;
        }
        assert(first == rest_below(after, 9)) by {
            lemma_rest_below_push(before, after, 9);
        }
        assert(second == rest_below(after, 24)) by {
            lemma_rest_below_push(before, after, 24);
        }
    }
    assert(names.take(props.len() as int) =~= names);
    if count == 9 && first {
        3
    } else if count == 24 && second {
        8
    } else {
        15
    }
}

/// The parameter that each column holds.
fn params_of(props: &Vec<Property>) -> (r: Vec<Option<usize>>)
    ensures
        r.len() == props.len(),
        forall|i: int|
            0 <= i < r.len() ==> holds_column(#[trigger] r[i], prop_names(props@), i),
{
    let per = per_channel_of(props);
    let mut r: Vec<Option<usize>> = Vec::new();
    for i in 0..props.len()
        invariant
            per == per_channel(prop_names(props@)),
            0 < per <= 15,
            r.len() == i,
            forall|j: int| 0 <= j < i ==> holds_column(#[trigger] r[j], prop_names(props@), j),
    {
        r.push(param_of(props[i].name.as_str(), per));
    }
    r
}

spec fn holds_param(r: Option<usize>, p: Option<int>) -> bool {
    &&& r is Some == p is Some
    &&& r matches Some(j) ==> p == Some(j as int) && j < 59
}

/// `r` is the parameter that column `i` of the columns `names` holds.
spec fn holds_column(r: Option<usize>, names: Seq<Seq<char>>, i: int) -> bool {
    holds_param(r, named_param(names[i], per_channel(names)))
}

/// Assembles a Gaussian from the values of the columns.
fn gaussian_from_props(
    slots: &Vec<Option<usize>>,
    cells: &Vec<Single>,
    names: Ghost<Seq<Seq<char>>>,
) -> (g: Gaussian3D<Single>)
    requires
        slots.len() == names@.len(),
        forall|i: int|
            0 <= i < slots.len() ==> holds_column(#[trigger] slots[i], names@, i),
    ensures
        g@ == assigned(names@, cells@, names@.len()),
{
    let zero = Single { bits: ZERO };
    let mut g = Gaussian3D::new([zero, zero, zero]);
    assert([zero, zero, zero]@ =~= seq![zero, zero, zero]);
    for i in 0..slots.len()
        invariant
            slots.len() == names@.len(),
            forall|k: int|
                0 <= k < slots.len() ==> holds_column(#[trigger] slots[k], names@, k),
            g@ == assigned(names@, cells@, i as nat),
    {
        let v = if i < cells.len() {
            cells[i]
        } else {
            Single { bits: ZERO }
        };
        assert(holds_column(slots[i as int], names@, i as int));
        if let Some(j) = slots[i] {
            g.set_param(j, v);
        }
    }
    g
}

/// What a binary body holds: as many records as the header declares.
pub open spec fn binary_body(h: HeaderView, body: Seq<u8>) -> Result<
    Seq<Seq<Single>>,
    PlyFault<Seq<char>>,
> {
    if body.len() < h.count * width_sum(h.widths, h.widths.len()) {
        Err(PlyFault::BodyEnd)
    } else {
        Ok(Seq::new(h.count, |i: int| binary_gaussian(h, body, i)))
    }
}

/// `v` can be what `parse` gives for `text`.
pub open spec fn parses_as<F: Fn(&str) -> Single>(parse: F, text: Seq<char>, v: Single) -> bool {
    exists|word: &str| word@ == text && #[trigger] call_ensures(parse, (word,), v)
}

/// `cells` are what `parse` gives for the words of `text`.
pub open spec fn parsed_words<F: Fn(&str) -> Single>(
    parse: F,
    text: Seq<char>,
    cells: Seq<Single>,
) -> bool {
    &&& cells.len() == words(text).len()
    &&& forall|k: int|
        0 <= k < cells.len() ==> parses_as(parse, words(text)[k], #[trigger] cells[k])
}

/// `g` can be the Gaussian in line `i` of an ASCII body.
pub open spec fn ascii_gaussian<F: Fn(&str) -> Single>(
    parse: F,
    h: HeaderView,
    body: Seq<u8>,
    i: int,
    g: Seq<Single>,
) -> bool {
    exists|cells: Seq<Single>| #[trigger]
        parsed_words(parse, decode_utf8(line(body, i as nat)), cells) && g == assigned(
            h.names,
            cells,
            h.names.len(),
        )
}

/// The first `n` lines are UTF-8.
pub open spec fn text_lines(body: Seq<u8>, n: nat) -> bool {
    forall|i: nat| i < n ==> valid_utf8(#[trigger] line(body, i))
}

fn record_size(props: &Vec<Property>) -> (r: Option<usize>)
    ensures
        ({
            let size = width_sum(prop_widths(props@), props.len() as nat);
            if size > isize::MAX {
                r is None
            } else {
                r == Some(size as usize)
            }
        }),
{
    let ghost widths = prop_widths(props@);
    let mut size: usize = 0;
    for i in 0..props.len()
        invariant
            widths == prop_widths(props@),
            size == width_sum(widths, i as nat),
            size <= isize::MAX,
    {
        let width = props[i].width;
        assert(width == widths[i as int]);
        if width > isize::MAX as usize - size {
            proof {
                lemma_width_sum_grows(widths, (i + 1) as nat, props.len() as nat);
            }
            return None;
        }
        size = size + width;
    }
    Some(size)
}

proof fn lemma_width_sum_grows(widths: Seq<nat>, i: nat, j: nat)
    requires
        i <= j,
    ensures
        width_sum(widths, i) <= width_sum(widths, j),
    decreases j,
{
    if i < j {
        lemma_width_sum_grows(widths, i, (j - 1) as nat);
    }
}

fn read_record(data: &[u8], at: usize, props: &Vec<Property>, le: bool) -> (r: Vec<Single>)
    requires
        at + width_sum(prop_widths(props@), props.len() as nat) <= data.len(),
    ensures
        r@ == record_cells(
            data@.subrange(at as int, at + width_sum(prop_widths(props@), props.len() as nat)),
            prop_widths(props@),
            le,
        ),
{
    let ghost widths = prop_widths(props@);
    let ghost size = width_sum(widths, props.len() as nat);
    let ghost b = data@.subrange(at as int, at + size);
    let mut off: usize = at;
    let mut r: Vec<Single> = Vec::new();
    for i in 0..props.len()
        invariant
            widths == prop_widths(props@),
            size == width_sum(widths, props.len() as nat),
            b == data@.subrange(at as int, at + size),
            at + size <= data.len(),
            off == at + width_sum(widths, i as nat),
            r@ == record_cells(b, widths, le).take(i as int),
    {
        let width = props[i].width;
        proof {
            lemma_width_sum_grows(widths, (i + 1) as nat, props.len() as nat);
            assert(width == widths[i as int]);
            let o = width_sum(widths, i as nat) as int;
            assert(b.subrange(o, o + width) =~= data@.subrange(off as int, off + width));
        }
        let v = decode_scalar(data, off, width, le);
        r.push(v);
        off = off + width;
        assert(record_cells(b, widths, le).take(i + 1) =~= record_cells(b, widths, le).take(
            i as int,
        ).push(v));
    }
    assert(record_cells(b, widths, le).take(props.len() as int) =~= record_cells(b, widths, le));
    r
}

fn read_binary(data: &[u8], start: usize, h: &Header, size: usize) -> (r: Result<
    Vec<Gaussian3D<Single>>,
    PlyError,
>)
    requires
        start <= data.len(),
        size == width_sum(h@.widths, h@.widths.len()),
    ensures
        match binary_body(h@, data@.skip(start as int)) {
            Ok(gs) => r is Ok && params(r->Ok_0@) == gs,
            Err(e) => r is Err && r->Err_0@ == e,
        },
{
    let le = h.format == Format::BinaryLe;
    let slots = params_of(&h.props);
    let ghost body = data@.skip(start as int);
    let ghost all = Seq::new(h@.count, |i: int| binary_gaussian(h@, body, i));
    let mut out: Vec<Gaussian3D<Single>> = Vec::new();
    let mut at: usize = start;
    assert(0 * size == 0) by (nonlinear_arith);
    for i in 0..h.count
        invariant
            start <= at <= data.len(),
            at == start + i * size,
            size == width_sum(h@.widths, h@.widths.len()),
            slots.len() == h@.names.len(),
            forall|k: int|
                0 <= k < slots.len() ==> holds_column(#[trigger] slots[k], h@.names, k),
            le == (h@.format == Format::BinaryLe),
            body == data@.skip(start as int),
            all == Seq::new(h@.count, |i: int| binary_gaussian(h@, body, i)),
            params(out@) == all.take(i as int),
    {
        assert(i * size + size == (i + 1) * size) by (nonlinear_arith);
        if data.len() - at < size {
            proof {
                let c = h@.count as int;
                assert((i + 1) * size <= c * size) by (nonlinear_arith)
                    requires
                        i + 1 <= c,
                        size >= 0,
                ;
            }
            return Err(PlyFault::BodyEnd);
        }
        let cells = read_record(data, at, &h.props, le);
        let g = gaussian_from_props(&slots, &cells, Ghost(h@.names));
        proof {
            assert(body.subrange(i * size, i * size + size) =~= data@.subrange(
                at as int,
                at + size,
            ));
            assert(h@.widths.len() == h.props.len());
            assert(g@ == binary_gaussian(h@, body, i as int));
        }
        let ghost before = out@;
        out.push(g);
        at = at + size;
        assert(params(out@) =~= params(before).push(g@));
        assert(all.take(i + 1) =~= all.take(i as int).push(all[i as int]));
    }
    assert(all.take(h@.count as int) =~= all);
    Ok(out)
}

fn parse_words<F: Fn(&str) -> Single>(w: &Vec<String>, parse: &F) -> (r: Vec<Single>)
    requires
        forall|word: &str| call_requires(*parse, (word,)),
    ensures
        r.len() == w.len(),
        forall|k: int| 0 <= k < r.len() ==> parses_as(*parse, w[k]@, #[trigger] r[k]),
{
    let mut r: Vec<Single> = Vec::new();
    for i in 0..w.len()
        invariant
            forall|word: &str| call_requires(*parse, (word,)),
            r.len() == i,
            forall|k: int| 0 <= k < r.len() ==> parses_as(*parse, w[k]@, #[trigger] r[k]),
    {
        let word: &str = w[i].as_str();
        let v = parse(word);
        assert(call_ensures(*parse, (word,), v));
        r.push(v);
    }
    r
}

fn read_ascii<F: Fn(&str) -> Single>(data: &[u8], start: usize, h: &Header, parse: F) -> (r: Result<
    Vec<Gaussian3D<Single>>,
    PlyError,
>)
    requires
        start <= data.len(),
        forall|word: &str| call_requires(parse, (word,)),
    ensures
        ({
            let body = data@.skip(start as int);
            if text_lines(body, h@.count) {
                &&& r is Ok
                &&& r->Ok_0.len() == h@.count
                &&& forall|i: int|
                    0 <= i < h@.count ==> ascii_gaussian(parse, h@, body, i, #[trigger] r->Ok_0[i]@)
            } else {
                r is Err && r->Err_0@ == PlyFault::<Seq<char>>::NotText
            }
        }),
{
    let slots = params_of(&h.props);
    let ghost body = data@.skip(start as int);
    let mut out: Vec<Gaussian3D<Single>> = Vec::new();
    let mut at: usize = start;
    for i in 0..h.count
        invariant
            start <= at <= data.len(),
            at == start + line_start(body, i as nat),
            body == data@.skip(start as int),
            slots.len() == h@.names.len(),
            forall|k: int|
                0 <= k < slots.len() ==> holds_column(#[trigger] slots[k], h@.names, k),
            forall|word: &str| call_requires(parse, (word,)),
            text_lines(body, i as nat),
            out.len() == i,
            forall|k: int|
                0 <= k < i ==> ascii_gaussian(parse, h@, body, k, #[trigger] out[k]@),
    {
        let end = line_end(data, at);
        proof {
            assert(body.skip(at - start) =~= data@.skip(at as int));
            assert(end == start + line_start(body, (i + 1) as nat));
            assert(line(body, i as nat) =~= data@.subrange(at as int, end as int));
        }
        let text = match utf8_text(slice_subrange(data, at, end)) {
            Some(s) => s,
            None => {
                assert(!valid_utf8(line(body, i as nat)));
                return Err(PlyFault::NotText);
            },
        };
        let w = split_words(text);
        let cells = parse_words(&w, &parse);
        let g = gaussian_from_props(&slots, &cells, Ghost(h@.names));
        proof {
            assert(texts(w@).len() == w.len());
            assert forall|k: int| 0 <= k < cells@.len() implies parses_as(
                parse,
                words(text@)[k],
                #[trigger] cells@[k],
            ) by {
                assert(texts(w@)[k] == w[k]@);
                assert(parses_as(parse, w[k]@, cells[k]));
            }
            assert(parsed_words(parse, decode_utf8(line(body, i as nat)), cells@));
            assert(ascii_gaussian(parse, h@, body, i as int, g@));
        }
        let ghost before = out@;
        out.push(g);
        at = end;
        assert forall|k: int| 0 <= k < i + 1 implies ascii_gaussian(
            parse,
            h@,
            body,
            k,
            #[trigger] out[k]@,
        ) by {
            if k < i {
                assert(out[k] == before[k]);
            }
        }
    }
    Ok(out)
}

/// `r` can be what is read of the file `data`: why its header is refused; what its body holds;
/// or why that is refused.
pub open spec fn reads_as<F: Fn(&str) -> Single>(
    data: Seq<u8>,
    parse: F,
    r: Result<Vec<Gaussian3D<Single>>, PlyError>,
) -> bool {
    match header(data) {
        Err(e) => r is Err && r->Err_0@ == e,
        Ok((h, body)) => if overflows(h) {
            r is Err && r->Err_0@ == PlyFault::<Seq<char>>::CapacityOverflow
        } else if h.format != Format::Ascii {
            match binary_body(h, body) {
                Ok(gs) => r is Ok && params(r->Ok_0@) == gs,
                Err(e) => r is Err && r->Err_0@ == e,
            }
        } else if !text_lines(body, h.count) {
            r is Err && r->Err_0@ == PlyFault::<Seq<char>>::NotText
        } else {
            &&& r is Ok
            &&& r->Ok_0.len() == h.count
            &&& forall|i: int|
                0 <= i < h.count ==> ascii_gaussian(parse, h, body, i, #[trigger] r->Ok_0[i]@)
        },
    }
}

/// Reads the Gaussians of the `.ply` file `data`.  Columns may come in any order, unknown
/// ones are skipped, and the higher coefficients may be those of degree three, two or one, or
/// none.  `parse` reads the decimal numbers of an ASCII body.
pub fn load_ply<F: Fn(&str) -> Single>(data: &[u8], parse: F) -> (r: Result<
    Vec<Gaussian3D<Single>>,
    PlyError,
>)
    requires
        forall|word: &str| call_requires(parse, (word,)),
    ensures
        reads_as(data@, parse, r),
{
    let (h, start) = match read_header(data) {
        Ok(x) => x,
        Err(e) => {
            return Err(e);
        },
    };
    if h.count > isize::MAX as usize / GAUSSIAN_BYTES {
        return Err(PlyFault::CapacityOverflow);
    }
    if h.format == Format::Ascii {
        read_ascii(data, start, &h, parse)
    } else {
        match record_size(&h.props) {
            Some(size) => read_binary(data, start, &h, size),
            None => Err(PlyFault::CapacityOverflow),
        }
    }
}

} // verus!
