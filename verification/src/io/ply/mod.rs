//! The 3DGS `.ply` format.
//!
//! Per vertex: `x y z`, `nx ny nz`, `f_dc_0..2` (degree-0 coefficients of red, green and
//! blue), `f_rest_0..44` (the higher ones, channel by channel), `opacity` (logit),
//! `scale_0..2` (log) and `rot_0..3` (`w x y z`).  A model is written as
//! `binary_little_endian`; either byte order and ASCII are read, and so are models of a lower
//! degree, with 24, 9 or no higher coefficients.

pub mod columns;
pub mod laws;
pub mod read_laws;
pub mod reader;
pub mod writer;

use crate::math::fresh;
use crate::num::bytes::{u16_of_le, u32_le, u32_of_le, u64_of_le};
use crate::num::single::{small_integer, Double, Single, ZERO};
use crate::num::text::{decimal, parsed_usize, words};
use vstd::prelude::*;
use vstd::utf8::{decode_utf8, encode_utf8, valid_utf8};

verus! {

/// How the body of a file is written.
#[derive(Clone, Copy, Debug, PartialEq, Eq, Structural)]
pub enum Format {
    BinaryLe,
    BinaryBe,
    Ascii,
}

/// Why a file is refused.
#[derive(Clone, Debug)]
pub enum PlyFault<S> {
    /// The first line is not `ply`.
    NotPly,
    /// A line is not UTF-8.
    NotText,
    /// The file ends inside the header.
    HeaderEnd,
    /// A `format` line names a format that is not known.
    UnknownFormat(S),
    /// The vertex count is not a number that fits.
    VertexCount,
    /// A `property` line names a type that is not known.
    UnknownType(S),
    /// The header declares more than memory can be asked for.
    CapacityOverflow,
    /// The file ends inside the body.
    BodyEnd,
}

pub type PlyError = PlyFault<String>;

impl View for PlyFault<String> {
    type V = PlyFault<Seq<char>>;

    open spec fn view(&self) -> PlyFault<Seq<char>> {
        match *self {
            PlyFault::NotPly => PlyFault::NotPly,
            PlyFault::NotText => PlyFault::NotText,
            PlyFault::HeaderEnd => PlyFault::HeaderEnd,
            PlyFault::UnknownFormat(s) => PlyFault::UnknownFormat(s@),
            PlyFault::VertexCount => PlyFault::VertexCount,
            PlyFault::UnknownType(s) => PlyFault::UnknownType(s@),
            PlyFault::CapacityOverflow => PlyFault::CapacityOverflow,
            PlyFault::BodyEnd => PlyFault::BodyEnd,
        }
    }
}

// ── columns ─────────────────────────────────────────────────────────────────────────────

/// How many columns a written file has.
pub const COLUMNS: usize = 62;

/// The name of column `i` of a written file.
pub open spec fn column_name(i: int) -> Seq<char> {
    if i == 0 {
        "x"@
    } else if i == 1 {
        "y"@
    } else if i == 2 {
        "z"@
    } else if i == 3 {
        "nx"@
    } else if i == 4 {
        "ny"@
    } else if i == 5 {
        "nz"@
    } else if i < 9 {
        "f_dc_"@ + decimal((i - 6) as nat)
    } else if i < 54 {
        "f_rest_"@ + decimal((i - 9) as nat)
    } else if i == 54 {
        "opacity"@
    } else if i < 58 {
        "scale_"@ + decimal((i - 55) as nat)
    } else {
        "rot_"@ + decimal((i - 58) as nat)
    }
}

/// Which parameter column `i` of a written file holds; the normals hold none.
pub open spec fn column_param(i: int) -> Option<int> {
    if 0 <= i < 3 {
        Some(i)
    } else if i < 6 {
        None
    } else if i < 9 {
        Some(11 + (i - 6) * 16)
    } else if i < 54 {
        Some(12 + (i - 9) / 15 * 16 + (i - 9) % 15)
    } else if i == 54 {
        Some(10)
    } else if i < 58 {
        Some(7 + (i - 55))
    } else if i < 62 {
        Some(3 + (i - 58))
    } else {
        None
    }
}

/// Which parameter a column of this name holds, in a file that is read and has `per`
/// higher coefficients per channel.
pub open spec fn named_param(name: Seq<char>, per: nat) -> Option<int> {
    if name == "x"@ {
        Some(0)
    } else if name == "y"@ {
        Some(1)
    } else if name == "z"@ {
        Some(2)
    } else if name == "f_dc_0"@ {
        Some(11)
    } else if name == "f_dc_1"@ {
        Some(27)
    } else if name == "f_dc_2"@ {
        Some(43)
    } else if name == "opacity"@ {
        Some(10)
    } else if name == "scale_0"@ {
        Some(7)
    } else if name == "scale_1"@ {
        Some(8)
    } else if name == "scale_2"@ {
        Some(9)
    } else if name == "rot_0"@ {
        Some(3)
    } else if name == "rot_1"@ {
        Some(4)
    } else if name == "rot_2"@ {
        Some(5)
    } else if name == "rot_3"@ {
        Some(6)
    } else {
        rest_param(name, per)
    }
}

/// The number of a column `f_rest_..`.
pub open spec fn rest_index(name: Seq<char>) -> Option<nat> {
    if name.len() >= 7 && name.take(7) == "f_rest_"@ {
        parsed_usize(name.skip(7))
    } else {
        None
    }
}

/// Which parameter a column `f_rest_..` holds, with `per` higher coefficients per channel:
/// first those of red, then of green, then of blue.
pub open spec fn rest_param(name: Seq<char>, per: nat) -> Option<int> {
    match rest_index(name) {
        Some(idx) => if idx / per < 3 {
            Some((12 + idx / per * 16 + idx % per) as int)
        } else {
            None
        },
        None => None,
    }
}

/// How many of the columns `names` are numbered `f_rest_..`.
pub open spec fn rest_columns(names: Seq<Seq<char>>) -> nat
    decreases names.len(),
{
    if names.len() == 0 {
        0
    } else {
        rest_columns(names.drop_last()) + if rest_index(names.last()) is Some {
            1nat
        } else {
            0
        }
    }
}

/// The columns `f_rest_..` of `names` have numbers below `m`.
pub open spec fn rest_below(names: Seq<Seq<char>>, m: nat) -> bool {
    forall|i: int|
        0 <= i < names.len() ==> (rest_index(#[trigger] names[i]) matches Some(idx) ==> idx < m)
}

/// How many higher coefficients per channel a file with the columns `names` has: three of
/// degree one, where there are nine columns, numbered below nine; eight of degree two, where
/// there are 24, numbered below 24; and fifteen of degree three.  Columns that belong to no
/// degree are read as those of degree three, of which some are missing.
pub open spec fn per_channel(names: Seq<Seq<char>>) -> nat {
    if rest_columns(names) == 9 && rest_below(names, 9) {
        3
    } else if rest_columns(names) == 24 && rest_below(names, 24) {
        8
    } else {
        15
    }
}

// ── what is written ─────────────────────────────────────────────────────────────────────

/// `property float <name>`, for the first `k` columns.
pub open spec fn property_lines(k: nat) -> Seq<char>
    decreases k,
{
    if k == 0 {
        Seq::empty()
    } else {
        property_lines((k - 1) as nat) + ("property float "@ + column_name(k - 1) + "\n"@)
    }
}

/// The header of a file with `n` vertices.
pub open spec fn header_text(n: nat) -> Seq<char> {
    "ply\n"@ + "format binary_little_endian 1.0\n"@ + ("element vertex "@ + decimal(n) + "\n"@)
        + property_lines(COLUMNS as nat) + "end_header\n"@
}

/// What column `i` holds for the Gaussian with parameters `g`.
pub open spec fn cell(g: Seq<Single>, i: int) -> Single {
    match column_param(i) {
        Some(j) => g[j],
        None => Single { bits: ZERO },
    }
}

/// The first `k` columns of the record of `g`.
pub open spec fn record(g: Seq<Single>, k: nat) -> Seq<u8>
    decreases k,
{
    if k == 0 {
        Seq::empty()
    } else {
        record(g, (k - 1) as nat) + u32_le(cell(g, k - 1).bits)
    }
}

/// The records of the Gaussians, one after the other.
pub open spec fn records(gs: Seq<Seq<Single>>) -> Seq<u8>
    decreases gs.len(),
{
    if gs.len() == 0 {
        Seq::empty()
    } else {
        records(gs.drop_last()) + record(gs.last(), COLUMNS as nat)
    }
}

/// The file for the Gaussians `gs`.
pub open spec fn file(gs: Seq<Seq<Single>>) -> Seq<u8> {
    encode_utf8(header_text(gs.len())) + records(gs)
}

// ── what is read ────────────────────────────────────────────────────────────────────────

/// How many bytes the first line of `data` has, its line feed included.
pub open spec fn line_len(data: Seq<u8>) -> nat
    decreases data.len(),
{
    if data.len() == 0 {
        0
    } else if data[0] == 0x0A {
        1
    } else {
        1 + line_len(data.skip(1))
    }
}

pub proof fn lemma_line_len(data: Seq<u8>)
    ensures
        line_len(data) <= data.len(),
        data.len() > 0 ==> line_len(data) > 0,
        forall|i: int| 0 <= i < line_len(data) - 1 ==> #[trigger] data[i] != 0x0A,
        0 < line_len(data) < data.len() ==> data[line_len(data) - 1] == 0x0A,
    decreases data.len(),
{
    if data.len() > 0 && data[0] != 0x0A {
        lemma_line_len(data.skip(1));
        assert forall|i: int| 0 <= i < line_len(data) - 1 implies #[trigger] data[i] != 0x0A by {
            if i > 0 {
                assert(data.skip(1)[i - 1] == data[i]);
            }
        }
    }
}

/// A line that ends in its only line feed is as long as it is.
pub proof fn lemma_line_len_is(data: Seq<u8>, n: int)
    requires
        0 < n <= data.len(),
        forall|i: int| 0 <= i < n - 1 ==> #[trigger] data[i] != 0x0A,
        n < data.len() ==> data[n - 1] == 0x0A,
    ensures
        line_len(data) == n,
{
    lemma_line_len(data);
    let k = line_len(data) as int;
    if k < n {
        assert(data[k - 1] == 0x0A);
    }
    if n < k {
        assert(data[n - 1] != 0x0A);
    }
}

/// What a header declares.
pub struct HeaderView {
    pub format: Format,
    pub count: nat,
    /// The name of each column.
    pub names: Seq<Seq<char>>,
    /// How many bytes each column has in a binary body.
    pub widths: Seq<nat>,
}

pub open spec fn format_named(name: Seq<char>) -> Option<Format> {
    if name == "binary_little_endian"@ {
        Some(Format::BinaryLe)
    } else if name == "binary_big_endian"@ {
        Some(Format::BinaryBe)
    } else if name == "ascii"@ {
        Some(Format::Ascii)
    } else {
        None
    }
}

/// How many bytes a value of the named type has.
pub open spec fn type_width(name: Seq<char>) -> Option<nat> {
    if name == "float"@ || name == "float32"@ {
        Some(4)
    } else if name == "double"@ || name == "float64"@ {
        Some(8)
    } else if name == "uchar"@ || name == "uint8"@ || name == "char"@ || name == "int8"@ {
        Some(1)
    } else if name == "short"@ || name == "ushort"@ || name == "int16"@ || name == "uint16"@ {
        Some(2)
    } else if name == "int"@ || name == "uint"@ || name == "int32"@ || name == "uint32"@ {
        Some(4)
    } else {
        None
    }
}

/// What a header line does.
pub enum HeaderLine {
    Goes(HeaderView),
    Ends,
    Fails(PlyFault<Seq<char>>),
}

/// The effect of the header line with the words `w`, after the lines that declared `h`.
pub open spec fn header_line(h: HeaderView, w: Seq<Seq<char>>) -> HeaderLine {
    if w.len() == 3 && w[0] == "format"@ {
        match format_named(w[1]) {
            Some(format) => HeaderLine::Goes(HeaderView { format, ..h }),
            None => HeaderLine::Fails(PlyFault::UnknownFormat(w[1])),
        }
    } else if w.len() == 3 && w[0] == "element"@ && w[1] == "vertex"@ {
        match parsed_usize(w[2]) {
            Some(count) => HeaderLine::Goes(HeaderView { count, ..h }),
            None => HeaderLine::Fails(PlyFault::VertexCount),
        }
    } else if w.len() == 3 && w[0] == "property"@ {
        match type_width(w[1]) {
            Some(width) => HeaderLine::Goes(
                HeaderView { names: h.names.push(w[2]), widths: h.widths.push(width), ..h },
            ),
            None => HeaderLine::Fails(PlyFault::UnknownType(w[1])),
        }
    } else if w.len() == 1 && w[0] == "end_header"@ {
        HeaderLine::Ends
    } else {
        HeaderLine::Goes(h)
    }
}

/// The header that the lines of `data` complete, and what follows it.
pub open spec fn header_rest(data: Seq<u8>, h: HeaderView) -> Result<
    (HeaderView, Seq<u8>),
    PlyFault<Seq<char>>,
>
    decreases data.len(),
{
    let n = line_len(data) as int;
    if data.len() == 0 {
        Err(PlyFault::HeaderEnd)
    } else if !valid_utf8(data.take(n)) {
        Err(PlyFault::NotText)
    } else {
        proof {
            lemma_line_len(data);
        }
        match header_line(h, words(decode_utf8(data.take(n)))) {
            HeaderLine::Goes(next) => header_rest(data.skip(n), next),
            HeaderLine::Ends => Ok((h, data.skip(n))),
            HeaderLine::Fails(e) => Err(e),
        }
    }
}

/// What is declared before the first header line.
pub open spec fn no_header() -> HeaderView {
    HeaderView { format: Format::Ascii, count: 0, names: Seq::empty(), widths: Seq::empty() }
}

/// The header of the file `data`, and what follows it.
pub open spec fn header(data: Seq<u8>) -> Result<(HeaderView, Seq<u8>), PlyFault<Seq<char>>> {
    let n = line_len(data) as int;
    if !valid_utf8(data.take(n)) {
        Err(PlyFault::NotText)
    } else if words(decode_utf8(data.take(n))) != seq!["ply"@] {
        Err(PlyFault::NotPly)
    } else {
        header_rest(data.skip(n), no_header())
    }
}

/// The value of a binary cell.  Widths of four and eight are floats of either precision;
/// one and two are unsigned integers.
pub open spec fn scalar(b: Seq<u8>, width: nat, le: bool) -> Single {
    let low = if le {
        b
    } else {
        b.reverse()
    };
    if width == 4 {
        Single { bits: u32_of_le(low) }
    } else if width == 8 {
        (Double { bits: u64_of_le(low) }).narrowed()
    } else if width == 1 {
        small_integer(b[0] as nat)
    } else if width == 2 {
        small_integer(u16_of_le(low) as nat)
    } else {
        Single { bits: ZERO }
    }
}

/// The sum of the first `k` widths.
pub open spec fn width_sum(widths: Seq<nat>, k: nat) -> nat
    decreases k,
{
    if k == 0 {
        0
    } else {
        width_sum(widths, (k - 1) as nat) + widths[k - 1]
    }
}

/// The cells of a binary record.
pub open spec fn record_cells(b: Seq<u8>, widths: Seq<nat>, le: bool) -> Seq<Single> {
    Seq::new(
        widths.len(),
        |k: int|
            {
                let off = width_sum(widths, k as nat) as int;
                scalar(b.subrange(off, off + widths[k]), widths[k], le)
            },
    )
}

/// The parameters after the first `k` columns, named `names`, with the values `cells`.
/// Columns without a value read as zero; a later column of the same name wins.
pub open spec fn assigned(names: Seq<Seq<char>>, cells: Seq<Single>, k: nat) -> Seq<Single>
    decreases k,
{
    if k == 0 {
        let zero = Single { bits: ZERO };
        fresh(seq![zero, zero, zero])
    } else {
        let g = assigned(names, cells, (k - 1) as nat);
        let v = if k <= cells.len() {
            cells[k - 1]
        } else {
            Single { bits: ZERO }
        };
        match named_param(names[k - 1], per_channel(names)) {
            Some(j) => g.update(j, v),
            None => g,
        }
    }
}

/// The Gaussian in record `i` of the binary body `body`.
pub open spec fn binary_gaussian(h: HeaderView, body: Seq<u8>, i: int) -> Seq<Single> {
    let size = width_sum(h.widths, h.widths.len());
    let b = body.subrange(i * size, i * size + size);
    assigned(h.names, record_cells(b, h.widths, h.format == Format::BinaryLe), h.names.len())
}

/// The bytes of one [`crate::math::Gaussian3D`] of binary32 values.
pub const GAUSSIAN_BYTES: usize = 236;

/// Whether the declared vertices, or one record, are more than a buffer can hold.
pub open spec fn overflows(h: HeaderView) -> bool {
    ||| h.count * GAUSSIAN_BYTES > isize::MAX
    ||| h.format != Format::Ascii && width_sum(h.widths, h.widths.len()) > isize::MAX
}

/// Where line `i` of `body` begins; past the last line, the end.
pub open spec fn line_start(body: Seq<u8>, i: nat) -> int
    decreases i,
{
    if i == 0 {
        0
    } else {
        let s = line_start(body, (i - 1) as nat);
        s + line_len(body.skip(s))
    }
}

/// Line `i` of `body`, its line feed included; past the last line, nothing.
pub open spec fn line(body: Seq<u8>, i: nat) -> Seq<u8> {
    body.subrange(line_start(body, i), line_start(body, i + 1))
}

} // verus!
