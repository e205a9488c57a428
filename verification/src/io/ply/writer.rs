//! Writing a `.ply` file.

use super::{cell, column_name, file, header_text, property_lines, record, records, COLUMNS};
use crate::math::{lemma_gaussian_view, Gaussian3D};
use crate::num::bytes::put_single;
use crate::num::single::{Single, ZERO};
use crate::num::text::{append_decimal, decimal};
use vstd::prelude::*;
use vstd::utf8::encode_utf8;

verus! {

/// The parameters of each Gaussian.
pub open spec fn params(gs: Seq<Gaussian3D<Single>>) -> Seq<Seq<Single>> {
    Seq::new(gs.len(), |i: int| gs[i]@)
}

fn append_column_name(out: &mut String, i: usize)
    requires
        i < COLUMNS,
    ensures
        final(out)@ == old(out)@ + column_name(i as int),
{
    if i == 0 {
        out.append("x");
    } else if i == 1 {
        out.append("y");
    } else if i == 2 {
        out.append("z");
    } else if i == 3 {
        out.append("nx");
    } else if i == 4 {
        out.append("ny");
    } else if i == 5 {
        out.append("nz");
    } else if i < 9 {
        out.append("f_dc_");
        append_decimal(out, i - 6);
    } else if i < 54 {
        out.append("f_rest_");
        append_decimal(out, i - 9);
    } else if i == 54 {
        out.append("opacity");
    } else if i < 58 {
        out.append("scale_");
        append_decimal(out, i - 55);
    } else {
        out.append("rot_");
        append_decimal(out, i - 58);
    }
    assert(out@ =~= old(out)@ + column_name(i as int));
}

fn header(n: usize) -> (r: String)
    ensures
        r@ == header_text(n as nat),
{
    let mut out = String::new();
    out.append("ply\n");
    out.append("format binary_little_endian 1.0\n");
    out.append("element vertex ");
    append_decimal(&mut out, n);
    out.append("\n");
    let ghost start = "ply\n"@ + "format binary_little_endian 1.0\n"@ + ("element vertex "@
        + decimal(n as nat) + "\n"@);
    assert(out@ =~= start + property_lines(0));
    for i in 0..COLUMNS
        invariant
            out@ == start + property_lines(i as nat),
    {
        out.append("property float ");
        append_column_name(&mut out, i);
        out.append("\n");
        assert(out@ =~= start + (property_lines(i as nat) + ("property float "@ + column_name(
            i as int,
        ) + "\n"@)));
    }
    out.append("end_header\n");
    assert(out@ =~= header_text(n as nat));
    out
}

/// Which value column `i` holds for `g`.
fn column(g: &Gaussian3D<Single>, i: usize) -> (r: Single)
    requires
        i < COLUMNS,
    ensures
        r == cell(g@, i as int),
{
    proof {
        lemma_gaussian_view(*g);
    }
    if i < 3 {
        g.param(i)
    } else if i < 6 {
        Single { bits: ZERO }
    } else if i < 9 {
        g.param(11 + (i - 6) * 16)
    } else if i < 54 {
        g.param(12 + (i - 9) / 15 * 16 + (i - 9) % 15)
    } else if i == 54 {
        g.param(10)
    } else if i < 58 {
        g.param(7 + (i - 55))
    } else {
        g.param(3 + (i - 58))
    }
}

/// The bytes of the `.ply` file for `gaussians`: binary, least significant byte first.
pub fn save_ply(gaussians: &[Gaussian3D<Single>]) -> (r: Vec<u8>)
    ensures
        r@ == file(params(gaussians@)),
{
    let text = header(gaussians.len());
    let mut out: Vec<u8> = text.as_str().as_bytes_vec();
    let ghost gs = params(gaussians@);
    let ghost top = encode_utf8(header_text(gs.len()));
    assert(out@ =~= top + records(gs.take(0)));
    for i in 0..gaussians.len()
        invariant
            gs == params(gaussians@),
            out@ == top + records(gs.take(i as int)),
    {
        let ghost before = out@;
        assert(out@ =~= before + record(gs[i as int], 0));
        for k in 0..COLUMNS
            invariant
                i < gaussians.len(),
                gs == params(gaussians@),
                out@ == before + record(gs[i as int], k as nat),
        {
            let v = column(&gaussians[i], k);
            put_single(&mut out, v);
            assert(out@ =~= before + (record(gs[i as int], k as nat)
                + crate::num::bytes::u32_le(cell(gs[i as int], k as int).bits)));
        }
        assert(gs.take(i + 1).drop_last() =~= gs.take(i as int));
        assert(out@ =~= top + (records(gs.take(i as int)) + record(gs[i as int], COLUMNS as nat)));
    }
    assert(gs.take(gs.len() as int) =~= gs);
    out
}

} // verus!
