//! The order of the columns does not matter, nor do columns that hold no parameter.

use super::laws::column_decides_parameter;
use super::reader::{ascii_gaussian, binary_body, parsed_words, parses_as, reads_as, text_lines};
use super::writer::params;
use super::{
    assigned, binary_gaussian, header, header_line, header_rest, lemma_line_len, line, line_len,
    named_param, no_header, overflows, per_channel, record_cells, rest_below, rest_columns,
    rest_index, scalar, width_sum, Format, HeaderLine, HeaderView, PlyError, PlyFault,
};
use crate::math::{lemma_gaussian_ext, Gaussian3D, PARAMS_PER_GAUSSIAN};
use crate::num::single::Single;
use crate::num::text::words;
use vstd::prelude::*;
use vstd::set_lib::lemma_map_size;
use vstd::utf8::decode_utf8;

verus! {

/// A column of this name holds no parameter, and is no higher coefficient either.
pub open spec fn strange(name: Seq<char>) -> bool {
    named_param(name, 15) is None && rest_index(name) is None
}

/// Which parameter column `i` of `names` holds.
pub open spec fn held(names: Seq<Seq<char>>, i: int) -> Option<int> {
    named_param(names[i], per_channel(names))
}

/// Columns of `names` that hold the same parameter come in the same order at their places.  No
/// two of them do where each parameter has one column.
pub open spec fn in_order(names: Seq<Seq<char>>, place: Seq<int>) -> bool {
    forall|i: int, k: int|
        0 <= i < k < names.len() && #[trigger] held(names, i) is Some && held(names, i)
            == #[trigger] held(names, k) ==> place[i] < place[k]
}

/// Column `i` of `a` stands at `place[i]` in `b`, and what else stands in `b` is strange.
pub open spec fn rearranged(a: HeaderView, b: HeaderView, place: Seq<int>) -> bool {
    &&& b.format == a.format
    &&& b.count == a.count
    &&& place.len() == a.names.len()
    &&& forall|i: int|
        #![trigger place[i]]
        0 <= i < place.len() ==> {
            &&& 0 <= place[i] < b.names.len()
            &&& b.names[place[i]] == a.names[i]
            &&& b.widths[place[i]] == a.widths[i]
        }
    &&& forall|i: int, k: int|
        #![trigger place[i], place[k]]
        0 <= i < place.len() && 0 <= k < place.len() && i != k ==> place[i] != place[k]
    &&& forall|d: int|
        0 <= d < b.names.len() && !place.contains(d) ==> strange(#[trigger] b.names[d])
}

/// The bytes of column `c` of record `i` of a binary body.
pub open spec fn cell_bytes(h: HeaderView, body: Seq<u8>, i: int, c: int) -> Seq<u8> {
    let size = width_sum(h.widths, h.widths.len());
    let off = width_sum(h.widths, c as nat) as int;
    body.subrange(i * size, i * size + size).subrange(off, off + h.widths[c])
}

/// The words of line `i` of an ASCII body.
pub open spec fn cell_words(body: Seq<u8>, i: int) -> Seq<Seq<char>> {
    words(decode_utf8(line(body, i as nat)))
}

/// `body` holds all that the header `h` declares.
pub open spec fn complete(h: HeaderView, body: Seq<u8>) -> bool {
    &&& !overflows(h)
    &&& if h.format == Format::Ascii {
        &&& text_lines(body, h.count)
        &&& forall|i: int|
            0 <= i < h.count ==> (#[trigger] cell_words(body, i)).len() >= h.names.len()
    } else {
        body.len() >= h.count * width_sum(h.widths, h.widths.len())
    }
}

/// Column `c` of Gaussian `i` has in `a` the bytes, or the word, that column `d` has in `b`.
pub open spec fn same_cell(
    a: HeaderView,
    abody: Seq<u8>,
    b: HeaderView,
    bbody: Seq<u8>,
    i: int,
    c: int,
    d: int,
) -> bool {
    if a.format == Format::Ascii {
        cell_words(abody, i)[c] == cell_words(bbody, i)[d]
    } else {
        cell_bytes(a, abody, i, c) == cell_bytes(b, bbody, i, d)
    }
}

/// Every column of every Gaussian of `a` has the same value in `b`.
pub open spec fn same_cells(
    a: HeaderView,
    abody: Seq<u8>,
    b: HeaderView,
    bbody: Seq<u8>,
    place: Seq<int>,
) -> bool {
    forall|i: int, c: int|
        0 <= i < a.count && 0 <= c < a.names.len() ==> #[trigger] same_cell(
            a,
            abody,
            b,
            bbody,
            i,
            c,
            place[c],
        )
}

/// `parse` gives one number for a text.
pub open spec fn one_valued<F: Fn(&str) -> Single>(parse: F) -> bool {
    forall|text: Seq<char>, u: Single, v: Single|
        #![trigger parses_as(parse, text, u), parses_as(parse, text, v)]
        parses_as(parse, text, u) && parses_as(parse, text, v) ==> u == v
}

/// A header gives each column a width.
proof fn lemma_header_rest_widths(data: Seq<u8>, h: HeaderView)
    requires
        h.names.len() == h.widths.len(),
    ensures
        header_rest(data, h) matches Ok(r) ==> r.0.names.len() == r.0.widths.len(),
    decreases data.len(),
{
    let n = line_len(data) as int;
    if data.len() > 0 {
        lemma_line_len(data);
        match header_line(h, words(decode_utf8(data.take(n)))) {
            HeaderLine::Goes(next) => {
                lemma_header_rest_widths(data.skip(n), next);
            },
            _ => {},
        }
    }
}

proof fn lemma_header_widths(data: Seq<u8>)
    ensures
        header(data) matches Ok(r) ==> r.0.names.len() == r.0.widths.len(),
{
    lemma_header_rest_widths(data.skip(line_len(data) as int), no_header());
}

/// Where the columns `f_rest_..` stand.
spec fn rest_places(names: Seq<Seq<char>>) -> Set<int> {
    Set::new(|i: int| 0 <= i < names.len() && rest_index(names[i]) is Some)
}

proof fn lemma_rest_places(names: Seq<Seq<char>>)
    ensures
        rest_places(names).finite(),
        rest_places(names).len() == rest_columns(names),
    decreases names.len(),
{
    if names.len() == 0 {
        assert(rest_places(names) =~= Set::<int>::empty());
    } else {
        let fewer = names.drop_last();
        let n = names.len() - 1;
        lemma_rest_places(fewer);
        assert(forall|i: int| 0 <= i < n ==> fewer[i] == names[i]);
        if rest_index(names.last()) is Some {
            assert(rest_places(names) =~= rest_places(fewer).insert(n));
        } else {
            assert(rest_places(names) =~= rest_places(fewer));
        }
    }
}

/// A file whose columns are rearranged is read as one of the same degree.
proof fn lemma_same_degree(a: HeaderView, b: HeaderView, place: Seq<int>)
    requires
        rearranged(a, b, place),
    ensures
        per_channel(a.names) == per_channel(b.names),
{
    let f = |i: int| place[i];
    let x = rest_places(a.names);
    let y = rest_places(b.names);
    lemma_rest_places(a.names);
    lemma_rest_places(b.names);
    assert forall|d: int| x.map(f).contains(d) <==> #[trigger] y.contains(d) by {
        if x.map(f).contains(d) {
            let i = choose|i: int| x.contains(i) && f(i) == d;
            assert(place[i] == d);
        }
        if y.contains(d) {
            assert(place.contains(d));
            let i = choose|i: int| 0 <= i < place.len() && place[i] == d;
            assert(x.contains(i) && f(i) == d);
        }
    }
    assert(x.map(f) =~= y);
    assert forall|i: int, k: int| x.contains(i) && x.contains(k) && #[trigger] f(i)
        == #[trigger] f(k) implies i == k by {
        assert(place[i] == place[k]);
    }
    lemma_map_size(x, y, f);
    lemma_same_below(a, b, place, 9);
    lemma_same_below(a, b, place, 24);
}

proof fn lemma_same_below(a: HeaderView, b: HeaderView, place: Seq<int>, m: nat)
    requires
        rearranged(a, b, place),
    ensures
        rest_below(a.names, m) == rest_below(b.names, m),
{
    if rest_below(a.names, m) {
        assert forall|d: int| 0 <= d < b.names.len() implies (rest_index(
            #[trigger] b.names[d],
        ) matches Some(idx) ==> idx < m) by {
            if place.contains(d) {
                let i = choose|i: int| 0 <= i < place.len() && place[i] == d;
                assert(b.names[d] == a.names[i]);
            } else {
                assert(strange(b.names[d]));
            }
        }
    }
    if rest_below(b.names, m) {
        assert forall|i: int| 0 <= i < a.names.len() implies (rest_index(
            #[trigger] a.names[i],
        ) matches Some(idx) ==> idx < m) by {
            assert(b.names[place[i]] == a.names[i]);
        }
    }
}

/// The last of the first `n` columns of `names` that holds parameter `j`; -1 if none does.
proof fn lemma_last_column(names: Seq<Seq<char>>, n: nat, j: int) -> (c: int)
    requires
        n <= names.len(),
    ensures
        -1 <= c < n,
        0 <= c ==> held(names, c) == Some(j),
        forall|k: int| 0 <= k < n && c < k ==> #[trigger] held(names, k) != Some(j),
    decreases n,
{
    if n == 0 {
        -1
    } else if held(names, n - 1) == Some(j) {
        n - 1
    } else {
        lemma_last_column(names, (n - 1) as nat, j)
    }
}

/// With the same values in the cells, the same parameters are assigned.
proof fn lemma_same_parameters(
    a: HeaderView,
    acells: Seq<Single>,
    b: HeaderView,
    bcells: Seq<Single>,
    place: Seq<int>,
)
    requires
        rearranged(a, b, place),
        in_order(a.names, place),
        acells.len() >= a.names.len(),
        bcells.len() >= b.names.len(),
        forall|c: int| 0 <= c < a.names.len() ==> bcells[#[trigger] place[c]] == acells[c],
    ensures
        assigned(a.names, acells, a.names.len()) == assigned(b.names, bcells, b.names.len()),
{
    let per = per_channel(a.names);
    lemma_same_degree(a, b, place);
    let p = assigned(a.names, acells, a.names.len());
    let q = assigned(b.names, bcells, b.names.len());
    assert forall|j: int| 0 <= j < PARAMS_PER_GAUSSIAN implies p[j] == q[j] && p.len()
        == PARAMS_PER_GAUSSIAN && q.len() == PARAMS_PER_GAUSSIAN by {
        let c = lemma_last_column(a.names, a.names.len(), j);
        let d = if 0 <= c {
            place[c]
        } else {
            -1
        };
        assert forall|k: int| 0 <= k < a.names.len() && c < k implies named_param(
            #[trigger] a.names[k],
            per,
        ) != Some(j) by {
            assert(held(a.names, k) != Some(j));
        }
        assert forall|k: int| 0 <= k < b.names.len() && d < k implies named_param(
            #[trigger] b.names[k],
            per,
        ) != Some(j) by {
            if place.contains(k) {
                let i = choose|i: int| 0 <= i < place.len() && place[i] == k;
                assert(b.names[k] == a.names[i]);
                if held(a.names, i) == Some(j) && i < c {
                    assert(held(a.names, c) == Some(j));
                    assert(place[i] < place[c]);
                }
                assert(held(a.names, i) != Some(j));
            } else {
                assert(strange(b.names[k]));
            }
        }
        column_decides_parameter(a.names, acells, a.names.len(), j, c);
        column_decides_parameter(b.names, bcells, b.names.len(), j, d);
        assert(assigned(a.names, acells, 0) == assigned(b.names, bcells, 0));
    }
    assert(p[0] == q[0]);
    assert(p =~= q);
}

/// The same Gaussian stands in record `i` of two binary bodies with the same cells.
proof fn lemma_same_record(
    a: HeaderView,
    abody: Seq<u8>,
    b: HeaderView,
    bbody: Seq<u8>,
    place: Seq<int>,
    i: int,
)
    requires
        a.names.len() == a.widths.len(),
        b.names.len() == b.widths.len(),
        rearranged(a, b, place),
        in_order(a.names, place),
        a.format != Format::Ascii,
        same_cells(a, abody, b, bbody, place),
        0 <= i < a.count,
    ensures
        binary_gaussian(a, abody, i) == binary_gaussian(b, bbody, i),
{
    let le = a.format == Format::BinaryLe;
    let asize = width_sum(a.widths, a.widths.len());
    let bsize = width_sum(b.widths, b.widths.len());
    let acells = record_cells(abody.subrange(i * asize, i * asize + asize), a.widths, le);
    let bcells = record_cells(bbody.subrange(i * bsize, i * bsize + bsize), b.widths, le);
    assert forall|c: int| 0 <= c < a.names.len() implies bcells[#[trigger] place[c]]
        == acells[c] by {
        assert(same_cell(a, abody, b, bbody, i, c, place[c]));
        assert(acells[c] == scalar(cell_bytes(a, abody, i, c), a.widths[c], le));
        assert(bcells[place[c]] == scalar(
            cell_bytes(b, bbody, i, place[c]),
            b.widths[place[c]],
            le,
        ));
    }
    lemma_same_parameters(a, acells, b, bcells, place);
}

/// The same Gaussian stands in line `i` of two ASCII bodies with the same words.
proof fn lemma_same_line<F: Fn(&str) -> Single>(
    a: HeaderView,
    abody: Seq<u8>,
    b: HeaderView,
    bbody: Seq<u8>,
    place: Seq<int>,
    parse: F,
    i: int,
    p: Seq<Single>,
    q: Seq<Single>,
)
    requires
        rearranged(a, b, place),
        in_order(a.names, place),
        a.format == Format::Ascii,
        complete(a, abody),
        complete(b, bbody),
        same_cells(a, abody, b, bbody, place),
        one_valued(parse),
        0 <= i < a.count,
        ascii_gaussian(parse, a, abody, i, p),
        ascii_gaussian(parse, b, bbody, i, q),
    ensures
        p == q,
{
    let atext = decode_utf8(line(abody, i as nat));
    let btext = decode_utf8(line(bbody, i as nat));
    let acells = choose|cells: Seq<Single>| #[trigger]
        parsed_words(parse, atext, cells) && p == assigned(a.names, cells, a.names.len());
    let bcells = choose|cells: Seq<Single>| #[trigger]
        parsed_words(parse, btext, cells) && q == assigned(b.names, cells, b.names.len());
    assert(cell_words(abody, i).len() >= a.names.len());
    assert(cell_words(bbody, i).len() >= b.names.len());
    assert forall|c: int| 0 <= c < a.names.len() implies bcells[#[trigger] place[c]]
        == acells[c] by {
        assert(same_cell(a, abody, b, bbody, i, c, place[c]));
        assert(parses_as(parse, words(atext)[c], acells[c]));
        assert(parses_as(parse, words(btext)[place[c]], bcells[place[c]]));
    }
    lemma_same_parameters(a, acells, b, bcells, place);
}

/// Two files of one format and count are read as the same Gaussians if the columns of the
/// first all stand in the second with the same values, wherever that be, and its other columns
/// are strange.  Only columns that hold the same parameter keep their order, as the last of them
/// counts.
pub proof fn column_order_does_not_matter<F: Fn(&str) -> Single>(
    adata: Seq<u8>,
    bdata: Seq<u8>,
    a: HeaderView,
    abody: Seq<u8>,
    b: HeaderView,
    bbody: Seq<u8>,
    place: Seq<int>,
    parse: F,
    p: Result<Vec<Gaussian3D<Single>>, PlyError>,
    q: Result<Vec<Gaussian3D<Single>>, PlyError>,
)
    requires
        header(adata) == Ok::<(HeaderView, Seq<u8>), PlyFault<Seq<char>>>((a, abody)),
        header(bdata) == Ok::<(HeaderView, Seq<u8>), PlyFault<Seq<char>>>((b, bbody)),
        rearranged(a, b, place),
        in_order(a.names, place),
        complete(a, abody),
        complete(b, bbody),
        same_cells(a, abody, b, bbody, place),
        a.format == Format::Ascii ==> one_valued(parse),
        reads_as(adata, parse, p),
        reads_as(bdata, parse, q),
    ensures
        p is Ok,
        q is Ok,
        p->Ok_0@ == q->Ok_0@,
{
    lemma_header_widths(adata);
    lemma_header_widths(bdata);
    let ps = p->Ok_0@;
    let qs = q->Ok_0@;
    if a.format == Format::Ascii {
        assert forall|i: int| 0 <= i < a.count implies ps[i] == qs[i] by {
            lemma_same_line(a, abody, b, bbody, place, parse, i, ps[i]@, qs[i]@);
            lemma_gaussian_ext(ps[i], qs[i]);
        }
    } else {
        assert(params(ps) == binary_body(a, abody)->Ok_0);
        assert(params(qs) == binary_body(b, bbody)->Ok_0);
        assert(params(ps).len() == ps.len() && params(qs).len() == qs.len());
        assert forall|i: int| 0 <= i < a.count implies ps[i] == qs[i] by {
            lemma_same_record(a, abody, b, bbody, place, i);
            assert(params(ps)[i] == ps[i]@);
            assert(params(qs)[i] == qs[i]@);
            lemma_gaussian_ext(ps[i], qs[i]);
        }
    }
    assert(ps =~= qs);
}

} // verus!
