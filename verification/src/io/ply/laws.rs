//! A written file reads back as what was written.

use super::reader::{binary_body, reads_as};
use super::writer::params;
use super::{
    assigned, binary_gaussian, cell, column_name, column_param, file, header, header_line,
    header_rest, lemma_line_len_is, line_len, named_param, no_header, overflows, per_channel,
    property_lines, record, record_cells, records, rest_columns, rest_index, width_sum, Format,
    HeaderLine, HeaderView, PlyError, COLUMNS, GAUSSIAN_BYTES,
};
use crate::math::{lemma_gaussian_ext, lemma_gaussian_view, Gaussian3D, PARAMS_PER_GAUSSIAN};
use crate::num::bytes::{lemma_u32_le_round_trip, u32_le};
use crate::num::single::Single;
use crate::num::text::{
    decimal, digit, is_digit, is_word, lemma_decimal, lemma_decimal_parses, lemma_words_first,
    lemma_words_of_nothing, lemma_words_skip_white, white, words,
};
use vstd::prelude::*;
use vstd::utf8::{
    decode_utf8, encode_utf8, encode_utf8_decode_utf8, encode_utf8_valid_utf8, is_ascii_chars,
    is_ascii_chars_encode_utf8, valid_utf8,
};

verus! {

proof fn lemma_encode_concat(a: Seq<char>, b: Seq<char>)
    ensures
        encode_utf8(a + b) == encode_utf8(a) + encode_utf8(b),
    decreases a.len(),
{
    if a.len() == 0 {
        assert(a + b =~= b);
        assert(encode_utf8(a) + encode_utf8(b) =~= encode_utf8(b));
    } else {
        assert((a + b).drop_first() =~= a.drop_first() + b);
        lemma_encode_concat(a.drop_first(), b);
        assert(encode_utf8(a + b) =~= encode_utf8(a) + encode_utf8(b));
    }
}

/// A line of ASCII text: words, and a line feed at the end alone.
spec fn is_line(c: Seq<char>) -> bool {
    &&& c.len() > 0
    &&& is_ascii_chars(c)
    &&& c.last() == '\n'
    &&& forall|i: int| 0 <= i < c.len() - 1 ==> #[trigger] c[i] != '\n'
}

/// The first line of a text is read as it was written.
proof fn lemma_first_line(c: Seq<char>, rest: Seq<u8>)
    requires
        is_line(c),
    ensures
        ({
            let data = encode_utf8(c) + rest;
            let n = line_len(data) as int;
            &&& n == encode_utf8(c).len()
            &&& data.len() > 0
            &&& valid_utf8(data.take(n))
            &&& decode_utf8(data.take(n)) == c
            &&& data.skip(n) == rest
        }),
{
    let e = encode_utf8(c);
    let data = e + rest;
    is_ascii_chars_encode_utf8(c);
    let n = e.len() as int;
    assert forall|i: int| 0 <= i < n - 1 implies #[trigger] data[i] != 0x0A by {
        assert(data[i] == e[i]);
        assert(c[i] != '\n');
        assert(c[i] as u8 == e[i]);
        assert('\0' <= c[i] <= '\u{7f}');
    }
    assert(data[n - 1] == 0x0A) by {
        assert(data[n - 1] == e[n - 1]);
        assert(c[n - 1] as u8 == e[n - 1]);
    }
    lemma_line_len_is(data, n);
    assert(data.take(n) =~= e);
    assert(data.skip(n) =~= rest);
    encode_utf8_valid_utf8(c);
    encode_utf8_decode_utf8(c);
}

proof fn lemma_words_one(a: Seq<char>)
    requires
        is_word(a),
    ensures
        words(a + seq!['\n']) == seq![a],
{
    let nl = seq!['\n'];
    lemma_words_first(a, nl);
    assert(nl =~= nl + Seq::<char>::empty());
    lemma_words_skip_white('\n', Seq::empty());
    lemma_words_of_nothing();
    assert(words(a + nl) =~= seq![a]);
}

spec fn three(a: Seq<char>, b: Seq<char>, c: Seq<char>) -> Seq<char> {
    a + (seq![' '] + (b + (seq![' '] + (c + seq!['\n']))))
}

proof fn lemma_words_three(a: Seq<char>, b: Seq<char>, c: Seq<char>)
    requires
        is_word(a),
        is_word(b),
        is_word(c),
    ensures
        words(three(a, b, c)) == seq![a, b, c],
{
    let t1 = c + seq!['\n'];
    let t2 = b + (seq![' '] + t1);
    lemma_words_one(c);
    lemma_words_skip_white(' ', t1);
    lemma_words_first(b, seq![' '] + t1);
    lemma_words_skip_white(' ', t2);
    lemma_words_first(a, seq![' '] + t2);
    assert(words(three(a, b, c)) =~= seq![a, b, c]);
}

/// Words of ASCII characters, with a space between and a line feed at the end, are a line.
proof fn lemma_three_is_line(a: Seq<char>, b: Seq<char>, c: Seq<char>)
    requires
        is_word(a),
        is_word(b),
        is_word(c),
        is_ascii_chars(a),
        is_ascii_chars(b),
        is_ascii_chars(c),
    ensures
        is_line(three(a, b, c)),
{
    let t = three(a, b, c);
    let (x, y, z) = (a.len() as int, b.len() as int, c.len() as int);
    assert(t.len() == x + y + z + 3);
    assert forall|i: int| 0 <= i < t.len() implies {
        &&& '\0' <= #[trigger] t[i] <= '\u{7f}'
        &&& i < t.len() - 1 ==> t[i] != '\n'
    } by {
        if i < x {
            assert(t[i] == a[i]);
            assert(!white(a[i]));
        } else if i == x {
        } else if i < x + 1 + y {
            assert(t[i] == b[i - x - 1]);
            assert(!white(b[i - x - 1]));
        } else if i == x + 1 + y {
        } else if i < x + y + z + 2 {
            assert(t[i] == c[i - x - y - 2]);
            assert(!white(c[i - x - y - 2]));
        }
    }
}

// ── column names ────────────────────────────────────────────────────────────────────────

/// Letters and underscores.
spec fn plain(s: Seq<char>) -> bool {
    forall|i: int| 0 <= i < s.len() ==> ('a' <= #[trigger] s[i] <= 'z' || s[i] == '_')
}

proof fn lemma_plain_word(s: Seq<char>)
    requires
        plain(s),
        s.len() > 0,
    ensures
        is_word(s),
        is_ascii_chars(s),
{
    assert forall|i: int| 0 <= i < s.len() implies !white(#[trigger] s[i]) && '\0' <= s[i]
        <= '\u{7f}' by {
        assert('a' <= s[i] <= 'z' || s[i] == '_');
    }
}

proof fn lemma_plain_and_number(s: Seq<char>, n: nat)
    requires
        plain(s),
    ensures
        is_word(s + decimal(n)),
        is_ascii_chars(s + decimal(n)),
{
    lemma_decimal(n);
    let d = decimal(n);
    let t = s + d;
    assert forall|i: int| 0 <= i < t.len() implies !white(#[trigger] t[i]) && '\0' <= t[i]
        <= '\u{7f}' by {
        if i < s.len() {
            assert('a' <= s[i] <= 'z' || s[i] == '_');
        } else {
            assert(is_digit(d[i - s.len()]));
        }
    }
}

proof fn lemma_column_name_is_word(i: int)
    requires
        0 <= i < COLUMNS,
    ensures
        is_word(column_name(i)),
        is_ascii_chars(column_name(i)),
{
    reveal_strlit("x");
    reveal_strlit("y");
    reveal_strlit("z");
    reveal_strlit("nx");
    reveal_strlit("ny");
    reveal_strlit("nz");
    reveal_strlit("f_dc_");
    reveal_strlit("f_rest_");
    reveal_strlit("opacity");
    reveal_strlit("scale_");
    reveal_strlit("rot_");
    assert("f_dc_"@ =~= seq!['f', '_', 'd', 'c', '_']);
    assert("f_rest_"@ =~= seq!['f', '_', 'r', 'e', 's', 't', '_']);
    assert("opacity"@ =~= seq!['o', 'p', 'a', 'c', 'i', 't', 'y']);
    assert("scale_"@ =~= seq!['s', 'c', 'a', 'l', 'e', '_']);
    assert("rot_"@ =~= seq!['r', 'o', 't', '_']);
    assert("nx"@ =~= seq!['n', 'x']);
    assert("ny"@ =~= seq!['n', 'y']);
    assert("nz"@ =~= seq!['n', 'z']);
    if i < 6 {
        lemma_plain_word(column_name(i));
    } else if i < 9 {
        lemma_plain_and_number("f_dc_"@, (i - 6) as nat);
    } else if i < 54 {
        lemma_plain_and_number("f_rest_"@, (i - 9) as nat);
    } else if i == 54 {
        lemma_plain_word(column_name(i));
    } else if i < 58 {
        lemma_plain_and_number("scale_"@, (i - 55) as nat);
    } else {
        lemma_plain_and_number("rot_"@, (i - 58) as nat);
    }
}

// ── the header ──────────────────────────────────────────────────────────────────────────

/// A header line that goes on is read as its effect, then the rest.
proof fn lemma_line_goes(c: Seq<char>, rest: Seq<u8>, h: HeaderView, next: HeaderView)
    requires
        is_line(c),
        header_line(h, words(c)) == HeaderLine::Goes(next),
    ensures
        header_rest(encode_utf8(c) + rest, h) == header_rest(rest, next),
{
    lemma_first_line(c, rest);
}

/// What is declared after the first `k` property lines.
spec fn declared(h: HeaderView, k: nat) -> HeaderView {
    HeaderView {
        names: Seq::new(k, |i: int| column_name(i)),
        widths: Seq::new(k, |i: int| 4nat),
        ..h
    }
}

proof fn lemma_property_line(i: int)
    requires
        0 <= i < COLUMNS,
    ensures
        ({
            let c = "property float "@ + column_name(i) + "\n"@;
            &&& is_line(c)
            &&& words(c) == seq!["property"@, "float"@, column_name(i)]
        }),
{
    let c = "property float "@ + column_name(i) + "\n"@;
    reveal_strlit("property float ");
    reveal_strlit("property");
    reveal_strlit("float");
    reveal_strlit("\n");
    lemma_column_name_is_word(i);
    assert("property"@ =~= seq!['p', 'r', 'o', 'p', 'e', 'r', 't', 'y']);
    assert("float"@ =~= seq!['f', 'l', 'o', 'a', 't']);
    lemma_plain_word("property"@);
    lemma_plain_word("float"@);
    assert(c =~= three("property"@, "float"@, column_name(i)));
    lemma_words_three("property"@, "float"@, column_name(i));
    lemma_three_is_line("property"@, "float"@, column_name(i));
}

proof fn lemma_literals_differ()
    ensures
        "element"@ != "format"@,
        "property"@ != "format"@,
        "property"@ != "element"@,
{
    reveal_strlit("element");
    reveal_strlit("property");
    reveal_strlit("format");
    assert("element"@[0] == 'e');
    assert("property"@[0] == 'p');
    assert("format"@[0] == 'f');
}

proof fn lemma_property_lines(k: nat, rest: Seq<u8>, h: HeaderView)
    requires
        k <= COLUMNS,
        h.names.len() == 0,
        h.widths.len() == 0,
    ensures
        header_rest(encode_utf8(property_lines(k)) + rest, h) == header_rest(rest, declared(h, k)),
    decreases k,
{
    if k == 0 {
        assert(encode_utf8(property_lines(k)) + rest =~= rest);
        assert(declared(h, 0).names =~= h.names);
        assert(declared(h, 0).widths =~= h.widths);
    } else {
        let p = (k - 1) as nat;
        let c = "property float "@ + column_name(k - 1) + "\n"@;
        lemma_encode_concat(property_lines(p), c);
        assert(encode_utf8(property_lines(k)) + rest =~= encode_utf8(property_lines(p)) + (
        encode_utf8(c) + rest));
        lemma_property_lines(p, encode_utf8(c) + rest, h);
        lemma_property_line(k - 1);
        lemma_literals_differ();
        let w = seq!["property"@, "float"@, column_name(k - 1)];
        assert(w[0] == "property"@ && w[1] == "float"@ && w[2] == column_name(k - 1));
        assert(declared(h, p).names.push(column_name(k - 1)) =~= declared(h, k).names);
        assert(declared(h, p).widths.push(4) =~= declared(h, k).widths);
        lemma_line_goes(c, rest, declared(h, p), declared(h, k));
    }
}

proof fn lemma_format_line()
    ensures
        is_line("format binary_little_endian 1.0\n"@),
        words("format binary_little_endian 1.0\n"@) == seq![
            "format"@,
            "binary_little_endian"@,
            "1.0"@,
        ],
{
    let c = "format binary_little_endian 1.0\n"@;
    reveal_strlit("format binary_little_endian 1.0\n");
    reveal_strlit("format");
    reveal_strlit("binary_little_endian");
    reveal_strlit("1.0");
    assert("format"@ =~= seq!['f', 'o', 'r', 'm', 'a', 't']);
    assert("binary_little_endian"@ =~= seq![
        'b', 'i', 'n', 'a', 'r', 'y', '_', 'l', 'i', 't', 't', 'l', 'e', '_', 'e', 'n', 'd', 'i',
        'a', 'n',
    ]);
    assert("1.0"@ =~= seq!['1', '.', '0']);
    lemma_plain_word("format"@);
    lemma_plain_word("binary_little_endian"@);
    assert(is_word("1.0"@));
    assert(is_ascii_chars("1.0"@));
    assert(c =~= three("format"@, "binary_little_endian"@, "1.0"@));
    lemma_words_three("format"@, "binary_little_endian"@, "1.0"@);
    lemma_three_is_line("format"@, "binary_little_endian"@, "1.0"@);
}

proof fn lemma_element_line(n: nat)
    ensures
        ({
            let c = "element vertex "@ + decimal(n) + "\n"@;
            &&& is_line(c)
            &&& words(c) == seq!["element"@, "vertex"@, decimal(n)]
        }),
{
    let c = "element vertex "@ + decimal(n) + "\n"@;
    reveal_strlit("element vertex ");
    reveal_strlit("element");
    reveal_strlit("vertex");
    reveal_strlit("\n");
    lemma_decimal(n);
    assert("element"@ =~= seq!['e', 'l', 'e', 'm', 'e', 'n', 't']);
    assert("vertex"@ =~= seq!['v', 'e', 'r', 't', 'e', 'x']);
    lemma_plain_word("element"@);
    lemma_plain_word("vertex"@);
    assert(c =~= three("element"@, "vertex"@, decimal(n)));
    lemma_words_three("element"@, "vertex"@, decimal(n));
    lemma_three_is_line("element"@, "vertex"@, decimal(n));
}

proof fn lemma_single_lines()
    ensures
        is_line("ply\n"@),
        words("ply\n"@) == seq!["ply"@],
        is_line("end_header\n"@),
        words("end_header\n"@) == seq!["end_header"@],
{
    reveal_strlit("ply\n");
    reveal_strlit("ply");
    reveal_strlit("end_header\n");
    reveal_strlit("end_header");
    assert("ply"@ =~= seq!['p', 'l', 'y']);
    assert("end_header"@ =~= seq!['e', 'n', 'd', '_', 'h', 'e', 'a', 'd', 'e', 'r']);
    lemma_plain_word("ply"@);
    lemma_plain_word("end_header"@);
    assert("ply\n"@ =~= "ply"@ + seq!['\n']);
    assert("end_header\n"@ =~= "end_header"@ + seq!['\n']);
    lemma_words_one("ply"@);
    lemma_words_one("end_header"@);
    assert(forall|i: int| 0 <= i < "ply"@.len() ==> !white(#[trigger] "ply"@[i]));
    assert forall|i: int| 0 <= i < "ply\n"@.len() - 1 implies #[trigger] "ply\n"@[i] != '\n' by {
        assert(!white("ply"@[i]));
    }
    assert forall|i: int| 0 <= i < "end_header\n"@.len() - 1 implies #[trigger] "end_header\n"@[i]
        != '\n' by {
        assert(!white("end_header"@[i]));
    }
    assert forall|i: int| 0 <= i < "end_header\n"@.len() implies '\0'
        <= #[trigger] "end_header\n"@[i] <= '\u{7f}' by {
        if i < "end_header"@.len() {
            assert('\0' <= "end_header"@[i] <= '\u{7f}');
        }
    }
}

/// What the header of a written file declares.
pub open spec fn written_header(n: nat) -> HeaderView {
    HeaderView {
        format: Format::BinaryLe,
        count: n,
        names: Seq::new(COLUMNS as nat, |i: int| column_name(i)),
        widths: Seq::new(COLUMNS as nat, |i: int| 4nat),
    }
}

/// The header of a written file declares its vertices and columns, and the records follow.
pub proof fn written_header_is_read(gs: Seq<Seq<Single>>)
    requires
        gs.len() <= usize::MAX,
    ensures
        header(file(gs)) == Ok::<(HeaderView, Seq<u8>), super::PlyFault<Seq<char>>>(
            (written_header(gs.len()), records(gs)),
        ),
{
    let n = gs.len();
    let l0 = "ply\n"@;
    let l1 = "format binary_little_endian 1.0\n"@;
    let l2 = "element vertex "@ + decimal(n) + "\n"@;
    let l3 = property_lines(COLUMNS as nat);
    let l4 = "end_header\n"@;
    let r = records(gs);
    lemma_encode_concat(l0 + l1 + l2 + l3, l4);
    lemma_encode_concat(l0 + l1 + l2, l3);
    lemma_encode_concat(l0 + l1, l2);
    lemma_encode_concat(l0, l1);
    let d4 = encode_utf8(l4) + r;
    let d3 = encode_utf8(l3) + d4;
    let d2 = encode_utf8(l2) + d3;
    let d1 = encode_utf8(l1) + d2;
    assert(file(gs) =~= encode_utf8(l0) + d1);
    lemma_single_lines();
    lemma_first_line(l0, d1);
    let h0 = no_header();
    let h1 = HeaderView { format: Format::BinaryLe, ..h0 };
    let h2 = HeaderView { count: n, ..h1 };
    lemma_literals_differ();
    lemma_format_line();
    let w1 = seq!["format"@, "binary_little_endian"@, "1.0"@];
    assert(w1[0] == "format"@ && w1[1] == "binary_little_endian"@);
    lemma_line_goes(l1, d2, h0, h1);
    lemma_element_line(n);
    lemma_decimal_parses(n);
    let w2 = seq!["element"@, "vertex"@, decimal(n)];
    assert(w2[0] == "element"@ && w2[1] == "vertex"@ && w2[2] == decimal(n));
    lemma_line_goes(l2, d3, h1, h2);
    lemma_property_lines(COLUMNS as nat, d4, h2);
    let w4 = seq!["end_header"@];
    assert(w4[0] == "end_header"@);
    lemma_first_line(l4, r);
    assert(declared(h2, COLUMNS as nat).names =~= written_header(n).names);
    assert(declared(h2, COLUMNS as nat).widths =~= written_header(n).widths);
}

// ── the body ────────────────────────────────────────────────────────────────────────────

/// The reader knows each written column by its name.
proof fn lemma_column_is_known(i: int)
    requires
        0 <= i < COLUMNS,
    ensures
        named_param(column_name(i), 15) == column_param(i),
        rest_index(column_name(i)) is Some <==> 9 <= i < 54,
{
    reveal_strlit("x");
    reveal_strlit("y");
    reveal_strlit("z");
    reveal_strlit("nx");
    reveal_strlit("ny");
    reveal_strlit("nz");
    reveal_strlit("f_dc_");
    reveal_strlit("f_rest_");
    reveal_strlit("opacity");
    reveal_strlit("scale_");
    reveal_strlit("rot_");
    reveal_strlit("f_dc_0");
    reveal_strlit("f_dc_1");
    reveal_strlit("f_dc_2");
    reveal_strlit("scale_0");
    reveal_strlit("scale_1");
    reveal_strlit("scale_2");
    reveal_strlit("rot_0");
    reveal_strlit("rot_1");
    reveal_strlit("rot_2");
    reveal_strlit("rot_3");
    let name = column_name(i);
    assert("f_rest_"@[0] == 'f' && name.len() >= 7 ==> name.take(7)[0] == name[0]);
    if i < 9 {
        lemma_small_decimals();
        if 6 <= i {
            assert(name =~= seq!['f', '_', 'd', 'c', '_', digit(i - 6)]);
            if i == 6 {
                assert(name =~= "f_dc_0"@);
            } else if i == 7 {
                assert(name[5] == '1' && "f_dc_0"@[5] == '0');
                assert(name =~= "f_dc_1"@);
            } else {
                assert(name[5] == '2' && "f_dc_0"@[5] == '0' && "f_dc_1"@[5] == '1');
                assert(name =~= "f_dc_2"@);
            }
        } else {
            assert("x"@[0] == 'x' && "y"@[0] == 'y' && "z"@[0] == 'z');
        }
    } else if i < 54 {
        let k = (i - 9) as nat;
        lemma_decimal_parses(k);
        assert(name.take(7) =~= "f_rest_"@);
        assert(name.skip(7) =~= decimal(k));
        lemma_decimal(k);
        assert(name[2] == 'r' && name[0] == 'f');
        assert("f_dc_0"@[2] == 'd' && "f_dc_1"@[2] == 'd' && "f_dc_2"@[2] == 'd');
        assert("opacity"@[0] == 'o');
        assert("scale_0"@[0] == 's' && "scale_1"@[0] == 's' && "scale_2"@[0] == 's');
        assert("rot_0"@[0] == 'r' && "rot_1"@[0] == 'r' && "rot_2"@[0] == 'r' && "rot_3"@[0]
            == 'r');
    } else if i < 58 {
        lemma_small_decimals();
        assert("opacity"@[0] == 'o');
        if i > 54 {
            assert(name =~= seq!['s', 'c', 'a', 'l', 'e', '_', digit(i - 55)]);
            if i == 55 {
                assert(name =~= "scale_0"@);
            } else if i == 56 {
                assert(name[6] == '1' && "scale_0"@[6] == '0');
                assert(name =~= "scale_1"@);
            } else {
                assert(name[6] == '2' && "scale_0"@[6] == '0' && "scale_1"@[6] == '1');
                assert(name =~= "scale_2"@);
            }
        }
    } else {
        lemma_small_decimals();
        assert(name =~= seq!['r', 'o', 't', '_', digit(i - 58)]);
        if i == 58 {
            assert(name =~= "rot_0"@);
        } else if i == 59 {
            assert(name[4] == '1' && "rot_0"@[4] == '0');
            assert(name =~= "rot_1"@);
        } else if i == 60 {
            assert(name[4] == '2' && "rot_0"@[4] == '0' && "rot_1"@[4] == '1');
            assert(name =~= "rot_2"@);
        } else {
            assert(name[4] == '3' && "rot_0"@[4] == '0' && "rot_1"@[4] == '1' && "rot_2"@[4]
                == '2');
            assert(name =~= "rot_3"@);
        }
    }
}

/// A written file has fifteen higher coefficients per channel.
proof fn lemma_written_degree(n: nat, k: nat)
    requires
        k <= COLUMNS,
    ensures
        rest_columns(written_header(n).names.take(k as int)) == if k < 9 {
            0
        } else if k < 54 {
            k - 9
        } else {
            45
        },
        k == COLUMNS ==> per_channel(written_header(n).names) == 15,
    decreases k,
{
    let names = written_header(n).names;
    if k > 0 {
        lemma_written_degree(n, (k - 1) as nat);
        lemma_column_is_known(k - 1);
        assert(names.take(k as int).drop_last() =~= names.take(k - 1));
        assert(names.take(k as int).last() == column_name(k - 1));
    }
    if k == COLUMNS {
        assert(names.take(k as int) =~= names);
    }
}

proof fn lemma_small_decimals()
    ensures
        decimal(0) == seq!['0'],
        decimal(1) == seq!['1'],
        decimal(2) == seq!['2'],
        decimal(3) == seq!['3'],
        digit(0) == '0',
        digit(1) == '1',
        digit(2) == '2',
        digit(3) == '3',
{
}

proof fn lemma_record_len(g: Seq<Single>, k: nat)
    ensures
        record(g, k).len() == 4 * k,
    decreases k,
{
    if k > 0 {
        lemma_record_len(g, (k - 1) as nat);
    }
}

/// Each cell of a record lies at four times its column.
proof fn lemma_record_cell(g: Seq<Single>, n: nat, k: int)
    requires
        0 <= k < n,
    ensures
        4 * k + 4 <= record(g, n).len(),
        record(g, n).subrange(4 * k, 4 * k + 4) == u32_le(cell(g, k).bits),
    decreases n,
{
    let p = (n - 1) as nat;
    lemma_record_len(g, p);
    lemma_record_len(g, n);
    if k == p {
        assert(record(g, n).subrange(4 * k, 4 * k + 4) =~= u32_le(cell(g, k).bits));
    } else {
        lemma_record_cell(g, p, k);
        assert(record(g, n).subrange(4 * k, 4 * k + 4) =~= record(g, p).subrange(4 * k, 4 * k + 4));
    }
}

proof fn lemma_records(gs: Seq<Seq<Single>>)
    ensures
        records(gs).len() == 248 * gs.len(),
        forall|i: int|
            0 <= i < gs.len() ==> #[trigger] records(gs).subrange(i * 248, i * 248 + 248) == record(
                gs[i],
                COLUMNS as nat,
            ),
    decreases gs.len(),
{
    if gs.len() > 0 {
        let p = gs.drop_last();
        lemma_records(p);
        lemma_record_len(gs.last(), COLUMNS as nat);
        assert forall|i: int| 0 <= i < gs.len() implies #[trigger] records(gs).subrange(
            i * 248,
            i * 248 + 248,
        ) == record(gs[i], COLUMNS as nat) by {
            if i < p.len() {
                assert(p[i] == gs[i]);
                assert(records(gs).subrange(i * 248, i * 248 + 248) =~= records(p).subrange(
                    i * 248,
                    i * 248 + 248,
                ));
            } else {
                assert(records(gs).subrange(i * 248, i * 248 + 248) =~= record(
                    gs[i],
                    COLUMNS as nat,
                ));
            }
        }
    }
}

proof fn lemma_widths(n: nat, k: nat)
    requires
        k <= COLUMNS,
    ensures
        width_sum(written_header(n).widths, k) == 4 * k,
    decreases k,
{
    if k > 0 {
        lemma_widths(n, (k - 1) as nat);
    }
}

/// The cells that are read from the record of `g`.
spec fn read_cells(g: Seq<Single>) -> Seq<Single> {
    Seq::new(COLUMNS as nat, |k: int| cell(g, k))
}

proof fn lemma_cells(g: Seq<Single>, n: nat)
    ensures
        record_cells(record(g, COLUMNS as nat), written_header(n).widths, true) == read_cells(g),
{
    let b = record(g, COLUMNS as nat);
    let widths = written_header(n).widths;
    assert forall|k: int| 0 <= k < COLUMNS implies record_cells(b, widths, true)[k] == cell(
        g,
        k,
    ) by {
        lemma_widths(n, k as nat);
        lemma_record_cell(g, COLUMNS as nat, k);
        lemma_u32_le_round_trip(cell(g, k).bits);
    }
    assert(record_cells(b, widths, true) =~= read_cells(g));
}

/// The column that holds parameter `j`.
spec fn param_column(j: int) -> int {
    if j < 3 {
        j
    } else if j < 7 {
        58 + (j - 3)
    } else if j < 10 {
        55 + (j - 7)
    } else if j == 10 {
        54
    } else if (j - 11) % 16 == 0 {
        6 + (j - 11) / 16
    } else {
        9 + (j - 11) / 16 * 15 + (j - 11) % 16 - 1
    }
}

proof fn lemma_param_column(j: int)
    requires
        0 <= j < 59,
    ensures
        0 <= param_column(j) < COLUMNS,
        column_param(param_column(j)) == Some(j),
{
}

proof fn lemma_column_param_range(i: int)
    requires
        0 <= i < COLUMNS,
    ensures
        column_param(i) matches Some(j) ==> 0 <= j < 59,
{
}

/// After `k` columns, the parameters that they hold have been read.
proof fn lemma_assigned(g: Seq<Single>, n: nat, k: nat)
    requires
        g.len() == 59,
        k <= COLUMNS,
    ensures
        ({
            let a = assigned(written_header(n).names, read_cells(g), k);
            &&& a.len() == 59
            &&& forall|j: int|
                0 <= j < 59 && #[trigger] param_column(j) < k ==> a[j] == g[j]
        }),
    decreases k,
{
    if k > 0 {
        lemma_assigned(g, n, (k - 1) as nat);
        lemma_written_degree(n, COLUMNS as nat);
        lemma_column_is_known(k - 1);
        lemma_column_param_range(k - 1);
        let a = assigned(written_header(n).names, read_cells(g), k);
        assert forall|j: int| 0 <= j < 59 && #[trigger] param_column(j) < k implies a[j]
            == g[j] by {
            lemma_param_column(j);
        }
    }
}

/// A written file is read back as the parameters that were written, bit for bit: the header
/// is accepted, nothing overflows, and the body gives every Gaussian back in order.
pub proof fn ply_round_trip(gs: Seq<Gaussian3D<Single>>)
    requires
        gs.len() * GAUSSIAN_BYTES <= isize::MAX,
    ensures
        ({
            let h = written_header(gs.len());
            let body = records(params(gs));
            &&& header(file(params(gs))) == Ok::<
                (HeaderView, Seq<u8>),
                super::PlyFault<Seq<char>>,
            >((h, body))
            &&& !overflows(h)
            &&& h.format != Format::Ascii
            &&& binary_body(h, body) == Ok::<Seq<Seq<Single>>, super::PlyFault<Seq<char>>>(
                params(gs),
            )
        }),
{
    let ps = params(gs);
    let n = gs.len();
    let h = written_header(n);
    let body = records(ps);
    assert(ps.len() == n);
    written_header_is_read(ps);
    lemma_widths(n, COLUMNS as nat);
    assert(width_sum(h.widths, h.widths.len()) == 248);
    assert(n * width_sum(h.widths, h.widths.len()) == 248 * n);
    lemma_records(ps);
    assert forall|i: int| 0 <= i < n implies #[trigger] binary_gaussian(h, body, i) == ps[i] by {
        lemma_gaussian_view(gs[i]);
        assert(body.subrange(i * 248, i * 248 + 248) == record(ps[i], COLUMNS as nat));
        lemma_cells(ps[i], n);
        lemma_assigned(ps[i], n, COLUMNS as nat);
        let a = assigned(h.names, read_cells(ps[i]), COLUMNS as nat);
        assert forall|j: int| 0 <= j < 59 implies a[j] == ps[i][j] by {
            lemma_param_column(j);
        }
        assert(a =~= ps[i]);
    }
    assert(Seq::new(h.count, |i: int| binary_gaussian(h, body, i)) =~= ps);
}

/// Columns may come in any order, with others between them: a parameter has the value of the
/// last column that names it, wherever that stands, and stays as in a fresh Gaussian where no
/// column does.
pub proof fn column_decides_parameter(
    names: Seq<Seq<char>>,
    cells: Seq<Single>,
    n: nat,
    j: int,
    c: int,
)
    requires
        n <= names.len(),
        n <= cells.len(),
        0 <= j < PARAMS_PER_GAUSSIAN,
        c < n,
        0 <= c ==> named_param(names[c], per_channel(names)) == Some(j),
        forall|k: int|
            0 <= k < n && c < k ==> named_param(#[trigger] names[k], per_channel(names)) != Some(j),
    ensures
        assigned(names, cells, n).len() == PARAMS_PER_GAUSSIAN,
        assigned(names, cells, n)[j] == if 0 <= c {
            cells[c]
        } else {
            assigned(names, cells, 0)[j]
        },
    decreases n,
{
    if n > 0 {
        let m = (n - 1) as nat;
        lemma_assigned_len(names, cells, m);
        if c < m {
            assert(named_param(names[m as int], per_channel(names)) != Some(j));
            column_decides_parameter(names, cells, m, j, c);
        }
    }
}

proof fn lemma_assigned_len(names: Seq<Seq<char>>, cells: Seq<Single>, n: nat)
    ensures
        assigned(names, cells, n).len() == PARAMS_PER_GAUSSIAN,
    decreases n,
{
    if n > 0 {
        lemma_assigned_len(names, cells, (n - 1) as nat);
    }
}

/// Loading what was saved gives it back, whatever the numbers in it: every Gaussian, in order,
/// bit for bit.
pub proof fn loaded_is_saved<F: Fn(&str) -> Single>(
    gs: Seq<Gaussian3D<Single>>,
    parse: F,
    r: Result<Vec<Gaussian3D<Single>>, PlyError>,
)
    requires
        gs.len() * GAUSSIAN_BYTES <= isize::MAX,
        reads_as(file(params(gs)), parse, r),
    ensures
        r is Ok,
        r->Ok_0@ == gs,
{
    ply_round_trip(gs);
    let loaded = r->Ok_0@;
    assert(params(loaded) == params(gs));
    assert(params(loaded).len() == loaded.len() && params(gs).len() == gs.len());
    assert forall|i: int| 0 <= i < gs.len() implies loaded[i] == gs[i] by {
        assert(params(loaded)[i] == loaded[i]@);
        assert(params(gs)[i] == gs[i]@);
        lemma_gaussian_ext(loaded[i], gs[i]);
    }
    assert(loaded =~= gs);
}

// ── fields and columns ──────────────────────────────────────────────────────────────────

/// What a column of each name means to a reader, with `per` higher coefficients per channel.
pub proof fn names_mean_parameters(per: nat)
    ensures
        named_param("x"@, per) == Some(0int),
        named_param("y"@, per) == Some(1int),
        named_param("z"@, per) == Some(2int),
        named_param("rot_0"@, per) == Some(3int),
        named_param("rot_1"@, per) == Some(4int),
        named_param("rot_2"@, per) == Some(5int),
        named_param("rot_3"@, per) == Some(6int),
        named_param("scale_0"@, per) == Some(7int),
        named_param("scale_1"@, per) == Some(8int),
        named_param("scale_2"@, per) == Some(9int),
        named_param("opacity"@, per) == Some(10int),
        named_param("f_dc_0"@, per) == Some(11int),
        named_param("f_dc_1"@, per) == Some(27int),
        named_param("f_dc_2"@, per) == Some(43int),
{
    reveal_strlit("x");
    reveal_strlit("y");
    reveal_strlit("z");
    reveal_strlit("rot_0");
    reveal_strlit("rot_1");
    reveal_strlit("rot_2");
    reveal_strlit("rot_3");
    reveal_strlit("scale_0");
    reveal_strlit("scale_1");
    reveal_strlit("scale_2");
    reveal_strlit("opacity");
    reveal_strlit("f_dc_0");
    reveal_strlit("f_dc_1");
    reveal_strlit("f_dc_2");
    assert("y"@[0] != "x"@[0] && "z"@[0] != "x"@[0] && "z"@[0] != "y"@[0]);
    assert("rot_1"@[4] != "rot_0"@[4]);
    assert("rot_2"@[4] != "rot_0"@[4] && "rot_2"@[4] != "rot_1"@[4]);
    assert("rot_3"@[4] != "rot_0"@[4] && "rot_3"@[4] != "rot_1"@[4] && "rot_3"@[4] != "rot_2"@[4]);
    assert("scale_1"@[6] != "scale_0"@[6]);
    assert("scale_2"@[6] != "scale_0"@[6] && "scale_2"@[6] != "scale_1"@[6]);
    assert("scale_0"@[0] != "opacity"@[0]);
    assert("scale_1"@[0] != "opacity"@[0]);
    assert("scale_2"@[0] != "opacity"@[0]);
    assert("f_dc_1"@[5] != "f_dc_0"@[5]);
    assert("f_dc_2"@[5] != "f_dc_0"@[5] && "f_dc_2"@[5] != "f_dc_1"@[5]);
}

/// A column `f_rest_k` means coefficient `k` of the higher ones: those of red come first, then
/// those of green and of blue, `per` of each, and further ones mean nothing.
pub proof fn higher_names_mean_coefficients(k: nat, per: nat)
    requires
        k <= usize::MAX,
        0 < per <= 15,
    ensures
        k < per ==> named_param("f_rest_"@ + decimal(k), per) == Some(12 + k as int),
        per <= k < 2 * per ==> named_param("f_rest_"@ + decimal(k), per) == Some(28 + (k - per)),
        2 * per <= k < 3 * per ==> named_param("f_rest_"@ + decimal(k), per) == Some(
            44 + (k - 2 * per),
        ),
        3 * per <= k ==> named_param("f_rest_"@ + decimal(k), per) is None,
{
    let name = "f_rest_"@ + decimal(k);
    lemma_decimal(k);
    lemma_decimal_parses(k);
    reveal_strlit("f_rest_");
    reveal_strlit("x");
    reveal_strlit("y");
    reveal_strlit("z");
    reveal_strlit("rot_0");
    reveal_strlit("rot_1");
    reveal_strlit("rot_2");
    reveal_strlit("rot_3");
    reveal_strlit("scale_0");
    reveal_strlit("scale_1");
    reveal_strlit("scale_2");
    reveal_strlit("opacity");
    reveal_strlit("f_dc_0");
    reveal_strlit("f_dc_1");
    reveal_strlit("f_dc_2");
    assert(name.take(7) =~= "f_rest_"@);
    assert(name.skip(7) =~= decimal(k));
    assert(name.len() > 7);
    if k < per {
        assert(k / per == 0 && k % per == k) by (nonlinear_arith)
            requires
                k < per,
        ;
    } else if k < 2 * per {
        let e = (k - per) as int;
        assert(k / per == 1 && k % per == e) by (nonlinear_arith)
            requires
                per <= k < 2 * per,
                e == k - per,
                0 < per,
        ;
    } else if k < 3 * per {
        let e = (k - 2 * per) as int;
        assert(k / per == 2 && k % per == e) by (nonlinear_arith)
            requires
                2 * per <= k < 3 * per,
                e == k - 2 * per,
                0 < per,
        ;
    } else {
        assert(k / per >= 3) by (nonlinear_arith)
            requires
                3 * per <= k,
                0 < per,
        ;
    }
}

/// In a written file, the value of column `c` of Gaussian `i` stands behind the header, at
/// `248 * i + 4 * c`: first the position, then three zeros, the first coefficient of each
/// channel, the higher ones channel by channel, the opacity, the scales and the rotation.
pub proof fn fields_are_written_in_order(gs: Seq<Gaussian3D<Single>>, i: int)
    requires
        0 <= i < gs.len(),
    ensures
        ({
            let body = records(params(gs));
            let g = gs[i];
            &&& body.len() == 248 * gs.len()
            &&& file(params(gs)) == encode_utf8(super::header_text(gs.len())) + body
            &&& forall|a: int|
                0 <= a < 3 ==> written_at(body, i, a, #[trigger] g.position[a])
            &&& forall|c: int|
                3 <= c < 6 ==> #[trigger] written_at(body, i, c, Single { bits: 0 })
            &&& forall|ch: int|
                0 <= ch < 3 ==> written_at(body, i, 6 + ch, #[trigger] g.sh_coeffs[16 * ch])
            &&& forall|ch: int, k: int|
                0 <= ch < 3 && 1 <= k < 16 ==> written_at(
                    body,
                    i,
                    8 + 15 * ch + k,
                    #[trigger] g.sh_coeffs[16 * ch + k],
                )
            &&& written_at(body, i, 54, g.opacity_logit)
            &&& forall|a: int|
                0 <= a < 3 ==> written_at(body, i, 55 + a, #[trigger] g.log_scale[a])
            &&& forall|a: int|
                0 <= a < 4 ==> written_at(body, i, 58 + a, #[trigger] g.rotation[a])
        }),
{
    let ps = params(gs);
    let body = records(ps);
    let g = gs[i];
    lemma_records(ps);
    lemma_gaussian_view(g);
    assert(ps.len() == gs.len());
    assert(ps[i] == g@);
    assert forall|c: int| 0 <= c < 62 implies #[trigger] written_at(body, i, c, cell(g@, c)) by {
        lemma_written_at(gs, i, c);
    }
    assert forall|a: int| 0 <= a < 3 implies written_at(body, i, a, #[trigger] g.position[a]) by {
        assert(written_at(body, i, a, cell(g@, a)));
    }
    assert forall|c: int| 3 <= c < 6 implies #[trigger] written_at(body, i, c, Single { bits: 0 }) by {
        assert(written_at(body, i, c, cell(g@, c)));
    }
    assert forall|ch: int| 0 <= ch < 3 implies written_at(
        body,
        i,
        6 + ch,
        #[trigger] g.sh_coeffs[16 * ch],
    ) by {
        assert(written_at(body, i, 6 + ch, cell(g@, 6 + ch)));
        assert(g@[11 + 16 * ch] == g.sh_coeffs[16 * ch]);
    }
    assert forall|ch: int, k: int| 0 <= ch < 3 && 1 <= k < 16 implies written_at(
        body,
        i,
        8 + 15 * ch + k,
        #[trigger] g.sh_coeffs[16 * ch + k],
    ) by {
        let c = 8 + 15 * ch + k;
        assert(written_at(body, i, c, cell(g@, c)));
        assert((c - 9) / 15 == ch && (c - 9) % 15 == k - 1);
        assert(g@[11 + (16 * ch + k)] == g.sh_coeffs[16 * ch + k]);
    }
    assert(written_at(body, i, 54, cell(g@, 54)));
    assert forall|a: int| 0 <= a < 3 implies written_at(body, i, 55 + a, #[trigger] g.log_scale[a]) by {
        assert(written_at(body, i, 55 + a, cell(g@, 55 + a)));
    }
    assert forall|a: int| 0 <= a < 4 implies written_at(body, i, 58 + a, #[trigger] g.rotation[a]) by {
        assert(written_at(body, i, 58 + a, cell(g@, 58 + a)));
    }
}

proof fn lemma_written_at(gs: Seq<Gaussian3D<Single>>, i: int, c: int)
    requires
        0 <= i < gs.len(),
        0 <= c < 62,
    ensures
        written_at(records(params(gs)), i, c, cell(gs[i]@, c)),
{
    reveal(written_at);
    let ps = params(gs);
    let body = records(ps);
    lemma_records(ps);
    let b = body.subrange(i * 248, i * 248 + 248);
    assert(b == record(ps[i], COLUMNS as nat));
    let x = cell(gs[i]@, c).bits;
    lemma_record_cell(gs[i]@, COLUMNS as nat, c);
    let w = b.subrange(4 * c, 4 * c + 4);
    assert(w == u32_le(x));
    let at = 248 * i + 4 * c;
    assert(w[0] == body[at] && w[1] == body[at + 1] && w[2] == body[at + 2] && w[3] == body[at
        + 3]);
    lemma_u32_le_round_trip(x);
}

/// Four bytes of a body hold the value `v`, the lowest byte first.
#[verifier::opaque]
pub open spec fn written_at(body: Seq<u8>, i: int, c: int, v: Single) -> bool {
    let at = 248 * i + 4 * c;
    body[at] + 0x100 * body[at + 1] + 0x1_0000 * body[at + 2] + 0x100_0000 * body[at + 3] == v.bits
}

} // verus!
