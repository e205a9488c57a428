//! What words and numbers are in a text.

use super::text::{
    decimal, digits_value, is_digit, is_word, lemma_decimal, lemma_white_prefix, lemma_word_prefix,
    parsed_usize, white, white_prefix, word_prefix, words,
};
use vstd::prelude::*;

verus! {

/// The characters of a text that are not white.
pub open spec fn visible(s: Seq<char>) -> Seq<char>
    decreases s.len(),
{
    if s.len() == 0 {
        Seq::empty()
    } else if white(s[0]) {
        visible(s.skip(1))
    } else {
        seq![s[0]] + visible(s.skip(1))
    }
}

/// One word after the other.
pub open spec fn joined(ws: Seq<Seq<char>>) -> Seq<char>
    decreases ws.len(),
{
    if ws.len() == 0 {
        Seq::empty()
    } else {
        ws[0] + joined(ws.skip(1))
    }
}

proof fn lemma_white_is_passed(s: Seq<char>, n: int)
    requires
        0 <= n <= s.len(),
        forall|i: int| 0 <= i < n ==> white(#[trigger] s[i]),
    ensures
        visible(s) == visible(s.skip(n)),
    decreases n,
{
    if n == 0 {
        assert(s.skip(0) =~= s);
    } else {
        let t = s.skip(1);
        assert forall|i: int| 0 <= i < n - 1 implies white(#[trigger] t[i]) by {
            assert(t[i] == s[i + 1]);
        }
        assert(white(s[0]));
        lemma_white_is_passed(t, n - 1);
        assert(t.skip(n - 1) =~= s.skip(n));
    }
}

proof fn lemma_word_is_kept(s: Seq<char>, n: int)
    requires
        0 <= n <= s.len(),
        forall|i: int| 0 <= i < n ==> !white(#[trigger] s[i]),
    ensures
        visible(s) == s.take(n) + visible(s.skip(n)),
    decreases n,
{
    if n == 0 {
        assert(s.skip(0) =~= s);
        assert(s.take(0) + visible(s) =~= visible(s));
    } else {
        let t = s.skip(1);
        assert forall|i: int| 0 <= i < n - 1 implies !white(#[trigger] t[i]) by {
            assert(t[i] == s[i + 1]);
        }
        assert(!white(s[0]));
        lemma_word_is_kept(t, n - 1);
        assert(t.skip(n - 1) =~= s.skip(n));
        assert(seq![s[0]] + (t.take(n - 1) + visible(s.skip(n))) =~= s.take(n) + visible(s.skip(n)));
    }
}

/// The words of a text hold all its characters that are not white, in order, and no others; none
/// is empty.
pub proof fn words_are_what_is_not_white(s: Seq<char>)
    ensures
        joined(words(s)) == visible(s),
        forall|i: int| 0 <= i < words(s).len() ==> is_word(#[trigger] words(s)[i]),
    decreases s.len(),
{
    lemma_white_prefix(s);
    let k = white_prefix(s) as int;
    let t = s.skip(k);
    lemma_word_prefix(t);
    let n = word_prefix(t) as int;
    lemma_white_is_passed(s, k);
    lemma_word_is_kept(t, n);
    if 0 < n {
        let rest = t.skip(n);
        words_are_what_is_not_white(rest);
        let w = t.take(n);
        let all = words(s);
        assert(all =~= seq![w] + words(rest));
        assert(all[0] == w);
        assert(all.skip(1) =~= words(rest));
        assert forall|i: int| 0 <= i < all.len() implies is_word(#[trigger] all[i]) by {
            if i > 0 {
                assert(all[i] == words(rest)[i - 1]);
            } else {
                assert forall|j: int| 0 <= j < w.len() implies !white(#[trigger] w[j]) by {
                    assert(w[j] == t[j]);
                }
            }
        }
    } else {
        assert(t.take(0) + visible(t.skip(0)) =~= visible(t));
        assert(t.len() == 0);
    }
}

/// The white characters.
pub proof fn white_characters_are_these(c: char)
    ensures
        white(c) <==> seq![
            '\u{9}',
            '\u{A}',
            '\u{B}',
            '\u{C}',
            '\u{D}',
            '\u{20}',
            '\u{85}',
            '\u{A0}',
            '\u{1680}',
            '\u{2000}',
            '\u{2001}',
            '\u{2002}',
            '\u{2003}',
            '\u{2004}',
            '\u{2005}',
            '\u{2006}',
            '\u{2007}',
            '\u{2008}',
            '\u{2009}',
            '\u{200A}',
            '\u{2028}',
            '\u{2029}',
            '\u{202F}',
            '\u{205F}',
            '\u{3000}',
        ].contains(c),
{
    let all = seq![
        '\u{9}',
        '\u{A}',
        '\u{B}',
        '\u{C}',
        '\u{D}',
        '\u{20}',
        '\u{85}',
        '\u{A0}',
        '\u{1680}',
        '\u{2000}',
        '\u{2001}',
        '\u{2002}',
        '\u{2003}',
        '\u{2004}',
        '\u{2005}',
        '\u{2006}',
        '\u{2007}',
        '\u{2008}',
        '\u{2009}',
        '\u{200A}',
        '\u{2028}',
        '\u{2029}',
        '\u{202F}',
        '\u{205F}',
        '\u{3000}',
    ];
    let u = c as u32;
    if white(c) {
        let i: int = if u <= 0x0D {
            u - 0x09
        } else if u == 0x20 {
            5
        } else if u == 0x85 {
            6
        } else if u == 0xA0 {
            7
        } else if u == 0x1680 {
            8
        } else if u <= 0x200A {
            u - 0x2000 + 9
        } else if u == 0x2028 {
            20
        } else if u == 0x2029 {
            21
        } else if u == 0x202F {
            22
        } else if u == 0x205F {
            23
        } else {
            24
        };
        assert(all[i] == c);
    }
}

/// A number may have a plus before it, and nothing else that is not a digit.
pub proof fn numbers_may_have_a_plus(n: nat, s: Seq<char>)
    ensures
        n <= usize::MAX ==> parsed_usize(decimal(n)) == Some(n) && parsed_usize(seq!['+'] + decimal(n))
            == Some(n),
        n > usize::MAX ==> parsed_usize(decimal(n)) is None,
        parsed_usize(s) is Some ==> s.len() > 0 && (is_digit(s[0]) || s[0] == '+' && s.len() > 1)
            && forall|i: int| 1 <= i < s.len() ==> is_digit(#[trigger] s[i]),
{
    lemma_decimal(n);
    let d = decimal(n);
    assert(is_digit(d[0]));
    let p = seq!['+'] + d;
    assert(p.skip(1) =~= d);
    if parsed_usize(s) is Some {
        if s[0] == '+' {
            assert forall|i: int| 1 <= i < s.len() implies is_digit(#[trigger] s[i]) by {
                assert(s.skip(1)[i - 1] == s[i]);
            }
        }
    }
}

/// The value of digits: each counts ten times as much as the one behind it.
pub proof fn digits_count_tens(s: Seq<char>, d: nat)
    requires
        d < 10,
    ensures
        digits_value(s.push((0x30 + d) as char)) == 10 * digits_value(s) + d,
        digits_value(Seq::<char>::empty()) == 0,
{
    let t = s.push((0x30 + d) as char);
    assert(t.drop_last() =~= s);
}

} // verus!
