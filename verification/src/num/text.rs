//! Text: words between white space, decimal numbers, UTF-8.

use vstd::prelude::*;
use vstd::utf8::{decode_utf8, is_ascii_chars, valid_utf8};

verus! {

// ── white space ─────────────────────────────────────────────────────────────────────────

/// The characters with the Unicode property White_Space.
pub open spec fn white(c: char) -> bool {
    let u = c as u32;
    ||| 0x09 <= u <= 0x0D
    ||| u == 0x20
    ||| u == 0x85
    ||| u == 0xA0
    ||| u == 0x1680
    ||| 0x2000 <= u <= 0x200A
    ||| u == 0x2028
    ||| u == 0x2029
    ||| u == 0x202F
    ||| u == 0x205F
    ||| u == 0x3000
}

pub fn is_white(c: char) -> (r: bool)
    ensures
        r == white(c),
{
    let u: u32 = c as u32;
    (0x09 <= u && u <= 0x0D) || u == 0x20 || u == 0x85 || u == 0xA0 || u == 0x1680 || (0x2000 <= u
        && u <= 0x200A) || u == 0x2028 || u == 0x2029 || u == 0x202F || u == 0x205F || u == 0x3000
}

/// How many characters at the front of `s` are white space.
pub open spec fn white_prefix(s: Seq<char>) -> nat
    decreases s.len(),
{
    if s.len() > 0 && white(s[0]) {
        1 + white_prefix(s.skip(1))
    } else {
        0
    }
}

/// How many characters at the front of `s` are not white space.
pub open spec fn word_prefix(s: Seq<char>) -> nat
    decreases s.len(),
{
    if s.len() > 0 && !white(s[0]) {
        1 + word_prefix(s.skip(1))
    } else {
        0
    }
}

pub proof fn lemma_white_prefix(s: Seq<char>)
    ensures
        white_prefix(s) <= s.len(),
        forall|i: int| 0 <= i < white_prefix(s) ==> white(#[trigger] s[i]),
        white_prefix(s) < s.len() ==> !white(s[white_prefix(s) as int]),
    decreases s.len(),
{
    if s.len() > 0 && white(s[0]) {
        lemma_white_prefix(s.skip(1));
        assert forall|i: int| 0 <= i < white_prefix(s) implies white(#[trigger] s[i]) by {
            if i > 0 {
                assert(s.skip(1)[i - 1] == s[i]);
            }
        }
    }
}

pub proof fn lemma_word_prefix(s: Seq<char>)
    ensures
        word_prefix(s) <= s.len(),
        forall|i: int| 0 <= i < word_prefix(s) ==> !white(#[trigger] s[i]),
        word_prefix(s) < s.len() ==> white(s[word_prefix(s) as int]),
    decreases s.len(),
{
    if s.len() > 0 && !white(s[0]) {
        lemma_word_prefix(s.skip(1));
        assert forall|i: int| 0 <= i < word_prefix(s) implies !white(#[trigger] s[i]) by {
            if i > 0 {
                assert(s.skip(1)[i - 1] == s[i]);
            }
        }
    }
}

/// The maximal runs of characters that are not white space, in order.
pub open spec fn words(s: Seq<char>) -> Seq<Seq<char>>
    decreases s.len(),
{
    let t = s.skip(white_prefix(s) as int);
    let n = word_prefix(t);
    if white_prefix(s) <= s.len() && 0 < n <= t.len() {
        seq![t.take(n as int)] + words(t.skip(n as int))
    } else {
        Seq::empty()
    }
}

/// A word holds at least one character, and no white space.
pub open spec fn is_word(w: Seq<char>) -> bool {
    &&& w.len() > 0
    &&& forall|i: int| 0 <= i < w.len() ==> !white(#[trigger] w[i])
}

pub proof fn lemma_white_prefix_is(s: Seq<char>, n: int)
    requires
        0 <= n <= s.len(),
        forall|i: int| 0 <= i < n ==> white(#[trigger] s[i]),
        n < s.len() ==> !white(s[n]),
    ensures
        white_prefix(s) == n,
{
    lemma_white_prefix(s);
    let k = white_prefix(s) as int;
    if k < n {
        assert(white(s[k]));
    }
}

pub proof fn lemma_word_prefix_is(s: Seq<char>, n: int)
    requires
        0 <= n <= s.len(),
        forall|i: int| 0 <= i < n ==> !white(#[trigger] s[i]),
        n < s.len() ==> white(s[n]),
    ensures
        word_prefix(s) == n,
{
    lemma_word_prefix(s);
    let k = word_prefix(s) as int;
    if k < n {
        assert(!white(s[k]));
    }
}

/// The first word of a text is followed by the words of the rest.
pub proof fn lemma_words_first(w: Seq<char>, rest: Seq<char>)
    requires
        is_word(w),
        rest.len() > 0 ==> white(rest[0]),
    ensures
        words(w + rest) == seq![w] + words(rest),
{
    let s = w + rest;
    lemma_white_prefix_is(s, 0);
    assert(s.skip(0) =~= s);
    lemma_word_prefix_is(s, w.len() as int);
    assert(s.take(w.len() as int) =~= w);
    assert(s.skip(w.len() as int) =~= rest);
}

/// White space in front of a text does not change its words.
pub proof fn lemma_words_skip_white(c: char, rest: Seq<char>)
    requires
        white(c),
    ensures
        words(seq![c] + rest) == words(rest),
{
    let s = seq![c] + rest;
    lemma_white_prefix(rest);
    assert(s.skip(1) =~= rest);
    assert(white_prefix(s) == 1 + white_prefix(rest));
    assert(s.skip(white_prefix(s) as int) =~= rest.skip(white_prefix(rest) as int));
}

pub proof fn lemma_words_of_nothing()
    ensures
        words(Seq::<char>::empty()) == Seq::<Seq<char>>::empty(),
{
    let s = Seq::<char>::empty();
    lemma_word_prefix(s.skip(white_prefix(s) as int));
}

/// The characters of `s`.
pub fn chars_of(s: &str) -> (r: Vec<char>)
    ensures
        r@ == s@,
{
    let mut r: Vec<char> = Vec::new();
    for c in it: s.chars()
        invariant
            r@ == it.seq().take(it.index()),
            it.seq() == s@,
    {
        r.push(c);
        assert(it.seq().take(it.index() + 1) =~= it.seq().take(it.index()).push(c));
    }
    r
}

/// Whether two texts are the same.
pub fn same_text(a: &str, b: &str) -> (r: bool)
    ensures
        r == (a@ == b@),
{
    let x = chars_of(a);
    let y = chars_of(b);
    if x.len() != y.len() {
        return false;
    }
    for i in 0..x.len()
        invariant
            x@ == a@,
            y@ == b@,
            x.len() == y.len(),
            forall|j: int| 0 <= j < i ==> x[j] == y[j],
    {
        if x[i] != y[i] {
            return false;
        }
    }
    assert(a@ =~= b@);
    true
}

/// The texts of `v`, each as its characters.
pub open spec fn texts(v: Seq<String>) -> Seq<Seq<char>> {
    Seq::new(v.len(), |i: int| v[i]@)
}

/// The words of `s`.
pub fn split_words(s: &str) -> (r: Vec<String>)
    ensures
        texts(r@) == words(s@),
{
    let chars = chars_of(s);
    let n = chars.len();
    let mut r: Vec<String> = Vec::new();
    let mut i: usize = 0;
    assert(s@.skip(0) =~= s@);
    assert(texts(r@) =~= Seq::<Seq<char>>::empty());
    assert(Seq::<Seq<char>>::empty() + words(s@) =~= words(s@));
    while i < n
        invariant
            0 <= i <= n,
            n == chars.len(),
            chars@ == s@,
            texts(r@) + words(s@.skip(i as int)) == words(s@),
        decreases n - i,
    {
        let ghost rest = s@.skip(i as int);
        if is_white(chars[i]) {
            proof {
                assert(rest =~= seq![rest[0]] + s@.skip(i + 1));
                lemma_words_skip_white(rest[0], s@.skip(i + 1));
            }
            i = i + 1;
        } else {
            let start: usize = i;
            while i < n && !is_white(chars[i])
                invariant
                    start <= i <= n,
                    n == chars.len(),
                    chars@ == s@,
                    start < n,
                    !white(s@[start as int]),
                    forall|j: int| start <= j < i ==> !white(#[trigger] s@[j]),
                ensures
                    start < i <= n,
                    forall|j: int| start <= j < i ==> !white(#[trigger] s@[j]),
                    i < n ==> white(s@[i as int]),
                decreases n - i,
            {
                i = i + 1;
            }
            let word: String = s.substring_char(start, i).to_string();
            let ghost before = texts(r@);
            r.push(word);
            proof {
                let w = s@.subrange(start as int, i as int);
                assert(rest =~= w + s@.skip(i as int));
                lemma_words_first(w, s@.skip(i as int));
                assert(texts(r@) =~= before.push(w));
                assert(before.push(w) + words(s@.skip(i as int)) =~= before + (seq![w] + words(
                    s@.skip(i as int),
                )));
            }
        }
    }
    proof {
        assert(s@.skip(n as int) =~= Seq::<char>::empty());
        lemma_words_of_nothing();
        assert(texts(r@) + Seq::<Seq<char>>::empty() =~= texts(r@));
    }
    r
}

// ── decimal numbers ─────────────────────────────────────────────────────────────────────

pub open spec fn digit(d: int) -> char {
    (0x30 + d) as char
}

/// `n` in decimal, without leading zeros.
pub open spec fn decimal(n: nat) -> Seq<char>
    decreases n,
{
    if n < 10 {
        seq![digit(n as int)]
    } else {
        decimal(n / 10).push(digit((n % 10) as int))
    }
}

/// `n` in decimal, with zeros in front up to `width` characters.
pub open spec fn padded_decimal(n: nat, width: nat) -> Seq<char> {
    let d = decimal(n);
    if d.len() >= width {
        d
    } else {
        Seq::new((width - d.len()) as nat, |i: int| '0') + d
    }
}

pub open spec fn is_digit(c: char) -> bool {
    '0' <= c <= '9'
}

pub open spec fn all_digits(s: Seq<char>) -> bool {
    forall|i: int| 0 <= i < s.len() ==> is_digit(#[trigger] s[i])
}

/// The number that a row of digits stands for.
pub open spec fn digits_value(s: Seq<char>) -> nat
    decreases s.len(),
{
    if s.len() == 0 {
        0
    } else {
        (10 * digits_value(s.drop_last()) + (s.last() as u32 - 0x30)) as nat
    }
}

/// The unsigned machine integer that `s` denotes: digits, after at most one plus sign.
pub open spec fn parsed_usize(s: Seq<char>) -> Option<nat> {
    let d = if s.len() > 0 && s[0] == '+' {
        s.skip(1)
    } else {
        s
    };
    if d.len() > 0 && all_digits(d) && digits_value(d) <= usize::MAX {
        Some(digits_value(d))
    } else {
        None
    }
}

pub proof fn lemma_decimal(n: nat)
    ensures
        decimal(n).len() > 0,
        all_digits(decimal(n)),
        digits_value(decimal(n)) == n,
        is_word(decimal(n)),
        is_ascii_chars(decimal(n)),
    decreases n,
{
    if n >= 10 {
        lemma_decimal(n / 10);
        let d = decimal(n);
        assert(d.drop_last() =~= decimal(n / 10));
        assert(d.last() == digit((n % 10) as int));
        assert forall|i: int| 0 <= i < d.len() implies is_digit(#[trigger] d[i]) by {
            if i < d.len() - 1 {
                assert(d[i] == decimal(n / 10)[i]);
            }
        }
    } else {
        let d = decimal(n);
        assert(d.drop_last() =~= Seq::<char>::empty());
        assert(digits_value(d.drop_last()) == 0);
    }
    let d = decimal(n);
    assert forall|i: int| 0 <= i < d.len() implies !white(#[trigger] d[i]) by {
        assert(is_digit(d[i]));
    }
    assert forall|i: int| 0 <= i < d.len() implies '\0' <= #[trigger] d[i] <= '\u{7f}' by {
        assert(is_digit(d[i]));
    }
}

/// Reading back a number that was written in decimal.
pub proof fn lemma_decimal_parses(n: nat)
    requires
        n <= usize::MAX,
    ensures
        parsed_usize(decimal(n)) == Some(n),
{
    lemma_decimal(n);
    assert(is_digit(decimal(n)[0]));
}

pub proof fn lemma_digits_value_prefix(s: Seq<char>, k: int)
    requires
        0 <= k <= s.len(),
        all_digits(s),
    ensures
        digits_value(s.take(k)) <= digits_value(s),
    decreases s.len(),
{
    if k < s.len() {
        assert(s.drop_last().take(k) =~= s.take(k));
        assert(all_digits(s.drop_last())) by {
            assert forall|i: int| 0 <= i < s.drop_last().len() implies is_digit(
                #[trigger] s.drop_last()[i],
            ) by {
                assert(is_digit(s[i]));
            }
        }
        lemma_digits_value_prefix(s.drop_last(), k);
        assert(is_digit(s.last()));
    } else {
        assert(s.take(k) =~= s);
    }
}

/// Reads an unsigned machine integer.
pub fn parse_usize(s: &str) -> (r: Option<usize>)
    ensures
        r is Some == parsed_usize(s@) is Some,
        r matches Some(n) ==> parsed_usize(s@) == Some(n as nat),
{
    let chars = chars_of(s);
    let start: usize = if chars.len() > 0 && chars[0] == '+' {
        1
    } else {
        0
    };
    let ghost d = if s@.len() > 0 && s@[0] == '+' {
        s@.skip(1)
    } else {
        s@
    };
    assert(d =~= s@.skip(start as int));
    if chars.len() == start {
        return None;
    }
    let mut n: usize = 0;
    for i in start..chars.len()
        invariant
            chars@ == s@,
            start <= chars.len(),
            d == s@.skip(start as int),
            start == if s@.len() > 0 && s@[0] == '+' { 1int } else { 0 },
            d.len() > 0,
            parsed_usize(s@) == (if all_digits(d) && digits_value(d) <= usize::MAX {
                Some(digits_value(d))
            } else {
                None
            }),
            all_digits(d.take(i - start)),
            n == digits_value(d.take(i - start)),
    {
        let c = chars[i];
        let ghost k = i - start;
        assert(d[k] == c);
        if !('0' <= c && c <= '9') {
            assert(!is_digit(d[k]));
            return None;
        }
        let v: usize = (c as u32 - 0x30) as usize;
        proof {
            assert(d.take(k + 1).drop_last() =~= d.take(k));
            assert(d.take(k + 1).last() == c);
            assert forall|j: int| 0 <= j < d.take(k + 1).len() implies is_digit(
                #[trigger] d.take(k + 1)[j],
            ) by {
                if j < k {
                    assert(d.take(k)[j] == d[j]);
                }
            }
            if all_digits(d) {
                lemma_digits_value_prefix(d, k + 1);
            }
        }
        if n > (usize::MAX - v) / 10 {
            return None;
        }
        n = 10 * n + v;
    }
    assert(d.take(d.len() as int) =~= d);
    Some(n)
}

fn append_digit(out: &mut String, d: usize)
    requires
        d < 10,
    ensures
        final(out)@ == old(out)@.push(digit(d as int)),
{
    proof {
        reveal_strlit("0");
        reveal_strlit("1");
        reveal_strlit("2");
        reveal_strlit("3");
        reveal_strlit("4");
        reveal_strlit("5");
        reveal_strlit("6");
        reveal_strlit("7");
        reveal_strlit("8");
        reveal_strlit("9");
    }
    let s: &str = if d == 0 {
        "0"
    } else if d == 1 {
        "1"
    } else if d == 2 {
        "2"
    } else if d == 3 {
        "3"
    } else if d == 4 {
        "4"
    } else if d == 5 {
        "5"
    } else if d == 6 {
        "6"
    } else if d == 7 {
        "7"
    } else if d == 8 {
        "8"
    } else {
        "9"
    };
    assert(s@ =~= seq![digit(d as int)]);
    out.append(s);
    assert(out@ =~= old(out)@.push(digit(d as int)));
}

/// Appends `n` in decimal.
pub fn append_decimal(out: &mut String, n: usize)
    ensures
        final(out)@ == old(out)@ + decimal(n as nat),
    decreases n,
{
    if n >= 10 {
        append_decimal(out, n / 10);
    }
    append_digit(out, n % 10);
    assert(out@ =~= old(out)@ + decimal(n as nat));
}

/// How many decimal digits `n` has.
fn decimal_len(n: usize) -> (r: usize)
    ensures
        r == decimal(n as nat).len(),
{
    let mut m: usize = n;
    let mut r: usize = 1;
    proof {
        lemma_decimal_short(n as nat);
    }
    while m >= 10
        invariant
            r >= 1,
            decimal(m as nat).len() + r - 1 == decimal(n as nat).len(),
            decimal(n as nat).len() <= n / 2 + 1,
        decreases m,
    {
        proof {
            lemma_decimal((m / 10) as nat);
        }
        m = m / 10;
        r = r + 1;
    }
    r
}

proof fn lemma_decimal_short(n: nat)
    ensures
        decimal(n).len() <= n / 2 + 1,
    decreases n,
{
    if n >= 10 {
        lemma_decimal_short(n / 10);
    }
}

/// Appends `n` in decimal, with zeros in front up to `width` characters.
pub fn append_padded_decimal(out: &mut String, n: usize, width: usize)
    ensures
        final(out)@ == old(out)@ + padded_decimal(n as nat, width as nat),
{
    let len = decimal_len(n);
    let ghost zeros = if len >= width {
        Seq::<char>::empty()
    } else {
        Seq::new((width - len) as nat, |i: int| '0')
    };
    let mut k: usize = len;
    while k < width
        invariant
            len <= k,
            zeros.len() == (if len >= width { 0int } else { width - len }),
            forall|i: int| 0 <= i < zeros.len() ==> zeros[i] == '0',
            k <= width || k == len,
            out@ == old(out)@ + zeros.take(if k <= width { k - len } else { 0 }),
        decreases width - k,
    {
        append_digit(out, 0);
        k = k + 1;
        assert(out@ =~= old(out)@ + zeros.take(k - len));
    }
    assert(zeros.take(zeros.len() as int) =~= zeros);
    append_decimal(out, n);
    assert(out@ =~= old(out)@ + padded_decimal(n as nat, width as nat));
}

// ── UTF-8 ───────────────────────────────────────────────────────────────────────────────

/// Calls [`std::str::from_utf8`]: the text that the bytes encode, where they are UTF-8.
#[verifier::external_body]
pub(crate) fn utf8_text(bytes: &[u8]) -> (r: Option<&str>)
    ensures
        r is Some == valid_utf8(bytes@),
        r matches Some(s) ==> s@ == decode_utf8(bytes@),
{
    std::str::from_utf8(bytes).ok()
}

/// What [`String::from_utf8_lossy`] makes of bytes.
pub uninterp spec fn utf8_lossy(bytes: Seq<u8>) -> Seq<char>;

/// Calls [`String::from_utf8_lossy`]: the text that the bytes encode; where they are
/// not UTF-8, a text with replacement characters, which is not described further.
#[verifier::external_body]
pub(crate) fn lossy_text(bytes: &[u8]) -> (r: String)
    ensures
        r@ == utf8_lossy(bytes@),
        valid_utf8(bytes@) ==> r@ == decode_utf8(bytes@),
{
    String::from_utf8_lossy(bytes).into_owned()
}

} // verus!
