//! Colours on the command line: `R,G,B`.

use crate::num::single::Single;
use crate::num::text::{chars_of, is_white, white};
use vstd::prelude::*;

verus! {

/// Why a colour is refused.
#[derive(Clone, Debug)]
pub enum ColorFault {
    /// A part is not a number; what the parser said of it.
    Number(String),
    /// There are not three parts.
    Count,
}

/// How many characters stand before the first comma.
pub open spec fn before_comma(s: Seq<char>) -> nat
    decreases s.len(),
{
    if s.len() > 0 && s[0] != ',' {
        1 + before_comma(s.skip(1))
    } else {
        0
    }
}

proof fn lemma_before_comma(s: Seq<char>)
    ensures
        before_comma(s) <= s.len(),
        before_comma(s) < s.len() ==> s[before_comma(s) as int] == ',',
        forall|i: int| 0 <= i < before_comma(s) ==> #[trigger] s[i] != ',',
    decreases s.len(),
{
    if s.len() > 0 && s[0] != ',' {
        lemma_before_comma(s.skip(1));
        assert forall|i: int| 0 <= i < before_comma(s) implies #[trigger] s[i] != ',' by {
            if i > 0 {
                assert(s.skip(1)[i - 1] == s[i]);
            }
        }
    }
}

proof fn lemma_before_comma_is(s: Seq<char>, n: int)
    requires
        0 <= n <= s.len(),
        forall|i: int| 0 <= i < n ==> #[trigger] s[i] != ',',
        n < s.len() ==> s[n] == ',',
    ensures
        before_comma(s) == n,
{
    lemma_before_comma(s);
    let k = before_comma(s) as int;
    if k < n {
        assert(s[k] != ',');
    }
    if n < k {
        assert(s[n] != ',');
    }
}

/// The parts of `s` between its commas; without a comma, `s` itself.
pub open spec fn parts(s: Seq<char>) -> Seq<Seq<char>>
    decreases s.len(),
{
    let n = before_comma(s) as int;
    if n < s.len() {
        seq![s.take(n)] + parts(s.skip(n + 1))
    } else {
        seq![s]
    }
}

/// `s` without white space at its front.
pub open spec fn trim_front(s: Seq<char>) -> Seq<char>
    decreases s.len(),
{
    if s.len() > 0 && white(s[0]) {
        trim_front(s.skip(1))
    } else {
        s
    }
}

/// `s` without white space at its end.
pub open spec fn trim_back(s: Seq<char>) -> Seq<char>
    decreases s.len(),
{
    if s.len() > 0 && white(s.last()) {
        trim_back(s.drop_last())
    } else {
        s
    }
}

/// `s` without white space at either end.
pub open spec fn trim(s: Seq<char>) -> Seq<char> {
    trim_back(trim_front(s))
}

/// `parse` says `r` of the text.
pub open spec fn reads<F: Fn(&str) -> Result<Single, String>>(
    parse: F,
    text: Seq<char>,
    r: Result<Single, String>,
) -> bool {
    exists|s: &str| s@ == text && #[trigger] call_ensures(parse, (s,), r)
}

/// The first parts are read as `values`.
pub open spec fn read_as<F: Fn(&str) -> Result<Single, String>>(
    parse: F,
    ps: Seq<Seq<char>>,
    values: Seq<Single>,
) -> bool {
    &&& values.len() <= ps.len()
    &&& forall|i: int|
        0 <= i < values.len() ==> reads(parse, trim(ps[i]), Ok(#[trigger] values[i]))
}

/// `r` can be the colour that `s` names: three parts, each a number.  The first part that is
/// none decides, before the parts are counted.
pub open spec fn names<F: Fn(&str) -> Result<Single, String>>(
    parse: F,
    s: Seq<char>,
    r: Result<[Single; 3], ColorFault>,
) -> bool {
    exists|values: Seq<Single>| #[trigger]
        read_as(parse, parts(s), values) && match r {
            Ok(c) => parts(s).len() == 3 && values == c@,
            Err(ColorFault::Count) => parts(s).len() != 3 && values.len() == parts(s).len(),
            Err(ColorFault::Number(e)) => values.len() < parts(s).len() && reads(
                parse,
                trim(parts(s)[values.len() as int]),
                Err(e),
            ),
        }
}

/// The characters `lo..hi` of `s`, without white space at either end.
fn trimmed<'a>(s: &'a str, chars: &Vec<char>, lo: usize, hi: usize) -> (r: &'a str)
    requires
        chars@ == s@,
        lo <= hi <= chars.len(),
    ensures
        r@ == trim(s@.subrange(lo as int, hi as int)),
{
    let ghost whole = s@.subrange(lo as int, hi as int);
    let mut a = lo;
    while a < hi && is_white(chars[a])
        invariant
            chars@ == s@,
            lo <= a <= hi <= chars.len(),
            trim_front(whole) == trim_front(s@.subrange(a as int, hi as int)),
        ensures
            lo <= a <= hi,
            trim_front(whole) == s@.subrange(a as int, hi as int),
        decreases hi - a,
    {
        assert(s@.subrange(a as int, hi as int).skip(1) =~= s@.subrange(a + 1, hi as int));
        a += 1;
    }
    let ghost front = s@.subrange(a as int, hi as int);
    let mut b = hi;
    while b > a && is_white(chars[b - 1])
        invariant
            chars@ == s@,
            lo <= a <= b <= hi <= chars.len(),
            trim_back(front) == trim_back(s@.subrange(a as int, b as int)),
        ensures
            a <= b <= hi,
            trim_back(front) == s@.subrange(a as int, b as int),
        decreases b - a,
    {
        assert(s@.subrange(a as int, b as int).drop_last() =~= s@.subrange(a as int, b - 1));
        b -= 1;
    }
    s.substring_char(a, b)
}

/// Reads a colour given as three numbers between commas.
pub fn parse_rgb<F: Fn(&str) -> Result<Single, String>>(parse: F, s: &str) -> (r: Result<
    [Single; 3],
    ColorFault,
>)
    requires
        forall|t: &str| call_requires(parse, (t,)),
    ensures
        names(parse, s@, r),
{
    let chars = chars_of(s);
    let n = chars.len();
    let mut values: Vec<Single> = Vec::new();
    let mut lo: usize = 0;
    let mut more = true;
    let ghost all = parts(s@);
    let ghost mut done: Seq<Seq<char>> = Seq::empty();
    proof {
        assert(s@.skip(0) =~= s@);
        assert(done + parts(s@) =~= parts(s@));
    }
    while more
        invariant
            forall|t: &str| call_requires(parse, (t,)),
            chars@ == s@,
            n == chars.len(),
            all == parts(s@),
            lo <= n,
            more ==> all == done + parts(s@.skip(lo as int)),
            !more ==> all == done,
            values.len() == done.len(),
            values.len() <= all.len(),
            forall|i: int|
                0 <= i < values.len() ==> reads(parse, trim(all[i]), Ok(#[trigger] values[i])),
        decreases n - lo + (if more { 1int } else { 0 }),
    {
        let mut hi = lo;
        while hi < n && chars[hi] != ','
            invariant
                chars@ == s@,
                n == chars.len(),
                lo <= hi <= n,
                forall|j: int| lo <= j < hi ==> #[trigger] s@[j] != ',',
            ensures
                lo <= hi <= n,
                forall|j: int| lo <= j < hi ==> #[trigger] s@[j] != ',',
                hi < n ==> s@[hi as int] == ',',
            decreases n - hi,
        {
            hi += 1;
        }
        let ghost rest = s@.skip(lo as int);
        let ghost here = s@.subrange(lo as int, hi as int);
        let ghost k = done.len() as int;
        proof {
            lemma_before_comma_is(rest, hi - lo);
            if hi < n {
                assert(rest.take(hi - lo) =~= here);
                assert(rest.skip(hi - lo + 1) =~= s@.skip(hi + 1));
                assert(done + parts(rest) =~= done.push(here) + parts(s@.skip(hi + 1)));
                assert(all[k] == here);
            } else {
                assert(rest =~= here);
                assert(done + parts(rest) =~= done.push(here));
                assert(all[k] == here);
            }
        }
        let part = trimmed(s, &chars, lo, hi);
        let v = parse(part);
        assert(reads(parse, trim(all[k]), v));
        match v {
            Ok(x) => {
                values.push(x);
            },
            Err(e) => {
                assert(read_as(parse, parts(s@), values@));
                return Err(ColorFault::Number(e));
            },
        }
        proof {
            done = done.push(here);
        }
        if hi < n {
            lo = hi + 1;
        } else {
            lo = n;
            more = false;
        }
    }
    assert(read_as(parse, parts(s@), values@));
    if values.len() == 3 {
        let c = [values[0], values[1], values[2]];
        assert(c@ =~= values@);
        Ok(c)
    } else {
        Err(ColorFault::Count)
    }
}

} // verus!
