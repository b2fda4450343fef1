//! Characters and windows of characters: Unicode white space, trimming, and
//! the conversions between strings and vectors of characters.
use vstd::prelude::*;

verus! {

/// The characters with the Unicode `White_Space` property.
pub open spec fn is_white_space(c: char) -> bool {
    let u = c as u32;
    (0x9 <= u <= 0xd) || u == 0x20 || u == 0x85 || u == 0xa0 || u == 0x1680 || (0x2000 <= u
        <= 0x200a) || u == 0x2028 || u == 0x2029 || u == 0x202f || u == 0x205f || u == 0x3000
}

/// `s` without its leading white space.
pub open spec fn trim_start(s: Seq<char>) -> Seq<char>
    decreases s.len(),
{
    if s.len() > 0 && is_white_space(s[0]) {
        trim_start(s.drop_first())
    } else {
        s
    }
}

/// `s` without its trailing white space.
pub open spec fn trim_end(s: Seq<char>) -> Seq<char>
    decreases s.len(),
{
    if s.len() > 0 && is_white_space(s.last()) {
        trim_end(s.drop_last())
    } else {
        s
    }
}

/// `s` without leading and trailing white space.
pub open spec fn trim(s: Seq<char>) -> Seq<char> {
    trim_end(trim_start(s))
}

/// The index of the first `c` in `s`, or the length of `s` where there is none.
pub open spec fn first_char(s: Seq<char>, c: char) -> int
    decreases s.len(),
{
    if s.len() == 0 {
        0
    } else if s[0] == c {
        0
    } else {
        1 + first_char(s.drop_first(), c)
    }
}

/// `first_char` is the index before which no `c` occurs and at which `c` or
/// the end of `s` stands.
pub proof fn lemma_first_char(s: Seq<char>, c: char, i: int)
    requires
        0 <= i <= s.len(),
        forall|j: int| 0 <= j < i ==> s[j] != c,
        i == s.len() || s[i] == c,
    ensures
        first_char(s, c) == i,
    decreases i,
{
    if i > 0 {
        lemma_first_char(s.drop_first(), c, i - 1);
    }
}

/// The first position in `chars[lo..hi]` that holds `c`, or `hi`.
pub fn find_char(chars: &Vec<char>, lo: usize, hi: usize, c: char) -> (res: usize)
    requires
        lo <= hi <= chars@.len(),
    ensures
        lo <= res <= hi,
        res - lo == first_char(chars@.subrange(lo as int, hi as int), c),
{
    let mut i = lo;
    while i < hi && chars[i] != c
        invariant
            lo <= i <= hi <= chars@.len(),
            forall|j: int| lo <= j < i ==> chars@[j] != c,
        decreases hi - i,
    {
        i = i + 1;
    }
    proof {
        lemma_first_char(chars@.subrange(lo as int, hi as int), c, i - lo);
    }
    i
}

/// Whether `c` has the Unicode `White_Space` property.
pub fn white_space(c: char) -> (res: bool)
    ensures
        res == is_white_space(c),
{
    let u = c as u32;
    (0x9 <= u && u <= 0xd) || u == 0x20 || u == 0x85 || u == 0xa0 || u == 0x1680 || (0x2000 <= u
        && u <= 0x200a) || u == 0x2028 || u == 0x2029 || u == 0x202f || u == 0x205f || u == 0x3000
}

/// The characters of `s`, in order.
pub fn chars_of(s: &str) -> (res: Vec<char>)
    ensures
        res@ == s@,
{
    let mut res: Vec<char> = Vec::new();
    for c in it: s.chars()
        invariant
            res@ == it.seq().take(it.index() as int),
    {
        res.push(c);
    }
    res
}

/// `String::push`: appends `c` to the end of `s`.
#[verifier::external_body]
fn push_char(s: &mut String, c: char)
    ensures
        final(s)@ == old(s)@.push(c),
{
    s.push(c);
}

/// The characters `chars[lo..hi]` as a string.
pub fn string_of(chars: &Vec<char>, lo: usize, hi: usize) -> (res: String)
    requires
        lo <= hi <= chars@.len(),
    ensures
        res@ == chars@.subrange(lo as int, hi as int),
{
    let mut res = String::new();
    let mut i = lo;
    while i < hi
        invariant
            lo <= i <= hi <= chars@.len(),
            res@ == chars@.subrange(lo as int, i as int),
        decreases hi - i,
    {
        push_char(&mut res, chars[i]);
        proof {
            assert(chars@.subrange(lo as int, i + 1) =~= chars@.subrange(lo as int, i as int).push(
                chars@[i as int],
            ));
        }
        i = i + 1;
    }
    res
}

/// The window `chars[lo..hi]` without its leading white space, as the new
/// lower bound.
pub fn skip_white_space(chars: &Vec<char>, lo: usize, hi: usize) -> (res: usize)
    requires
        lo <= hi <= chars@.len(),
    ensures
        lo <= res <= hi,
        chars@.subrange(res as int, hi as int) == trim_start(chars@.subrange(lo as int, hi as int)),
{
    let mut i = lo;
    while i < hi && white_space(chars[i])
        invariant
            lo <= i <= hi <= chars@.len(),
            trim_start(chars@.subrange(i as int, hi as int)) == trim_start(
                chars@.subrange(lo as int, hi as int),
            ),
        decreases hi - i,
    {
        proof {
            assert(chars@.subrange(i as int, hi as int).drop_first() =~= chars@.subrange(
                i + 1,
                hi as int,
            ));
        }
        i = i + 1;
    }
    i
}

/// The window `chars[lo..hi]` without its trailing white space, as the new
/// upper bound.
pub fn drop_white_space(chars: &Vec<char>, lo: usize, hi: usize) -> (res: usize)
    requires
        lo <= hi <= chars@.len(),
    ensures
        lo <= res <= hi,
        chars@.subrange(lo as int, res as int) == trim_end(chars@.subrange(lo as int, hi as int)),
{
    let mut j = hi;
    while j > lo && white_space(chars[j - 1])
        invariant
            lo <= j <= hi <= chars@.len(),
            trim_end(chars@.subrange(lo as int, j as int)) == trim_end(
                chars@.subrange(lo as int, hi as int),
            ),
        decreases j - lo,
    {
        proof {
            assert(chars@.subrange(lo as int, j as int).drop_last() =~= chars@.subrange(
                lo as int,
                j - 1,
            ));
        }
        j = j - 1;
    }
    j
}

/// The window `chars[lo..hi]` without leading and trailing white space.
pub fn trim_window(chars: &Vec<char>, lo: usize, hi: usize) -> (res: (usize, usize))
    requires
        lo <= hi <= chars@.len(),
    ensures
        lo <= res.0 <= res.1 <= hi,
        chars@.subrange(res.0 as int, res.1 as int) == trim(chars@.subrange(lo as int, hi as int)),
{
    let a = skip_white_space(chars, lo, hi);
    let b = drop_white_space(chars, a, hi);
    (a, b)
}

} // verus!
