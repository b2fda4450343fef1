//! Path arithmetic on Unix path texts, component by component as Rust's
//! `std::path` reads them: `/` separates components, empty components and
//! `.` components after the start are ignored, a leading `/` is the root and a
//! leading `.` the current directory.
use vstd::prelude::*;
use crate::text::{chars_of, find_char, first_char, lemma_first_char, string_of};

verus! {

/// The length of a path's start component: a leading `/` (the root) or a
/// leading `.` standing alone (the current directory); 0 where there is none.
pub open spec fn start_len(p: Seq<char>) -> int {
    if p.len() > 0 && p[0] == '/' {
        1
    } else if p.len() > 0 && p[0] == '.' && (p.len() == 1 || p[1] == '/') {
        1
    } else {
        0
    }
}

/// The index of the last `/` in `s`, or -1.
pub open spec fn last_sep(s: Seq<char>) -> int
    decreases s.len(),
{
    if s.len() == 0 {
        -1
    } else if s.last() == '/' {
        s.len() - 1
    } else {
        last_sep(s.drop_last())
    }
}

/// The length that remains of `p` once its last component and the separator
/// before it are cut off.
pub open spec fn cut_last(p: Seq<char>) -> int {
    let s = start_len(p);
    let j = last_sep(p.skip(s));
    if j >= 0 {
        s + j
    } else {
        s
    }
}

/// `p` without trailing separators and trailing `.` components.
pub open spec fn trim_back(p: Seq<char>) -> Seq<char>
    decreases p.len(),
{
    let s = start_len(p);
    if p.len() <= s {
        p
    } else {
        let body = p.skip(s);
        let comp = body.skip(last_sep(body) + 1);
        if comp.len() == 0 || comp == seq!['.'] {
            if 0 <= cut_last(p) < p.len() {
                trim_back(p.take(cut_last(p)))
            } else {
                p
            }
        } else {
            p
        }
    }
}

/// The parent of a path: the path without its final component; `None` for
/// the root and for the empty path, and the empty path for a path of one
/// relative component.
pub open spec fn path_parent(p: Seq<char>) -> Option<Seq<char>> {
    let t = trim_back(p);
    let s = start_len(t);
    if t.len() > s {
        Some(trim_back(t.take(cut_last(t))))
    } else if s == 1 && t[0] == '.' {
        Some(Seq::empty())
    } else {
        None
    }
}

proof fn lemma_last_sep(s: Seq<char>, j: int)
    requires
        -1 <= j < s.len(),
        j >= 0 ==> s[j] == '/',
        forall|i: int| j < i < s.len() ==> s[i] != '/',
    ensures
        last_sep(s) == j,
    decreases s.len(),
{
    if s.len() > 0 && s.last() != '/' {
        lemma_last_sep(s.drop_last(), j);
    }
}

/// The length of the start component of `p[lo..hi]`.
fn start_len_at(p: &Vec<char>, lo: usize, hi: usize) -> (res: usize)
    requires
        lo <= hi <= p@.len(),
    ensures
        res == start_len(p@.subrange(lo as int, hi as int)),
        res <= hi - lo,
{
    if hi > lo && p[lo] == '/' {
        1
    } else if hi > lo && p[lo] == '.' && (hi - lo == 1 || p[lo + 1] == '/') {
        1
    } else {
        0
    }
}

/// The position of the last `/` in `p[lo..hi]`.
fn last_sep_at(p: &Vec<char>, lo: usize, hi: usize) -> (res: Option<usize>)
    requires
        lo <= hi <= p@.len(),
    ensures
        match res {
            Some(i) => lo <= i < hi && last_sep(p@.subrange(lo as int, hi as int)) == i - lo,
            None => last_sep(p@.subrange(lo as int, hi as int)) == -1,
        },
{
    let mut j = hi;
    while j > lo && p[j - 1] != '/'
        invariant
            lo <= j <= hi <= p@.len(),
            forall|i: int| j <= i < hi ==> p@[i] != '/',
        decreases j - lo,
    {
        j = j - 1;
    }
    if j > lo {
        proof {
            lemma_last_sep(p@.subrange(lo as int, hi as int), j - 1 - lo);
        }
        Some(j - 1)
    } else {
        proof {
            lemma_last_sep(p@.subrange(lo as int, hi as int), -1);
        }
        None
    }
}

/// The end of `p[lo..hi]` without its last component and the separator
/// before it.
fn cut_last_at(p: &Vec<char>, lo: usize, hi: usize) -> (res: usize)
    requires
        lo <= hi <= p@.len(),
    ensures
        lo <= res <= hi,
        res - lo == cut_last(p@.subrange(lo as int, hi as int)),
{
    let s = start_len_at(p, lo, hi);
    proof {
        assert(p@.subrange(lo as int, hi as int).skip(s as int) =~= p@.subrange(lo + s, hi as int));
    }
    match last_sep_at(p, lo + s, hi) {
        Some(i) => i,
        None => lo + s,
    }
}

/// The end of `p[lo..hi]` without trailing separators and `.` components.
fn trim_back_at(p: &Vec<char>, lo: usize, hi: usize) -> (res: usize)
    requires
        lo <= hi <= p@.len(),
    ensures
        lo <= res <= hi,
        p@.subrange(lo as int, res as int) == trim_back(p@.subrange(lo as int, hi as int)),
{
    let mut e = hi;
    loop
        invariant
            lo <= e <= hi <= p@.len(),
            trim_back(p@.subrange(lo as int, e as int)) == trim_back(p@.subrange(lo as int, hi as int)),
        decreases e - lo,
    {
        let ghost q = p@.subrange(lo as int, e as int);
        let s = start_len_at(p, lo, e);
        if e - lo <= s {
            return e;
        }
        let body_lo = lo + s;
        proof {
            assert(q.skip(s as int) =~= p@.subrange(body_lo as int, e as int));
        }
        let comp_lo = match last_sep_at(p, body_lo, e) {
            Some(i) => i + 1,
            None => body_lo,
        };
        proof {
            assert(q.skip(s as int).skip(last_sep(q.skip(s as int)) + 1) =~= p@.subrange(
                comp_lo as int,
                e as int,
            ));
        }
        let is_dot = e - comp_lo == 1 && p[comp_lo] == '.';
        proof {
            if is_dot {
                assert(p@.subrange(comp_lo as int, e as int) =~= seq!['.']);
            }
            if p@.subrange(comp_lo as int, e as int) == seq!['.'] {
                assert(p@.subrange(comp_lo as int, e as int)[0] == '.');
            }
        }
        if comp_lo == e || is_dot {
            let c = cut_last_at(p, lo, e);
            proof {
                assert(q.take(c - lo) =~= p@.subrange(lo as int, c as int));
            }
            if c == e {
                return e;
            }
            e = c;
        } else {
            return e;
        }
    }
}

/// The parent of the path `p[lo..hi]`, as the end of the window that holds it.
fn parent_at(p: &Vec<char>, lo: usize, hi: usize) -> (res: Option<usize>)
    requires
        lo <= hi <= p@.len(),
    ensures
        match res {
            Some(e) => lo <= e <= hi && path_parent(p@.subrange(lo as int, hi as int)) == Some(
                p@.subrange(lo as int, e as int),
            ),
            None => path_parent(p@.subrange(lo as int, hi as int)) is None,
        },
{
    let t = trim_back_at(p, lo, hi);
    let s = start_len_at(p, lo, t);
    if t - lo > s {
        let c = cut_last_at(p, lo, t);
        proof {
            assert(p@.subrange(lo as int, t as int).take(c - lo) =~= p@.subrange(lo as int, c as int));
        }
        Some(trim_back_at(p, lo, c))
    } else if s == 1 && p[lo] == '.' {
        Some(lo)
    } else {
        None
    }
}

/// `t` without leading separators and `.` components.
pub open spec fn skip_empty_front(t: Seq<char>) -> Seq<char>
    decreases t.len(),
{
    if t.len() > 0 && t[0] == '/' {
        skip_empty_front(t.skip(1))
    } else if t.len() == 1 && t[0] == '.' {
        Seq::empty()
    } else if t.len() > 1 && t[0] == '.' && t[1] == '/' {
        skip_empty_front(t.skip(2))
    } else {
        t
    }
}

/// What follows the first component of `t` and the separator after it.
pub open spec fn after_first_comp(t: Seq<char>) -> Seq<char> {
    let i = first_char(t, '/');
    if i < t.len() {
        t.skip(i + 1)
    } else {
        Seq::empty()
    }
}

/// The first component of `t`.
pub open spec fn first_comp(t: Seq<char>) -> Seq<char> {
    t.take(first_char(t, '/'))
}

/// `first_char` is an index of its text or its length.
pub proof fn lemma_first_char_bound(s: Seq<char>, c: char)
    ensures
        0 <= first_char(s, c) <= s.len(),
    decreases s.len(),
{
    if s.len() > 0 && s[0] != c {
        lemma_first_char_bound(s.drop_first(), c);
    }
}

/// Dropping leading separators and `.` components never lengthens a text.
pub proof fn lemma_skip_empty_front_len(t: Seq<char>)
    ensures
        skip_empty_front(t).len() <= t.len(),
    decreases t.len(),
{
    if t.len() > 0 && t[0] == '/' {
        lemma_skip_empty_front_len(t.skip(1));
    } else if t.len() > 1 && t[0] == '.' && t[1] == '/' {
        lemma_skip_empty_front_len(t.skip(2));
    }
}

/// The rest of a path body `f` once the components of the body `b` are
/// matched against its leading components, or `None` where they differ.
pub open spec fn strip_body(f: Seq<char>, b: Seq<char>) -> Option<Seq<char>>
    decreases b.len(),
{
    let b1 = skip_empty_front(b);
    if b1.len() == 0 {
        Some(skip_empty_front(f))
    } else {
        let f1 = skip_empty_front(f);
        if f1.len() == 0 {
            None
        } else if first_comp(b1) == first_comp(f1) {
            proof {
                lemma_skip_empty_front_len(b);
                lemma_first_char_bound(b1, '/');
            }
            strip_body(after_first_comp(f1), after_first_comp(b1))
        } else {
            None
        }
    }
}

/// `file` relative to `base`: what follows the components of `base` in
/// `file`, or `None` where `base` is not a leading part of `file`. The
/// current directory `.` at the start of `base` is a leading part of every
/// relative `file` that has no start component of its own, so that the files
/// a pattern like `**/*.conf` yields keep their directories below `.`.
pub open spec fn path_strip_prefix(file: Seq<char>, base: Seq<char>) -> Option<Seq<char>> {
    let sf = start_len(file);
    let sb = start_len(base);
    if base.len() == 0 {
        Some(trim_back(file))
    } else if file.take(sf) == base.take(sb) {
        match strip_body(file.skip(sf), base.skip(sb)) {
            Some(r) => Some(trim_back(r)),
            None => None,
        }
    } else if sf == 0 && sb == 1 && base[0] == '.' {
        match strip_body(file, base.skip(1)) {
            Some(r) => Some(trim_back(r)),
            None => None,
        }
    } else {
        None
    }
}

/// The final component of a path, unless it is the root, `.` or `..`.
pub open spec fn path_file_name(p: Seq<char>) -> Option<Seq<char>> {
    let t = trim_back(p);
    let s = start_len(t);
    if t.len() > s {
        let body = t.skip(s);
        let comp = body.skip(last_sep(body) + 1);
        if comp == seq!['.', '.'] {
            None
        } else {
            Some(comp)
        }
    } else {
        None
    }
}

/// `rel` appended to `dir`: `rel` itself where it is absolute, else `dir`, a
/// separator unless `dir` is empty or ends with one, and `rel`.
pub open spec fn path_join(dir: Seq<char>, rel: Seq<char>) -> Seq<char> {
    if rel.len() > 0 && rel[0] == '/' {
        rel
    } else if dir.len() > 0 && dir.last() != '/' {
        dir + seq!['/'] + rel
    } else {
        dir + rel
    }
}

/// Where a rendered copy of `file`, found under the glob base `base`, is
/// written in `out_dir`: `file` relative to `base`, or else its file name,
/// or else `file` itself, appended to `out_dir`.
pub open spec fn output_path_of(file: Seq<char>, base: Seq<char>, out_dir: Seq<char>) -> Seq<char> {
    let rel = match path_strip_prefix(file, base) {
        Some(r) => r,
        None => match path_file_name(file) {
            Some(n) => n,
            None => file,
        },
    };
    path_join(out_dir, rel)
}

/// The start of `p[lo..hi]` without leading separators and `.` components.
fn skip_empty_front_at(p: &Vec<char>, lo: usize, hi: usize) -> (res: usize)
    requires
        lo <= hi <= p@.len(),
    ensures
        lo <= res <= hi,
        p@.subrange(res as int, hi as int) == skip_empty_front(p@.subrange(lo as int, hi as int)),
{
    let mut i = lo;
    loop
        invariant
            lo <= i <= hi <= p@.len(),
            skip_empty_front(p@.subrange(i as int, hi as int)) == skip_empty_front(
                p@.subrange(lo as int, hi as int),
            ),
        decreases hi - i,
    {
        let ghost t = p@.subrange(i as int, hi as int);
        if i < hi && p[i] == '/' {
            proof {
                assert(t.skip(1) =~= p@.subrange(i + 1, hi as int));
            }
            i = i + 1;
        } else if hi - i == 1 && p[i] == '.' {
            proof {
                assert(p@.subrange(hi as int, hi as int) =~= Seq::<char>::empty());
            }
            return hi;
        } else if hi - i > 1 && p[i] == '.' && p[i + 1] == '/' {
            proof {
                assert(t.skip(2) =~= p@.subrange(i + 2, hi as int));
            }
            i = i + 2;
        } else {
            return i;
        }
    }
}

/// Whether `p[a..b]` and `q[c..d]` hold the same characters.
fn same_chars(p: &Vec<char>, a: usize, b: usize, q: &Vec<char>, c: usize, d: usize) -> (res: bool)
    requires
        a <= b <= p@.len(),
        c <= d <= q@.len(),
    ensures
        res == (p@.subrange(a as int, b as int) == q@.subrange(c as int, d as int)),
{
    if b - a != d - c {
        proof {
            if p@.subrange(a as int, b as int) == q@.subrange(c as int, d as int) {
                assert(p@.subrange(a as int, b as int).len() == q@.subrange(c as int, d as int).len());
            }
        }
        return false;
    }
    let mut k: usize = 0;
    while k < b - a
        invariant
            a <= b <= p@.len(),
            c <= d <= q@.len(),
            b - a == d - c,
            0 <= k <= b - a,
            forall|j: int| 0 <= j < k ==> #[trigger] p@.subrange(a as int, b as int)[j] == q@.subrange(c as int, d as int)[j],
        decreases b - a - k,
    {
        if p[a + k] != q[c + k] {
            proof {
                let x = p@.subrange(a as int, b as int);
                let y = q@.subrange(c as int, d as int);
                if x == y {
                    assert(x[k as int] == y[k as int]);
                }
            }
            return false;
        }
        k = k + 1;
    }
    proof {
        assert(p@.subrange(a as int, b as int) =~= q@.subrange(c as int, d as int));
    }
    true
}

/// What follows the first component of `p[lo..hi]` and its separator, as
/// the start of that rest, with the end of the component.
fn split_first_comp(p: &Vec<char>, lo: usize, hi: usize) -> (res: (usize, usize))
    requires
        lo <= hi <= p@.len(),
    ensures
        lo <= res.0 <= res.1 <= hi,
        p@.subrange(lo as int, res.0 as int) == first_comp(p@.subrange(lo as int, hi as int)),
        p@.subrange(res.1 as int, hi as int) == after_first_comp(p@.subrange(lo as int, hi as int)),
{
    let e = find_char(p, lo, hi, '/');
    let ghost t = p@.subrange(lo as int, hi as int);
    proof {
        assert(t.take(e - lo) =~= p@.subrange(lo as int, e as int));
    }
    if e < hi {
        proof {
            assert(t.skip(e - lo + 1) =~= p@.subrange(e + 1, hi as int));
        }
        (e, e + 1)
    } else {
        proof {
            assert(p@.subrange(hi as int, hi as int) =~= Seq::<char>::empty());
        }
        (e, hi)
    }
}

/// The rest of the body `f[flo..fhi]` once the components of the body
/// `b[blo..bhi]` are matched against its leading components, as the start
/// of that rest.
fn strip_body_at(f: &Vec<char>, flo: usize, fhi: usize, b: &Vec<char>, blo: usize, bhi: usize) -> (res: Option<usize>)
    requires
        flo <= fhi <= f@.len(),
        blo <= bhi <= b@.len(),
    ensures
        match res {
            Some(r) => flo <= r <= fhi && strip_body(
                f@.subrange(flo as int, fhi as int),
                b@.subrange(blo as int, bhi as int),
            ) == Some(f@.subrange(r as int, fhi as int)),
            None => strip_body(f@.subrange(flo as int, fhi as int), b@.subrange(blo as int, bhi as int)) is None,
        },
{
    let mut fi = flo;
    let mut bi = blo;
    loop
        invariant
            flo <= fi <= fhi <= f@.len(),
            blo <= bi <= bhi <= b@.len(),
            strip_body(f@.subrange(fi as int, fhi as int), b@.subrange(bi as int, bhi as int))
                == strip_body(f@.subrange(flo as int, fhi as int), b@.subrange(blo as int, bhi as int)),
        decreases bhi - bi,
    {
        let b1 = skip_empty_front_at(b, bi, bhi);
        let f1 = skip_empty_front_at(f, fi, fhi);
        if b1 == bhi {
            return Some(f1);
        }
        if f1 == fhi {
            return None;
        }
        let (bc, bn) = split_first_comp(b, b1, bhi);
        let (fc, fnext) = split_first_comp(f, f1, fhi);
        if !same_chars(b, b1, bc, f, f1, fc) {
            return None;
        }
        proof {
            lemma_first_char_bound(b@.subrange(b1 as int, bhi as int), '/');
        }
        assert(bn > bi);
        fi = fnext;
        bi = bn;
    }
}

/// The end of the window of `p[lo..hi]` that ends with its final component,
/// and the start of that component, unless it is the root, `.` or `..`.
fn file_name_at(p: &Vec<char>, lo: usize, hi: usize) -> (res: Option<(usize, usize)>)
    requires
        lo <= hi <= p@.len(),
    ensures
        match res {
            Some(w) => lo <= w.0 <= w.1 <= hi && path_file_name(p@.subrange(lo as int, hi as int))
                == Some(p@.subrange(w.0 as int, w.1 as int)),
            None => path_file_name(p@.subrange(lo as int, hi as int)) is None,
        },
{
    let t = trim_back_at(p, lo, hi);
    let ghost tt = p@.subrange(lo as int, t as int);
    let s = start_len_at(p, lo, t);
    if t - lo <= s {
        return None;
    }
    proof {
        assert(tt.skip(s as int) =~= p@.subrange(lo + s, t as int));
    }
    let c = match last_sep_at(p, lo + s, t) {
        Some(i) => i + 1,
        None => lo + s,
    };
    proof {
        assert(tt.skip(s as int).skip(last_sep(tt.skip(s as int)) + 1) =~= p@.subrange(c as int, t as int));
    }
    let dots = t - c == 2 && p[c] == '.' && p[c + 1] == '.';
    proof {
        let comp = p@.subrange(c as int, t as int);
        if dots {
            assert(comp =~= seq!['.', '.']);
        }
        if comp == seq!['.', '.'] {
            assert(comp[0] == '.' && comp[1] == '.');
        }
    }
    if dots {
        None
    } else {
        Some((c, t))
    }
}

/// Where the rendered copy of `file`, matched by a pattern whose glob base is
/// `base`, is written under `out_dir`: the output directory mirrors the
/// structure below the base.
pub fn output_path(file: &str, base: &str, out_dir: &str) -> (res: String)
    ensures
        res@ == output_path_of(file@, base@, out_dir@),
{
    let f = chars_of(file);
    let b = chars_of(base);
    let d = chars_of(out_dir);
    let fl = f.len();
    let bl = b.len();
    let ghost rel_spec = match path_strip_prefix(file@, base@) {
        Some(r) => r,
        None => match path_file_name(file@) {
            Some(n) => n,
            None => file@,
        },
    };
    proof {
        assert(f@.subrange(0, fl as int) =~= file@);
        assert(b@.subrange(0, bl as int) =~= base@);
    }
    let (rlo, rhi): (usize, usize) = if bl == 0 {
        (0, trim_back_at(&f, 0, fl))
    } else {
        let sf = start_len_at(&f, 0, fl);
        let sb = start_len_at(&b, 0, bl);
        proof {
            assert(f@.take(sf as int) =~= f@.subrange(0, sf as int));
            assert(b@.take(sb as int) =~= b@.subrange(0, sb as int));
            assert(f@.skip(sf as int) =~= f@.subrange(sf as int, fl as int));
            assert(b@.skip(sb as int) =~= b@.subrange(sb as int, bl as int));
        }
        let stripped = if same_chars(&f, 0, sf, &b, 0, sb) {
            strip_body_at(&f, sf, fl, &b, sb, bl)
        } else if sf == 0 && sb == 1 && b[0] == '.' {
            proof {
                assert(b@.skip(1) =~= b@.subrange(1, bl as int));
            }
            strip_body_at(&f, 0, fl, &b, 1, bl)
        } else {
            None
        };
        match stripped {
            Some(r) => (r, trim_back_at(&f, r, fl)),
            None => match file_name_at(&f, 0, fl) {
                Some(w) => w,
                None => (0, fl),
            },
        }
    };
    assert(f@.subrange(rlo as int, rhi as int) == rel_spec);
    let mut out: Vec<char> = Vec::new();
    let absolute = rhi > rlo && f[rlo] == '/';
    if !absolute {
        let mut i: usize = 0;
        while i < d.len()
            invariant
                0 <= i <= d@.len(),
                out@ == d@.take(i as int),
            decreases d@.len() - i,
        {
            out.push(d[i]);
            proof {
                assert(d@.take(i + 1) =~= d@.take(i as int).push(d@[i as int]));
            }
            i = i + 1;
        }
        if d.len() > 0 && d[d.len() - 1] != '/' {
            out.push('/');
        }
    }
    let ghost head = out@;
    let mut j = rlo;
    while j < rhi
        invariant
            rlo <= j <= rhi <= f@.len(),
            out@ == head + f@.subrange(rlo as int, j as int),
        decreases rhi - j,
    {
        out.push(f[j]);
        proof {
            assert(f@.subrange(rlo as int, j + 1) =~= f@.subrange(rlo as int, j as int).push(f@[j as int]));
        }
        j = j + 1;
    }
    proof {
        assert(d@.take(d@.len() as int) =~= out_dir@);
        if absolute {
            assert(out@ =~= rel_spec);
        } else if out_dir@.len() > 0 && out_dir@.last() != '/' {
            assert(out@ =~= out_dir@ + seq!['/'] + rel_spec);
        } else {
            assert(out@ =~= out_dir@ + rel_spec);
        }
    }
    string_of(&out, 0, out.len())
}

/// A relative path written plainly: components separated by single `/`,
/// none of them empty or `.`, nothing before the first or after the last.
pub open spec fn plain_components(s: Seq<char>) -> bool {
    &&& s.len() > 0
    &&& s[0] != '/'
    &&& s.last() != '/'
    &&& forall|i: int| 0 <= i < s.len() - 1 && #[trigger] s[i] == '/' ==> s[i + 1] != '/'
    &&& forall|i: int|
        0 <= i < s.len() && #[trigger] s[i] == '.' ==> !((i == 0 || s[i - 1] == '/') && (i == s.len()
            - 1 || s[i + 1] == '/'))
}

proof fn lemma_first_char_props(s: Seq<char>, c: char)
    ensures
        0 <= first_char(s, c) <= s.len(),
        forall|j: int| 0 <= j < first_char(s, c) ==> s[j] != c,
        first_char(s, c) < s.len() ==> s[first_char(s, c)] == c,
    decreases s.len(),
{
    if s.len() > 0 && s[0] != c {
        lemma_first_char_props(s.drop_first(), c);
        assert forall|j: int| 0 <= j < first_char(s, c) implies s[j] != c by {
            if j > 0 {
                assert(s[j] == s.drop_first()[j - 1]);
            }
        }
    }
}

proof fn lemma_last_sep_props(s: Seq<char>)
    ensures
        -1 <= last_sep(s) < s.len(),
        last_sep(s) >= 0 ==> s[last_sep(s)] == '/',
        forall|i: int| last_sep(s) < i < s.len() ==> s[i] != '/',
    decreases s.len(),
{
    if s.len() > 0 && s.last() != '/' {
        lemma_last_sep_props(s.drop_last());
        assert forall|i: int| last_sep(s) < i < s.len() implies s[i] != '/' by {
            if i < s.len() - 1 {
                assert(s[i] == s.drop_last()[i]);
            }
        }
    }
}

/// A path that ends in a component other than `.` has nothing to trim.
proof fn lemma_trim_back_keeps(s: Seq<char>)
    requires
        s.len() > 0,
        s.last() != '/',
        !(s.len() >= 2 && s[s.len() - 2] == '/' && s.last() == '.'),
    ensures
        trim_back(s) == s,
{
    let st = start_len(s);
    if s.len() > st {
        let body = s.skip(st);
        lemma_last_sep_props(body);
        let j = last_sep(body);
        let comp = body.skip(j + 1);
        assert(body.last() == s.last());
        assert(j < body.len() - 1);
        if comp == seq!['.'] {
            assert(comp.len() == 1);
            assert(j == body.len() - 2);
            assert(comp[0] == body[j + 1]);
            assert(body.last() == '.');
            if j >= 0 {
                assert(body[j] == s[s.len() - 2]);
            }
        }
    }
}

/// The parent of `d/c` is `d`: the parent drops exactly the last component,
/// whatever the depth of `d`, absolute or relative, where `c` is a
/// component other than `.` and `d` does not end with a separator or a `.`
/// component.
pub proof fn lemma_path_parent_drops_last(d: Seq<char>, c: Seq<char>)
    requires
        d.len() > 0,
        d.last() != '/',
        !(d.len() >= 2 && d[d.len() - 2] == '/' && d.last() == '.'),
        c.len() > 0,
        !c.contains('/'),
        c != seq!['.'],
    ensures
        path_parent(d + seq!['/'] + c) == Some(d),
{
    let p = d + seq!['/'] + c;
    assert(p.last() == c.last());
    if c.last() == '/' {
        assert(c.contains('/'));
    }
    if p.len() >= 2 && p[p.len() - 2] == '/' && p.last() == '.' {
        if c.len() == 1 {
            assert(c =~= seq!['.']);
        } else {
            assert(p[p.len() - 2] == c[c.len() - 2]);
            assert(c.contains('/'));
        }
    }
    lemma_trim_back_keeps(p);
    lemma_trim_back_keeps(d);
    let st = start_len(p);
    assert(st == start_len(d)) by {
        assert(p[0] == d[0]);
        if d.len() >= 2 {
            assert(p[1] == d[1]);
        }
    }
    assert(st <= d.len()) by {
        if d.len() == 1 && d[0] == '/' {
        }
    }
    let body = p.skip(st);
    let j = d.len() - st;
    assert(body[j] == '/');
    assert forall|i: int| j < i < body.len() implies body[i] != '/' by {
        assert(body[i] == c[i - j - 1]);
        if c[i - j - 1] == '/' {
            assert(c.contains('/'));
        }
    }
    lemma_last_sep(body, j);
    assert(cut_last(p) == d.len());
    assert(p.take(d.len() as int) =~= d);
}

/// The glob base of `d/c*` is `d`: the directory of the last component
/// before the first wildcard, for every such directory, absolute or
/// relative, of any depth.
pub proof fn lemma_glob_base_of_directory(d: Seq<char>, c: Seq<char>)
    requires
        d.len() > 0,
        d.last() != '/',
        !(d.len() >= 2 && d[d.len() - 2] == '/' && d.last() == '.'),
        c.len() > 0,
        !c.contains('/'),
        c != seq!['.'],
        !is_pattern_sep(c.last()),
        forall|i: int| 0 <= i < d.len() ==> !is_wildcard(#[trigger] d[i]),
        forall|i: int| 0 <= i < c.len() ==> !is_wildcard(#[trigger] c[i]),
    ensures
        glob_base_of(d + seq!['/'] + c + seq!['*']) == d,
{
    let prefix = d + seq!['/'] + c;
    let pattern = prefix + seq!['*'];
    assert forall|j: int| 0 <= j < prefix.len() implies !is_wildcard(#[trigger] pattern[j]) by {
        if j < d.len() {
            assert(pattern[j] == d[j]);
        } else if j > d.len() {
            assert(pattern[j] == c[j - d.len() - 1]);
        }
    }
    lemma_first_wildcard(pattern, prefix.len() as int);
    assert(pattern.take(prefix.len() as int) =~= prefix);
    assert(prefix.last() == c.last());
    assert(trim_seps(prefix) == prefix);
    lemma_path_parent_drops_last(d, c);
}

/// A pattern whose wildcard starts a component has the text before that
/// component as its base: `d/*…` gives `d`.
pub proof fn lemma_glob_base_before_wildcard_component(d: Seq<char>, rest: Seq<char>)
    requires
        d.len() > 0,
        !is_pattern_sep(d.last()),
        forall|i: int| 0 <= i < d.len() ==> !is_wildcard(#[trigger] d[i]),
    ensures
        glob_base_of(d + seq!['/', '*'] + rest) == d,
{
    let pattern = d + seq!['/', '*'] + rest;
    let prefix = d + seq!['/'];
    assert forall|j: int| 0 <= j < prefix.len() implies !is_wildcard(#[trigger] pattern[j]) by {
        if j < d.len() {
            assert(pattern[j] == d[j]);
        }
    }
    lemma_first_wildcard(pattern, prefix.len() as int);
    assert(pattern.take(prefix.len() as int) =~= prefix);
    assert(prefix.drop_last() =~= d);
    assert(trim_seps(prefix) == trim_seps(d));
    assert(trim_seps(d) == d);
}

/// A pattern with no directory part has the current directory as its base:
/// `c*…`, for a name `c` without separators, gives `.`.
pub proof fn lemma_glob_base_without_directory(c: Seq<char>, rest: Seq<char>)
    requires
        c.len() > 0,
        !c.contains('/'),
        c != seq!['.'],
        !is_pattern_sep(c.last()),
        forall|i: int| 0 <= i < c.len() ==> !is_wildcard(#[trigger] c[i]),
    ensures
        glob_base_of(c + seq!['*'] + rest) == current_dir(),
        glob_base_of(seq!['*'] + rest) == current_dir(),
{
    let pattern = c + seq!['*'] + rest;
    assert forall|j: int| 0 <= j < c.len() implies !is_wildcard(#[trigger] pattern[j]) by {
        assert(pattern[j] == c[j]);
    }
    lemma_first_wildcard(pattern, c.len() as int);
    assert(pattern.take(c.len() as int) =~= c);
    assert(trim_seps(c) == c);
    if c.len() >= 2 && c[c.len() - 2] == '/' {
        assert(c.contains('/'));
    }
    lemma_trim_back_keeps(c);
    assert(start_len(c) == 0) by {
        if c.len() > 1 && c[1] == '/' {
            assert(c.contains('/'));
        }
        if c.len() == 1 && c[0] == '.' {
            assert(c =~= seq!['.']);
        }
    }
    lemma_last_sep_props(c);
    if last_sep(c) >= 0 {
        assert(c.contains('/'));
    }
    assert(c.skip(0) =~= c);
    assert(cut_last(c) == 0);
    assert(c.take(0) =~= Seq::<char>::empty());
    let p2 = seq!['*'] + rest;
    lemma_first_wildcard(p2, 0);
    assert(p2.take(0) =~= Seq::<char>::empty());
}

/// Matching the components of a plain relative base against a file below it
/// leaves exactly the file's remainder.
proof fn lemma_strip_body_plain(b: Seq<char>, r: Seq<char>)
    requires
        plain_components(b),
        plain_components(r),
    ensures
        strip_body(b + seq!['/'] + r, b) == Some(r),
    decreases b.len(),
{
    let f = b + seq!['/'] + r;
    assert(skip_empty_front(b) == b) by {
        if b[0] == '.' && (b.len() == 1 || b[1] == '/') {
            assert(b[0] == '.');
        }
    }
    assert(skip_empty_front(f) == f) by {
        assert(f[0] == b[0]);
        assert(f[1] == if b.len() == 1 { '/' } else { b[1] });
        if b[0] == '.' && b.len() == 1 {
            assert(b[0] == '.');
        }
        if b[0] == '.' && b.len() > 1 && b[1] == '/' {
            assert(b[0] == '.');
        }
    }
    lemma_first_char_props(b, '/');
    let i = first_char(b, '/');
    assert forall|j: int| 0 <= j < i implies f[j] != '/' by {
        assert(f[j] == b[j]);
    }
    if i < b.len() {
        assert(f[i] == b[i]);
        lemma_first_char(f, '/', i);
        assert(first_comp(b) =~= first_comp(f));
        let b2 = b.skip(i + 1);
        assert(i < b.len() - 1);
        assert(b[i + 1] != '/');
        assert(plain_components(b2)) by {
            assert(b2[0] == b[i + 1]);
            assert(b2.last() == b.last());
            assert forall|k: int| 0 <= k < b2.len() - 1 && #[trigger] b2[k] == '/' implies b2[k + 1] != '/' by {
                assert(b2[k] == b[k + i + 1] && b2[k + 1] == b[k + i + 2]);
            }
            assert forall|k: int|
                0 <= k < b2.len() && #[trigger] b2[k] == '.' implies !((k == 0 || b2[k - 1] == '/') && (k
                == b2.len() - 1 || b2[k + 1] == '/')) by {
                assert(b2[k] == b[k + i + 1]);
                if k > 0 {
                    assert(b2[k - 1] == b[k + i]);
                }
                if k < b2.len() - 1 {
                    assert(b2[k + 1] == b[k + i + 2]);
                }
            }
        }
        assert(after_first_comp(b) == b2);
        assert(after_first_comp(f) =~= b2 + seq!['/'] + r);
        lemma_strip_body_plain(b2, r);
        assert(strip_body(f, b) == strip_body(after_first_comp(f), after_first_comp(b)));
    } else {
        assert(f[b.len() as int] == '/');
        lemma_first_char(f, '/', b.len() as int);
        assert(first_comp(b) =~= first_comp(f));
        assert(after_first_comp(b) =~= Seq::<char>::empty());
        assert(after_first_comp(f) =~= r);
        assert(skip_empty_front(Seq::<char>::empty()) == Seq::<char>::empty());
        assert(skip_empty_front(r) == r) by {
            if r[0] == '.' && (r.len() == 1 || r[1] == '/') {
                assert(r[0] == '.');
            }
        }
        assert(strip_body(r, Seq::<char>::empty()) == Some(r));
        assert(strip_body(f, b) == strip_body(after_first_comp(f), after_first_comp(b)));
    }
}

/// A file below its base is written to the output directory joined with
/// the file's remainder after the whole base, for every plain base,
/// absolute or relative, of any depth, and every plain relative remainder.
pub proof fn lemma_output_path_mirrors(absolute: bool, b: Seq<char>, r: Seq<char>, out_dir: Seq<char>)
    requires
        plain_components(b),
        plain_components(r),
    ensures
        ({
            let base = if absolute {
                seq!['/'] + b
            } else {
                b
            };
            output_path_of(base + seq!['/'] + r, base, out_dir) == path_join(out_dir, r)
        }),
{
    let base = if absolute {
        seq!['/'] + b
    } else {
        b
    };
    let file = base + seq!['/'] + r;
    lemma_strip_body_plain(b, r);
    assert(r[0] != '/');
    assert(trim_back(r) == r) by {
        if r.len() >= 2 && r[r.len() - 2] == '/' && r.last() == '.' {
            assert(r[r.len() - 1] == '.');
        }
        lemma_trim_back_keeps(r);
    }
    if absolute {
        assert(start_len(file) == 1);
        assert(start_len(base) == 1);
        assert(file.take(1) =~= base.take(1));
        assert(file.skip(1) =~= b + seq!['/'] + r);
        assert(base.skip(1) =~= b);
    } else {
        assert(file[0] == b[0]);
        assert(start_len(b) == 0) by {
            if b[0] == '.' && (b.len() == 1 || b[1] == '/') {
                assert(b[0] == '.');
            }
        }
        assert(start_len(file) == 0) by {
            assert(file[1] == if b.len() == 1 { '/' } else { b[1] });
            if b[0] == '.' && (b.len() == 1 || b[1] == '/') {
                assert(b[0] == '.');
            }
        }
        assert(file.take(0) =~= base.take(0));
        assert(file.skip(0) =~= file);
        assert(base.skip(0) =~= base);
    }
    assert(path_strip_prefix(file, base) == Some(r));
}

/// Below the current directory `.`, the glob base of a pattern without a
/// directory part, every plain relative file keeps its whole path in the
/// output directory.
pub proof fn lemma_output_path_below_current_dir(r: Seq<char>, out_dir: Seq<char>)
    requires
        plain_components(r),
    ensures
        output_path_of(r, current_dir(), out_dir) == path_join(out_dir, r),
{
    let base = current_dir();
    assert(start_len(r) == 0) by {
        if r[0] == '.' && (r.len() == 1 || r[1] == '/') {
            assert(r[0] == '.');
        }
    }
    assert(start_len(base) == 1);
    assert(r.take(0) =~= Seq::<char>::empty());
    assert(base.take(1) =~= seq!['.']);
    assert(r.take(0) != base.take(1)) by {
        assert(base.take(1).len() == 1);
    }
    assert(base.skip(1) =~= Seq::<char>::empty());
    assert(skip_empty_front(Seq::<char>::empty()) == Seq::<char>::empty());
    assert(skip_empty_front(r) == r) by {
        if r[0] == '.' && (r.len() == 1 || r[1] == '/') {
            assert(r[0] == '.');
        }
    }
    assert(strip_body(r, Seq::<char>::empty()) == Some(r));
    assert(trim_back(r) == r) by {
        if r.len() >= 2 && r[r.len() - 2] == '/' && r.last() == '.' {
            assert(r[r.len() - 1] == '.');
        }
        lemma_trim_back_keeps(r);
    }
    assert(path_strip_prefix(r, base) == Some(r));
}

/// The characters that start a glob wildcard.
pub open spec fn is_wildcard(c: char) -> bool {
    c == '*' || c == '?' || c == '['
}

/// The index of the first wildcard character of `s`, or its length.
pub open spec fn first_wildcard(s: Seq<char>) -> int
    decreases s.len(),
{
    if s.len() == 0 {
        0
    } else if is_wildcard(s[0]) {
        0
    } else {
        1 + first_wildcard(s.drop_first())
    }
}

proof fn lemma_first_wildcard(s: Seq<char>, i: int)
    requires
        0 <= i <= s.len(),
        forall|j: int| 0 <= j < i ==> !is_wildcard(s[j]),
        i == s.len() || is_wildcard(s[i]),
    ensures
        first_wildcard(s) == i,
    decreases i,
{
    if i > 0 {
        lemma_first_wildcard(s.drop_first(), i - 1);
    }
}

/// Whether `c` separates directories in a glob pattern.
pub open spec fn is_pattern_sep(c: char) -> bool {
    c == '/' || c == '\\'
}

/// `s` without trailing `/` and `\` characters.
pub open spec fn trim_seps(s: Seq<char>) -> Seq<char>
    decreases s.len(),
{
    if s.len() > 0 && is_pattern_sep(s.last()) {
        trim_seps(s.drop_last())
    } else {
        s
    }
}

/// The current directory, `.`.
pub open spec fn current_dir() -> Seq<char> {
    seq!['.']
}

/// The directory that a glob pattern's matches lie under: the part of the
/// pattern before its first wildcard (`*`, `?` or `[`), as a directory when
/// it ends with a separator and as the parent of its last component
/// otherwise; `.` where that leaves nothing.
pub open spec fn glob_base_of(pattern: Seq<char>) -> Seq<char> {
    let prefix = pattern.take(first_wildcard(pattern));
    let trimmed = trim_seps(prefix);
    if trimmed.len() == 0 {
        current_dir()
    } else if is_pattern_sep(prefix.last()) {
        trimmed
    } else {
        match path_parent(trimmed) {
            Some(q) => if q.len() > 0 {
                q
            } else {
                current_dir()
            },
            None => current_dir(),
        }
    }
}

/// The non-wildcard directory prefix of a glob pattern, the directory whose
/// structure an output directory mirrors:
/// `"templates/**/*.yaml"` gives `"templates"`, `"*.yaml"` gives `"."`,
/// `"/etc/conf/*.conf"` gives `"/etc/conf"`.
pub fn glob_base(pattern: &str) -> (res: String)
    ensures
        res@ == glob_base_of(pattern@),
{
    let chars = chars_of(pattern);
    let n = chars.len();
    let mut w: usize = 0;
    while w < n && !(chars[w] == '*' || chars[w] == '?' || chars[w] == '[')
        invariant
            n == chars@.len(),
            0 <= w <= n,
            forall|j: int| 0 <= j < w ==> !is_wildcard(chars@[j]),
        decreases n - w,
    {
        w = w + 1;
    }
    proof {
        lemma_first_wildcard(chars@, w as int);
    }
    let ghost prefix = chars@.take(w as int);
    let mut t = w;
    while t > 0 && (chars[t - 1] == '/' || chars[t - 1] == '\\')
        invariant
            0 <= t <= w <= n == chars@.len(),
            trim_seps(chars@.take(t as int)) == trim_seps(prefix),
        decreases t,
    {
        proof {
            assert(chars@.take(t as int).drop_last() =~= chars@.take(t - 1));
        }
        t = t - 1;
    }
    proof {
        assert(chars@.take(t as int) =~= chars@.subrange(0, t as int));
    }
    let dot = string_of(&vec!['.'], 0, 1);
    proof {
        assert(seq!['.'].subrange(0, 1) =~= current_dir());
    }
    if t == 0 {
        return dot;
    }
    if chars[w - 1] == '/' || chars[w - 1] == '\\' {
        return string_of(&chars, 0, t);
    }
    proof {
        assert(trim_seps(chars@.take(t as int)) == chars@.take(t as int));
    }
    match parent_at(&chars, 0, t) {
        Some(e) => if e > 0 {
            string_of(&chars, 0, e)
        } else {
            dot
        },
        None => dot,
    }
}

} // verus!
