//! Character-level text primitives with exact specifications: whitespace,
//! trimming, splitting into pieces, lines and words.

use vstd::prelude::*;

verus! {

broadcast use vstd::string::group_string_axioms;

/// Unicode `White_Space`, the property that `char::is_whitespace` tests.
pub open spec fn is_ws(c: char) -> bool {
    ||| ('\u{9}' <= c && c <= '\u{d}')
    ||| c == ' '
    ||| c == '\u{85}'
    ||| c == '\u{a0}'
    ||| c == '\u{1680}'
    ||| ('\u{2000}' <= c && c <= '\u{200a}')
    ||| c == '\u{2028}'
    ||| c == '\u{2029}'
    ||| c == '\u{202f}'
    ||| c == '\u{205f}'
    ||| c == '\u{3000}'
}

/// Whether `c` is whitespace.
pub fn is_whitespace(c: char) -> (b: bool)
    ensures
        b == is_ws(c),
{
    ('\u{9}' <= c && c <= '\u{d}') || c == ' ' || c == '\u{85}' || c == '\u{a0}' || c
        == '\u{1680}' || ('\u{2000}' <= c && c <= '\u{200a}') || c == '\u{2028}' || c
        == '\u{2029}' || c == '\u{202f}' || c == '\u{205f}' || c == '\u{3000}'
}

/// The characters of `s`, in order.
pub fn chars_of(s: &str) -> (v: Vec<char>)
    ensures
        v@ == s@,
{
    let mut v: Vec<char> = Vec::new();
    for c in it: s.chars()
        invariant
            it.seq() == s@,
            v@ == it.seq().take(it.index() as int),
    {
        v.push(c);
    }
    v
}

/// `s` without its leading whitespace.
pub open spec fn trim_start(s: Seq<char>) -> Seq<char>
    decreases s.len(),
{
    if s.len() > 0 && is_ws(s[0]) {
        trim_start(s.drop_first())
    } else {
        s
    }
}

/// `s` without its trailing whitespace.
pub open spec fn trim_end(s: Seq<char>) -> Seq<char>
    decreases s.len(),
{
    if s.len() > 0 && is_ws(s.last()) {
        trim_end(s.drop_last())
    } else {
        s
    }
}

/// `s` without leading and trailing whitespace (what `str::trim` gives).
pub open spec fn trim(s: Seq<char>) -> Seq<char> {
    trim_end(trim_start(s))
}

/// The bounds of `trim(v[lo..hi])` inside `v`.
pub fn trim_bounds(v: &Vec<char>, lo: usize, hi: usize) -> (r: (usize, usize))
    requires
        lo <= hi <= v@.len(),
    ensures
        lo <= r.0 <= r.1 <= hi,
        v@.subrange(r.0 as int, r.1 as int) == trim(v@.subrange(lo as int, hi as int)),
{
    let mut a = lo;
    while a < hi && is_whitespace(v[a])
        invariant
            lo <= a <= hi <= v@.len(),
            trim_start(v@.subrange(lo as int, hi as int)) == trim_start(
                v@.subrange(a as int, hi as int),
            ),
        decreases hi - a,
    {
        assert(v@.subrange(a as int, hi as int).drop_first() =~= v@.subrange(
            a + 1,
            hi as int,
        ));
        a = a + 1;
    }
    assert(trim_start(v@.subrange(a as int, hi as int)) == v@.subrange(a as int, hi as int));
    let mut b = hi;
    while b > a && is_whitespace(v[b - 1])
        invariant
            lo <= a <= b <= hi <= v@.len(),
            trim(v@.subrange(lo as int, hi as int)) == trim_end(v@.subrange(a as int, b as int)),
        decreases b - a,
    {
        assert(v@.subrange(a as int, b as int).drop_last() =~= v@.subrange(
            a as int,
            b - 1,
        ));
        b = b - 1;
    }
    (a, b)
}


/// The pieces of `s` between occurrences of `sep` (what `str::split` gives
/// for a single-character pattern): there is always at least one piece, and
/// `k` separators give `k + 1` pieces.
pub open spec fn split_on(s: Seq<char>, sep: char) -> Seq<Seq<char>>
    decreases s.len(),
{
    if s.len() == 0 {
        seq![Seq::empty()]
    } else {
        let prev = split_on(s.drop_last(), sep);
        if s.last() == sep {
            prev.push(Seq::empty())
        } else {
            prev.update(prev.len() - 1, prev.last().push(s.last()))
        }
    }
}

pub proof fn lemma_split_on_nonempty(s: Seq<char>, sep: char)
    ensures
        split_on(s, sep).len() >= 1,
    decreases s.len(),
{
    if s.len() > 0 {
        lemma_split_on_nonempty(s.drop_last(), sep);
    }
}

/// Whether every bound in `bs` lies inside `[lo, hi]` of `v` and the text it
/// bounds is the matching element of `pieces`.
pub open spec fn bounds_match(
    v: Seq<char>,
    bs: Seq<(usize, usize)>,
    pieces: Seq<Seq<char>>,
    lo: int,
    hi: int,
) -> bool {
    &&& bs.len() == pieces.len()
    &&& forall|k: int|
        0 <= k < bs.len() ==> {
            &&& lo <= #[trigger] bs[k].0 <= bs[k].1 <= hi
            &&& v.subrange(bs[k].0 as int, bs[k].1 as int) == pieces[k]
        }
}

/// The bounds inside `v` of the pieces of `v[lo..hi]` split on `sep`.
pub fn split_bounds(v: &Vec<char>, lo: usize, hi: usize, sep: char) -> (r: Vec<(usize, usize)>)
    requires
        lo <= hi <= v@.len(),
    ensures
        bounds_match(v@, r@, split_on(v@.subrange(lo as int, hi as int), sep), lo as int, hi as int),
{
    let mut r: Vec<(usize, usize)> = Vec::new();
    let mut start = lo;
    let mut i = lo;
    while i < hi
        invariant
            lo <= start <= i <= hi <= v@.len(),
            split_on(v@.subrange(lo as int, i as int), sep).len() == r@.len() + 1,
            bounds_match(
                v@,
                r@,
                split_on(v@.subrange(lo as int, i as int), sep).take(r@.len() as int),
                lo as int,
                i as int,
            ),
            split_on(v@.subrange(lo as int, i as int), sep).last() == v@.subrange(
                start as int,
                i as int,
            ),
        decreases hi - i,
    {
        let ghost prev = split_on(v@.subrange(lo as int, i as int), sep);
        let ghost cur = v@.subrange(lo as int, i + 1);
        assert(cur.drop_last() =~= v@.subrange(lo as int, i as int));
        assert(cur.last() == v@[i as int]);
        if v[i] == sep {
            r.push((start, i));
            start = i + 1;
            assert(split_on(cur, sep) == prev.push(Seq::empty()));
            assert(split_on(cur, sep).take(r@.len() as int) =~= prev);
            assert(v@.subrange(start as int, i + 1) =~= Seq::<char>::empty());
        } else {
            assert(v@.subrange(start as int, i + 1) =~= v@.subrange(start as int, i as int).push(
                v@[i as int],
            ));
            assert(split_on(cur, sep).take(r@.len() as int) =~= prev.take(r@.len() as int));
        }
        i = i + 1;
    }
    r.push((start, hi));
    proof {
        let sp = split_on(v@.subrange(lo as int, hi as int), sep);
        assert forall|k: int| 0 <= k < r@.len() implies {
            &&& lo <= #[trigger] r@[k].0 <= r@[k].1 <= hi
            &&& v@.subrange(r@[k].0 as int, r@[k].1 as int) == sp[k]
        } by {
            if k < r@.len() - 1 {
                assert(sp.take(r@.len() - 1)[k] == sp[k]);
            }
        }
    }
    r
}


/// A line without the carriage return that ended it, if any.
pub open spec fn strip_cr(l: Seq<char>) -> Seq<char> {
    if l.len() > 0 && l.last() == '\r' {
        l.drop_last()
    } else {
        l
    }
}

/// The lines of `s` (what `str::lines` gives): the text between `\n`s, a
/// `\r` before a `\n` dropped, and no empty line after a final `\n`.
pub open spec fn lines(s: Seq<char>) -> Seq<Seq<char>> {
    let ps = split_on(s, '\n');
    let n = if ps.last().len() == 0 {
        ps.len() - 1
    } else {
        ps.len() as int
    };
    Seq::new(
        n as nat,
        |k: int|
            if k < ps.len() - 1 {
                strip_cr(ps[k])
            } else {
                ps[k]
            },
    )
}

/// The bounds inside `v` of the lines of `v`.
pub fn line_bounds(v: &Vec<char>) -> (r: Vec<(usize, usize)>)
    ensures
        bounds_match(v@, r@, lines(v@), 0, v@.len() as int),
{
    let sb = split_bounds(v, 0, v.len(), '\n');
    let ghost ps = split_on(v@.subrange(0, v@.len() as int), '\n');
    assert(v@.subrange(0, v@.len() as int) =~= v@);
    proof {
        lemma_split_on_nonempty(v@, '\n');
    }
    let n = sb.len();
    let mut r: Vec<(usize, usize)> = Vec::new();
    let mut k: usize = 0;
    while k < n
        invariant
            n == sb@.len() == ps.len() >= 1,
            ps == split_on(v@, '\n'),
            0 <= k <= n,
            bounds_match(v@, sb@, ps, 0, v@.len() as int),
            bounds_match(v@, r@, lines(v@).take(r@.len() as int), 0, v@.len() as int),
            r@.len() == k || (k == n && r@.len() == n - 1 && ps.last().len() == 0),
            r@.len() <= lines(v@).len(),
        decreases n - k,
    {
        let (a, b) = sb[k];
        assert(v@.subrange(a as int, b as int) == ps[k as int]);
        if k + 1 < n {
            if b > a && v[b - 1] == '\r' {
                assert(v@.subrange(a as int, b - 1) =~= ps[k as int].drop_last());
                r.push((a, b - 1));
            } else {
                r.push((a, b));
            }
        } else if a < b {
            r.push((a, b));
        }
        k = k + 1;
    }
    assert(lines(v@).take(r@.len() as int) =~= lines(v@));
    r
}


/// The words of `s` (what `str::split_whitespace` gives): its maximal runs
/// of characters that are not whitespace, in order.
pub open spec fn words(s: Seq<char>) -> Seq<Seq<char>>
    decreases s.len(),
{
    if s.len() == 0 {
        Seq::empty()
    } else {
        let prev = words(s.drop_last());
        let c = s.last();
        if is_ws(c) {
            prev
        } else if s.len() >= 2 && !is_ws(s[s.len() - 2]) {
            prev.update(prev.len() - 1, prev.last().push(c))
        } else {
            prev.push(seq![c])
        }
    }
}

/// The bounds inside `v` of the words of `v[lo..hi]`.
pub fn word_bounds(v: &Vec<char>, lo: usize, hi: usize) -> (r: Vec<(usize, usize)>)
    requires
        lo <= hi <= v@.len(),
    ensures
        bounds_match(v@, r@, words(v@.subrange(lo as int, hi as int)), lo as int, hi as int),
{
    let mut r: Vec<(usize, usize)> = Vec::new();
    let mut start = lo;
    let mut in_word = false;
    let mut i = lo;
    while i < hi
        invariant
            lo <= start <= i <= hi <= v@.len(),
            in_word <==> (i > lo && !is_ws(v@[i - 1])),
            in_word ==> words(v@.subrange(lo as int, i as int)).len() == r@.len() + 1
                && words(v@.subrange(lo as int, i as int)).last() == v@.subrange(
                start as int,
                i as int,
            ),
            !in_word ==> words(v@.subrange(lo as int, i as int)).len() == r@.len(),
            bounds_match(
                v@,
                r@,
                words(v@.subrange(lo as int, i as int)).take(r@.len() as int),
                lo as int,
                i as int,
            ),
        decreases hi - i,
    {
        let ghost prev = words(v@.subrange(lo as int, i as int));
        let ghost cur = v@.subrange(lo as int, i + 1);
        assert(cur.drop_last() =~= v@.subrange(lo as int, i as int));
        assert(cur.last() == v@[i as int]);
        if is_whitespace(v[i]) {
            if in_word {
                r.push((start, i));
                assert(prev.take(r@.len() as int) =~= prev);
            }
            in_word = false;
            assert(words(cur) == prev);
        } else {
            if in_word {
                assert(cur[cur.len() - 2] == v@[i - 1]);
                assert(v@.subrange(start as int, i + 1) =~= v@.subrange(
                    start as int,
                    i as int,
                ).push(v@[i as int]));
                assert(words(cur).take(r@.len() as int) =~= prev.take(r@.len() as int));
            } else {
                start = i;
                in_word = true;
                assert(i > lo ==> cur[cur.len() - 2] == v@[i - 1]);
                assert(v@.subrange(start as int, i + 1) =~= seq![v@[i as int]]);
                assert(words(cur).take(r@.len() as int) =~= prev);
            }
        }
        i = i + 1;
    }
    if in_word {
        r.push((start, hi));
    }
    assert(words(v@.subrange(lo as int, hi as int)).take(r@.len() as int) =~= words(
        v@.subrange(lo as int, hi as int),
    ));
    r
}


/// Whether `s` begins with `p`.
pub open spec fn starts_with(s: Seq<char>, p: Seq<char>) -> bool {
    p.len() <= s.len() && s.take(p.len() as int) == p
}

/// Whether `p` occurs in `s`.
pub open spec fn contains(s: Seq<char>, p: Seq<char>) -> bool {
    exists|i: int| 0 <= i && i + p.len() <= s.len() && #[trigger] s.subrange(i, i + p.len()) == p
}

/// Whether `p` occurs in `v` at position `i`, ending at or before `hi`.
pub fn matches_at(v: &Vec<char>, i: usize, hi: usize, p: &Vec<char>) -> (b: bool)
    requires
        i <= hi <= v@.len(),
    ensures
        b == (i + p@.len() <= hi && v@.subrange(i as int, i + p@.len()) == p@),
{
    if p.len() > hi - i {
        return false;
    }
    let mut j: usize = 0;
    while j < p.len()
        invariant
            i + p@.len() <= hi <= v@.len(),
            0 <= j <= p@.len(),
            v@.subrange(i as int, i + j) == p@.take(j as int),
        decreases p@.len() - j,
    {
        if v[i + j] != p[j] {
            assert(v@.subrange(i as int, i + p@.len())[j as int] != p@[j as int]);
            return false;
        }
        assert(v@.subrange(i as int, i + j + 1) =~= v@.subrange(i as int, i + j).push(
            v@[i + j],
        ));
        assert(p@.take(j + 1) =~= p@.take(j as int).push(p@[j as int]));
        j = j + 1;
    }
    assert(p@.take(p@.len() as int) =~= p@);
    true
}

/// Whether `v[lo..hi]` begins with `p`.
pub fn has_prefix(v: &Vec<char>, lo: usize, hi: usize, p: &Vec<char>) -> (b: bool)
    requires
        lo <= hi <= v@.len(),
    ensures
        b == starts_with(v@.subrange(lo as int, hi as int), p@),
{
    let b = matches_at(v, lo, hi, p);
    assert(b ==> v@.subrange(lo as int, hi as int).take(p@.len() as int) =~= v@.subrange(
        lo as int,
        lo + p@.len(),
    ));
    assert(starts_with(v@.subrange(lo as int, hi as int), p@) ==> v@.subrange(
        lo as int,
        hi as int,
    ).take(p@.len() as int) =~= v@.subrange(lo as int, lo + p@.len()));
    b
}

/// Whether `v[lo..hi]` is exactly `p`.
pub fn equals(v: &Vec<char>, lo: usize, hi: usize, p: &Vec<char>) -> (b: bool)
    requires
        lo <= hi <= v@.len(),
    ensures
        b == (v@.subrange(lo as int, hi as int) == p@),
{
    if hi - lo != p.len() {
        return false;
    }
    matches_at(v, lo, hi, p)
}

/// Whether `p` occurs in `v[lo..hi]`.
pub fn contains_in(v: &Vec<char>, lo: usize, hi: usize, p: &Vec<char>) -> (b: bool)
    requires
        lo <= hi <= v@.len(),
    ensures
        b == contains(v@.subrange(lo as int, hi as int), p@),
{
    let ghost s = v@.subrange(lo as int, hi as int);
    let mut i = lo;
    while i < hi
        invariant
            lo <= i <= hi,
            hi <= v@.len(),
            s == v@.subrange(lo as int, hi as int),
            forall|j: int|
                0 <= j < i - lo ==> !(j + p@.len() <= s.len() && #[trigger] s.subrange(
                    j,
                    j + p@.len(),
                ) == p@),
        decreases hi - i,
    {
        if matches_at(v, i, hi, p) {
            assert(s.subrange(i - lo, i - lo + p@.len()) =~= v@.subrange(
                i as int,
                i + p@.len(),
            ));
            return true;
        }
        assert(i - lo + p@.len() <= s.len() ==> s.subrange(i - lo, i - lo + p@.len())
            =~= v@.subrange(i as int, i + p@.len()));
        i = i + 1;
    }
    let b = matches_at(v, hi, hi, p);
    assert(hi - lo + p@.len() <= s.len() ==> s.subrange(hi - lo, hi - lo + p@.len())
        =~= v@.subrange(hi as int, hi + p@.len()));
    b
}

/// `s` with every trailing copy of a non-empty `p` removed (what
/// `str::trim_end_matches` gives for a string pattern).
pub open spec fn trim_end_matches(s: Seq<char>, p: Seq<char>) -> Seq<char>
    decreases s.len(),
{
    if p.len() > 0 && p.len() <= s.len() && s.skip(s.len() - p.len()) == p {
        trim_end_matches(s.take(s.len() - p.len()), p)
    } else {
        s
    }
}

/// The end of `trim_end_matches(v[lo..hi], p)` inside `v`.
pub fn trim_end_matches_bound(v: &Vec<char>, lo: usize, hi: usize, p: &Vec<char>) -> (e: usize)
    requires
        lo <= hi <= v@.len(),
    ensures
        lo <= e <= hi,
        v@.subrange(lo as int, e as int) == trim_end_matches(v@.subrange(lo as int, hi as int), p@),
{
    if p.len() == 0 {
        return hi;
    }
    let mut e = hi;
    while e - lo >= p.len() && matches_at(v, e - p.len(), e, p)
        invariant
            lo <= e <= hi <= v@.len(),
            p@.len() > 0,
            trim_end_matches(v@.subrange(lo as int, hi as int), p@) == trim_end_matches(
                v@.subrange(lo as int, e as int),
                p@,
            ),
        decreases e,
    {
        assert(v@.subrange(lo as int, e as int).skip(e - lo - p@.len()) =~= v@.subrange(
            e - p@.len(),
            e as int,
        ));
        assert(v@.subrange(lo as int, e as int).take(e - lo - p@.len()) =~= v@.subrange(
            lo as int,
            e - p@.len(),
        ));
        e = e - p.len();
    }
    assert(e - lo >= p@.len() ==> v@.subrange(lo as int, e as int).skip(e - lo - p@.len())
        =~= v@.subrange(e - p@.len(), e as int));
    e
}

/// The text of `s` between character positions `lo` and `hi`, as a `String`.
pub fn text_between(s: &str, lo: usize, hi: usize) -> (t: String)
    requires
        lo <= hi <= s@.len(),
    ensures
        t@ == s@.subrange(lo as int, hi as int),
{
    String::from_str(s.substring_char(lo, hi))
}


/// `s` without leading and trailing whitespace, as a `String`.
pub fn trim_text(s: &str) -> (t: String)
    ensures
        t@ == trim(s@),
{
    let v = chars_of(s);
    let (a, b) = trim_bounds(&v, 0, v.len());
    assert(v@.subrange(0, v@.len() as int) =~= v@);
    text_between(s, a, b)
}

/// `s` with each occurrence of a non-empty `p` replaced by `r`, the
/// occurrences taken from left to right without overlap (what `str::replace`
/// gives for a non-empty pattern).
pub open spec fn replace_all(s: Seq<char>, p: Seq<char>, r: Seq<char>) -> Seq<char>
    decreases s.len(),
{
    if p.len() == 0 || s.len() < p.len() {
        s
    } else if s.take(p.len() as int) == p {
        r + replace_all(s.skip(p.len() as int), p, r)
    } else {
        seq![s[0]] + replace_all(s.drop_first(), p, r)
    }
}

/// `s` with each occurrence of `p` replaced by `r`.
pub fn replace_text(s: &str, p: &str, r: &str) -> (t: String)
    requires
        p@.len() > 0,
    ensures
        t@ == replace_all(s@, p@, r@),
{
    let v = chars_of(s);
    let pv = chars_of(p);
    let n = v.len();
    let mut out = String::new();
    let mut seg: usize = 0;
    let mut i: usize = 0;
    assert(v@.skip(0) =~= v@);
    while i < n
        invariant
            v@ == s@,
            pv@ == p@,
            n == v@.len(),
            p@.len() > 0,
            seg <= i <= n,
            out@ + v@.subrange(seg as int, i as int) + replace_all(v@.skip(i as int), p@, r@)
                == replace_all(v@, p@, r@),
        decreases n - i,
    {
        let ghost rest = v@.skip(i as int);
        if matches_at(&v, i, n, &pv) {
            assert(rest.take(p@.len() as int) =~= v@.subrange(i as int, i + p@.len()));
            assert(rest.skip(p@.len() as int) =~= v@.skip(i + p@.len()));
            out.append(s.substring_char(seg, i));
            out.append(r);
            i = i + pv.len();
            seg = i;
            assert(v@.subrange(seg as int, i as int) =~= Seq::<char>::empty());
            assert(out@ + v@.subrange(seg as int, i as int) =~= out@);
        } else {
            assert(rest.drop_first() =~= v@.skip(i + 1));
            assert(rest.len() >= p@.len() ==> rest.take(p@.len() as int) =~= v@.subrange(
                i as int,
                i + p@.len(),
            ));
            assert(rest.len() < p@.len() ==> rest =~= seq![rest[0]] + rest.drop_first());
            assert(replace_all(rest, p@, r@) == seq![v@[i as int]] + replace_all(
                v@.skip(i + 1),
                p@,
                r@,
            ));
            assert(v@.subrange(seg as int, i + 1) =~= v@.subrange(seg as int, i as int) + seq![
                v@[i as int],
            ]);
            i = i + 1;
        }
    }
    out.append(s.substring_char(seg, n));
    assert(v@.skip(n as int) =~= Seq::<char>::empty());
    out
}


/// Where a replacement `r` made only of `mark`s is applied, a prefix of the
/// result free of `mark` is an untouched prefix of the input.
pub proof fn lemma_replace_all_unmarked_prefix(
    t: Seq<char>,
    p: Seq<char>,
    r: Seq<char>,
    mark: char,
    m: int,
)
    requires
        p.len() > 0,
        r.len() > 0,
        forall|k: int| 0 <= k < r.len() ==> r[k] == mark,
        0 <= m <= replace_all(t, p, r).len(),
        forall|k: int| 0 <= k < m ==> replace_all(t, p, r)[k] != mark,
    ensures
        m <= t.len(),
        replace_all(t, p, r).take(m) == t.take(m),
    decreases t.len(),
{
    if t.len() < p.len() {
    } else if t.take(p.len() as int) == p {
        if m > 0 {
            assert(replace_all(t, p, r)[0] == r[0]);
        }
        assert(replace_all(t, p, r).take(m) =~= t.take(m));
    } else if m > 0 {
        let t1 = t.drop_first();
        let rest = replace_all(t1, p, r);
        assert(replace_all(t, p, r) == seq![t[0]] + rest);
        assert forall|k: int| 0 <= k < m - 1 implies rest[k] != mark by {
            assert(replace_all(t, p, r)[k + 1] == rest[k]);
        }
        lemma_replace_all_unmarked_prefix(t1, p, r, mark, m - 1);
        assert(replace_all(t, p, r).take(m) =~= seq![t[0]] + rest.take(m - 1));
        assert(t.take(m) =~= seq![t[0]] + t1.take(m - 1));
    } else {
        assert(replace_all(t, p, r).take(m) =~= t.take(m));
    }
}

/// A replacement made only of `mark`s leaves no occurrence of a pattern that
/// holds no `mark`.
pub proof fn lemma_replace_all_removes_pattern(s: Seq<char>, p: Seq<char>, r: Seq<char>, mark: char)
    requires
        p.len() > 0,
        r.len() > 0,
        forall|k: int| 0 <= k < r.len() ==> r[k] == mark,
        forall|k: int| 0 <= k < p.len() ==> p[k] != mark,
    ensures
        !contains(replace_all(s, p, r), p),
    decreases s.len(),
{
    let out = replace_all(s, p, r);
    if s.len() < p.len() {
        assert forall|i: int| 0 <= i && i + p.len() <= out.len() implies #[trigger] out.subrange(
            i,
            i + p.len(),
        ) != p by {}
    } else if s.take(p.len() as int) == p {
        let rest = replace_all(s.skip(p.len() as int), p, r);
        lemma_replace_all_removes_pattern(s.skip(p.len() as int), p, r, mark);
        assert(out == r + rest);
        assert forall|i: int| 0 <= i && i + p.len() <= out.len() implies #[trigger] out.subrange(
            i,
            i + p.len(),
        ) != p by {
            if i < r.len() {
                assert(out.subrange(i, i + p.len())[0] == r[i]);
            } else {
                assert(out.subrange(i, i + p.len()) =~= rest.subrange(
                    i - r.len(),
                    i - r.len() + p.len(),
                ));
            }
        }
    } else {
        let s1 = s.drop_first();
        let rest = replace_all(s1, p, r);
        lemma_replace_all_removes_pattern(s1, p, r, mark);
        assert(out == seq![s[0]] + rest);
        assert forall|i: int| 0 <= i && i + p.len() <= out.len() implies #[trigger] out.subrange(
            i,
            i + p.len(),
        ) != p by {
            if i >= 1 {
                assert(out.subrange(i, i + p.len()) =~= rest.subrange(i - 1, i - 1 + p.len()));
            } else if out.subrange(0, p.len() as int) == p {
                assert forall|k: int| 0 <= k < p.len() - 1 implies rest[k] != mark by {
                    assert(rest[k] == out.subrange(0, p.len() as int)[k + 1]);
                }
                lemma_replace_all_unmarked_prefix(s1, p, r, mark, p.len() - 1);
                assert(s.take(p.len() as int) =~= seq![s[0]] + s1.take(p.len() - 1));
                assert(out.subrange(0, p.len() as int) =~= seq![s[0]] + rest.take(p.len() - 1));
            }
        }
    }
}


/// The values that `f` gives for the lines `ls`, in order, skipping the
/// lines for which it gives none.
pub open spec fn filter_map_lines<T>(ls: Seq<Seq<char>>, f: spec_fn(Seq<char>) -> Option<T>) -> Seq<
    T,
>
    decreases ls.len(),
{
    if ls.len() == 0 {
        Seq::empty()
    } else {
        let prev = filter_map_lines(ls.drop_last(), f);
        match f(ls.last()) {
            Some(x) => prev.push(x),
            None => prev,
        }
    }
}

/// The value that `f` gives for the first line of `ls` for which it gives
/// one.
pub open spec fn first_of_lines<T>(ls: Seq<Seq<char>>, f: spec_fn(Seq<char>) -> Option<T>) -> Option<
    T,
>
    decreases ls.len(),
{
    if ls.len() == 0 {
        None
    } else {
        match f(ls[0]) {
            Some(x) => Some(x),
            None => first_of_lines(ls.drop_first(), f),
        }
    }
}


proof fn lemma_trim_start_result(s: Seq<char>)
    ensures
        trim_start(s).len() == 0 || !is_ws(trim_start(s)[0]),
    decreases s.len(),
{
    if s.len() > 0 && is_ws(s[0]) {
        lemma_trim_start_result(s.drop_first());
    }
}

proof fn lemma_trim_end_result(s: Seq<char>)
    ensures
        trim_end(s).len() == 0 || !is_ws(trim_end(s).last()),
        trim_end(s).len() <= s.len(),
        trim_end(s) == s.take(trim_end(s).len() as int),
    decreases s.len(),
{
    if s.len() > 0 && is_ws(s.last()) {
        lemma_trim_end_result(s.drop_last());
        assert(s.drop_last().take(trim_end(s).len() as int) =~= s.take(trim_end(s).len() as int));
    } else {
        assert(s.take(s.len() as int) =~= s);
    }
}

/// Trimming twice gives what trimming once gives.
pub proof fn trim_is_idempotent(s: Seq<char>)
    ensures
        trim(trim(s)) == trim(s),
{
    let x = trim_start(s);
    let y = trim_end(x);
    lemma_trim_start_result(s);
    lemma_trim_end_result(x);
    if y.len() > 0 {
        assert(y[0] == x[0]);
    }
    assert(trim_start(y) == y);
    lemma_trim_end_result(y);
    if y.len() > 0 {
        assert(trim_end(y) == y);
    }
}


/// Splitting a concatenation: the last piece of `a` and the first piece of
/// `b` join into one piece.
pub proof fn lemma_split_on_concat(a: Seq<char>, b: Seq<char>, sep: char)
    ensures
        split_on(a + b, sep) == split_on(a, sep).drop_last() + seq![
            split_on(a, sep).last() + split_on(b, sep)[0],
        ] + split_on(b, sep).skip(1),
    decreases b.len(),
{
    lemma_split_on_nonempty(a, sep);
    lemma_split_on_nonempty(b, sep);
    let pa = split_on(a, sep);
    if b.len() == 0 {
        assert(a + b =~= a);
        assert(pa.last() + Seq::<char>::empty() =~= pa.last());
        assert(pa.drop_last() + seq![pa.last()] =~= pa);
        assert(split_on(b, sep).skip(1) =~= Seq::<Seq<char>>::empty());
        assert(pa.drop_last() + seq![pa.last() + split_on(b, sep)[0]] + split_on(b, sep).skip(1)
            =~= pa);
    } else {
        let b1 = b.drop_last();
        let c = b.last();
        assert((a + b).drop_last() =~= a + b1);
        assert((a + b).last() == c);
        lemma_split_on_concat(a, b1, sep);
        lemma_split_on_nonempty(b1, sep);
        let pb1 = split_on(b1, sep);
        let pb = split_on(b, sep);
        let p1 = split_on(a + b1, sep);
        let p = split_on(a + b, sep);
        if c == sep {
            assert(pb == pb1.push(Seq::empty()));
            assert(p == p1.push(Seq::empty()));
            assert(pb[0] == pb1[0]);
            assert(pb.skip(1) =~= pb1.skip(1).push(Seq::empty()));
            assert(p =~= pa.drop_last() + seq![pa.last() + pb[0]] + pb.skip(1));
        } else {
            assert(pb == pb1.update(pb1.len() - 1, pb1.last().push(c)));
            assert(p == p1.update(p1.len() - 1, p1.last().push(c)));
            if pb1.len() == 1 {
                assert(pb[0] == pb1[0].push(c));
                assert(pb.skip(1) =~= Seq::<Seq<char>>::empty());
                assert(pb1.skip(1) =~= Seq::<Seq<char>>::empty());
                assert(pa.last() + pb1[0].push(c) =~= (pa.last() + pb1[0]).push(c));
                assert(p =~= pa.drop_last() + seq![pa.last() + pb[0]] + pb.skip(1));
            } else {
                assert(pb[0] == pb1[0]);
                assert(pb.skip(1) =~= pb1.skip(1).update(pb1.len() - 2, pb1.last().push(c)));
                assert(p =~= pa.drop_last() + seq![pa.last() + pb[0]] + pb.skip(1));
            }
        }
    }
}

/// Text without a separator is a single piece.
pub proof fn lemma_split_on_no_sep(s: Seq<char>, sep: char)
    requires
        forall|i: int| 0 <= i < s.len() ==> s[i] != sep,
    ensures
        split_on(s, sep) == seq![s],
    decreases s.len(),
{
    if s.len() > 0 {
        lemma_split_on_no_sep(s.drop_last(), sep);
        assert(s.drop_last().push(s.last()) =~= s);
        assert(seq![s.drop_last()].update(0, s.drop_last().push(s.last())) =~= seq![s]);
    } else {
        assert(s =~= Seq::<char>::empty());
    }
}

/// The lines of text that is empty or ends in a newline, followed by more
/// text, are the lines of the first part followed by those of the second.
pub proof fn lemma_lines_concat(a: Seq<char>, b: Seq<char>)
    requires
        a.len() == 0 || a.last() == '\n',
    ensures
        lines(a + b) == lines(a) + lines(b),
{
    if a.len() == 0 {
        assert(a + b =~= b);
        assert(lines(a) =~= Seq::<Seq<char>>::empty());
        assert(lines(a) + lines(b) =~= lines(b));
    } else {
        lemma_split_on_concat(a, b, '\n');
        lemma_split_on_nonempty(a, '\n');
        lemma_split_on_nonempty(b, '\n');
        let pa = split_on(a, '\n');
        let pb = split_on(b, '\n');
        let p = split_on(a + b, '\n');
        assert(pa == split_on(a.drop_last(), '\n').push(Seq::empty()));
        assert(pa.last() =~= Seq::<char>::empty());
        assert(pa.last() + pb[0] =~= pb[0]);
        assert(seq![pb[0]] + pb.skip(1) =~= pb);
        assert(p =~= pa.drop_last() + pb);
        assert(p.last() == pb.last());
        let la = lines(a);
        let lb = lines(b);
        let l = lines(a + b);
        assert(la.len() == pa.len() - 1);
        assert(l.len() == la.len() + lb.len());
        assert forall|k: int| 0 <= k < l.len() implies #[trigger] l[k] == (la + lb)[k] by {
            if k < la.len() {
                assert(p[k] == pa[k]);
            } else {
                assert(p[k] == pb[k - la.len()]);
            }
        }
        assert(l =~= la + lb);
    }
}

/// A line without line breaks, followed by a newline, is one line.
pub proof fn lemma_lines_single(line: Seq<char>)
    requires
        forall|i: int| 0 <= i < line.len() ==> line[i] != '\n' && line[i] != '\r',
    ensures
        lines(line + seq!['\n']) == seq![line],
{
    lemma_split_on_no_sep(line, '\n');
    let s = line + seq!['\n'];
    assert(s.drop_last() =~= line);
    assert(split_on(s, '\n') == seq![line].push(Seq::<char>::empty()));
    assert(lines(s) =~= seq![line]);
}


/// Whether `s` ends with `p`.
pub open spec fn ends_with(s: Seq<char>, p: Seq<char>) -> bool {
    p.len() <= s.len() && s.skip(s.len() - p.len()) == p
}

/// No word holds whitespace.
pub proof fn lemma_words_have_no_ws(s: Seq<char>)
    ensures
        forall|i: int, j: int|
            0 <= i < words(s).len() && 0 <= j < words(s)[i].len() ==> !is_ws(
                #[trigger] words(s)[i][j],
            ),
    decreases s.len(),
{
    if s.len() > 0 {
        let prev = words(s.drop_last());
        let c = s.last();
        lemma_words_have_no_ws(s.drop_last());
        let w = words(s);
        if is_ws(c) {
        } else if s.len() >= 2 && !is_ws(s[s.len() - 2]) {
            lemma_words_ends_in_word(s.drop_last());
            assert forall|i: int, j: int| 0 <= i < w.len() && 0 <= j < w[i].len() implies !is_ws(
                #[trigger] w[i][j],
            ) by {
                if i < prev.len() - 1 {
                    assert(w[i] == prev[i]);
                } else if j < prev.last().len() {
                    assert(w[i][j] == prev.last()[j]);
                }
            }
        } else {
            assert forall|i: int, j: int| 0 <= i < w.len() && 0 <= j < w[i].len() implies !is_ws(
                #[trigger] w[i][j],
            ) by {
                if i < prev.len() {
                    assert(w[i] == prev[i]);
                }
            }
        }
    }
}

proof fn lemma_words_ends_in_word(s: Seq<char>)
    requires
        s.len() > 0,
        !is_ws(s.last()),
    ensures
        words(s).len() >= 1,
    decreases s.len(),
{
    if s.len() >= 2 && !is_ws(s[s.len() - 2]) {
        lemma_words_ends_in_word(s.drop_last());
    }
}

/// Trimming a non-empty pattern off the end leaves a prefix that does not
/// end with the pattern.
pub proof fn lemma_trim_end_matches_prefix(s: Seq<char>, p: Seq<char>)
    requires
        p.len() > 0,
    ensures
        trim_end_matches(s, p).len() <= s.len(),
        trim_end_matches(s, p) == s.take(trim_end_matches(s, p).len() as int),
        !ends_with(trim_end_matches(s, p), p),
    decreases s.len(),
{
    if p.len() <= s.len() && s.skip(s.len() - p.len()) == p {
        let s1 = s.take(s.len() - p.len());
        lemma_trim_end_matches_prefix(s1, p);
        assert(s1.take(trim_end_matches(s, p).len() as int) =~= s.take(
            trim_end_matches(s, p).len() as int,
        ));
    } else {
        assert(s.take(s.len() as int) =~= s);
    }
}


proof fn lemma_trim_start_push(y: Seq<char>, c: char)
    ensures
        trim_start(y.push(c)) == (if trim_start(y).len() == 0 && is_ws(c) {
            Seq::<char>::empty()
        } else {
            trim_start(y).push(c)
        }),
    decreases y.len(),
{
    if y.len() > 0 && is_ws(y[0]) {
        assert(y.push(c)[0] == y[0]);
        assert(y.push(c).drop_first() =~= y.drop_first().push(c));
        lemma_trim_start_push(y.drop_first(), c);
    } else if y.len() == 0 {
        assert(y.push(c) =~= seq![c]);
        assert(seq![c][0] == c);
        assert(trim_start(y) == y);
        if is_ws(c) {
            assert(seq![c].drop_first() =~= Seq::<char>::empty());
            assert(trim_start(seq![c].drop_first()) =~= Seq::<char>::empty());
            assert(trim_start(y.push(c)) =~= Seq::<char>::empty());
        } else {
            assert(trim_start(y.push(c)) == y.push(c));
        }
    } else {
        assert(y.push(c)[0] == y[0]);
    }
}

/// Dropping the carriage return that ends a line does not change its
/// trimmed text.
pub proof fn lemma_trim_strip_cr(x: Seq<char>)
    ensures
        trim(strip_cr(x)) == trim(x),
{
    if x.len() > 0 && x.last() == '\r' {
        let y = x.drop_last();
        assert(y.push('\r') =~= x);
        lemma_trim_start_push(y, '\r');
        if trim_start(y).len() > 0 {
            assert(trim_start(x).drop_last() =~= trim_start(y));
        }
    }
}


/// Pieces of two texts joined by one separator are the pieces of each.
pub proof fn lemma_split_on_join(a: Seq<char>, b: Seq<char>, sep: char)
    ensures
        split_on(a + seq![sep] + b, sep) == split_on(a, sep) + split_on(b, sep),
{
    let a1 = a + seq![sep];
    assert(a1.drop_last() =~= a);
    assert(a1.last() == sep);
    lemma_split_on_nonempty(b, sep);
    lemma_split_on_concat(a1, b, sep);
    let pa1 = split_on(a1, sep);
    let pb = split_on(b, sep);
    assert(pa1 == split_on(a, sep).push(Seq::empty()));
    assert(pa1.drop_last() =~= split_on(a, sep));
    assert(pa1.last() + pb[0] =~= pb[0]);
    assert(seq![pb[0]] + pb.skip(1) =~= pb);
    assert(split_on(a1, sep).drop_last() + seq![split_on(a1, sep).last() + pb[0]] + pb.skip(1)
        =~= split_on(a, sep) + pb);
}

/// Whether `s` holds no `c`.
pub open spec fn free_of(s: Seq<char>, c: char) -> bool {
    forall|i: int| 0 <= i < s.len() ==> s[i] != c
}

/// Whether every character of `s` is whitespace.
pub open spec fn blank(s: Seq<char>) -> bool {
    forall|i: int| 0 <= i < s.len() ==> is_ws(s[i])
}

/// Whether `s` holds no whitespace.
pub open spec fn unspaced(s: Seq<char>) -> bool {
    forall|i: int| 0 <= i < s.len() ==> !is_ws(s[i])
}

/// Words of two texts, the first empty or ending in whitespace, are the
/// words of each.
pub proof fn lemma_words_concat(a: Seq<char>, b: Seq<char>)
    requires
        a.len() == 0 || is_ws(a.last()),
    ensures
        words(a + b) == words(a) + words(b),
    decreases b.len(),
{
    if b.len() == 0 {
        assert(a + b =~= a);
        assert(words(b) =~= Seq::<Seq<char>>::empty());
        assert(words(a) + words(b) =~= words(a));
    } else {
        let b1 = b.drop_last();
        let c = b.last();
        let s = a + b;
        assert(s.drop_last() =~= a + b1);
        assert(s.last() == c);
        lemma_words_concat(a, b1);
        if is_ws(c) {
        } else if b.len() >= 2 && !is_ws(b[b.len() - 2]) {
            assert(s[s.len() - 2] == b[b.len() - 2]);
            lemma_words_ends_in_word(b1);
            assert(b1.last() == b[b.len() - 2]);
            assert(words(s) =~= words(a) + words(b));
        } else {
            if b.len() >= 2 {
                assert(s[s.len() - 2] == b[b.len() - 2]);
            } else if s.len() >= 2 {
                assert(s[s.len() - 2] == a.last());
            }
            assert(words(s) =~= words(a) + words(b));
        }
    }
}

/// A non-empty text without whitespace is one word.
pub proof fn lemma_words_single(s: Seq<char>)
    requires
        s.len() > 0,
        unspaced(s),
    ensures
        words(s) == seq![s],
    decreases s.len(),
{
    assert(!is_ws(s[s.len() - 1]));
    if s.len() >= 2 {
        assert(!is_ws(s[s.len() - 2]));
        lemma_words_single(s.drop_last());
        assert(s[s.len() - 2] == s.drop_last().last());
        assert(s.drop_last().push(s.last()) =~= s);
        assert(seq![s.drop_last()].update(0, s.drop_last().push(s.last())) =~= seq![s]);
    } else {
        assert(s.drop_last() =~= Seq::<char>::empty());
        assert(words(s.drop_last()) =~= Seq::<Seq<char>>::empty());
        assert(seq![s.last()] =~= s);
    }
}

/// Blank text has no words.
pub proof fn lemma_words_blank(s: Seq<char>)
    requires
        blank(s),
    ensures
        words(s) == Seq::<Seq<char>>::empty(),
    decreases s.len(),
{
    if s.len() > 0 {
        lemma_words_blank(s.drop_last());
    }
}

/// Leading blanks do not change the trimmed start.
pub proof fn lemma_trim_start_blank_prefix(ind: Seq<char>, y: Seq<char>)
    requires
        blank(ind),
    ensures
        trim_start(ind + y) == trim_start(y),
    decreases ind.len(),
{
    if ind.len() > 0 {
        assert((ind + y)[0] == ind[0]);
        assert((ind + y).drop_first() =~= ind.drop_first() + y);
        lemma_trim_start_blank_prefix(ind.drop_first(), y);
    } else {
        assert(ind + y =~= y);
    }
}


/// Lines for which `f` gives nothing can be skipped when looking for the
/// first value.
pub proof fn lemma_first_of_lines_skip<T>(ls: Seq<Seq<char>>, k: int, f: spec_fn(Seq<char>) -> Option<T>)
    requires
        0 <= k <= ls.len(),
        forall|j: int| 0 <= j < k ==> f(#[trigger] ls[j]) is None,
    ensures
        first_of_lines(ls, f) == first_of_lines(ls.skip(k), f),
    decreases k,
{
    if k == 0 {
        assert(ls.skip(0) =~= ls);
    } else {
        lemma_first_of_lines_skip(ls, k - 1, f);
        let t = ls.skip(k - 1);
        assert(t[0] == ls[k - 1]);
        assert(t.drop_first() =~= ls.skip(k));
    }
}

} // verus!
