use vstd::prelude::*;

verus! {

/// `String::push` appends one character to the end of the string.
pub assume_specification[ String::push ](s: &mut String, ch: char)
    ensures
        final(s)@ == old(s)@.push(ch),
;

/// The characters of a string slice, in order.
pub fn chars_of(s: &str) -> (v: Vec<char>)
    ensures
        v@ == s@,
{
    let n = s.unicode_len();
    let mut v: Vec<char> = Vec::new();
    let mut i: usize = 0;
    while i < n
        invariant
            n == s@.len(),
            i <= n,
            v@ == s@.take(i as int),
        decreases n - i,
    {
        v.push(s.get_char(i));
        i = i + 1;
        assert(v@ =~= s@.take(i as int));
    }
    assert(s@.take(n as int) =~= s@);
    v
}

/// A string made of the characters `v[lo..hi]`.
pub fn string_of_range(v: &Vec<char>, lo: usize, hi: usize) -> (s: String)
    requires
        lo <= hi <= v@.len(),
    ensures
        s@ == v@.subrange(lo as int, hi as int),
{
    let mut s = String::new();
    let mut i = lo;
    while i < hi
        invariant
            lo <= i <= hi <= v@.len(),
            s@ == v@.subrange(lo as int, i as int),
        decreases hi - i,
    {
        s.push(v[i]);
        i = i + 1;
        assert(s@ =~= v@.subrange(lo as int, i as int));
    }
    s
}

/// Appends all characters of `v` to `s`.
pub fn push_chars(s: &mut String, v: &Vec<char>)
    ensures
        final(s)@ == old(s)@ + v@,
{
    let mut i: usize = 0;
    while i < v.len()
        invariant
            i <= v@.len(),
            s@ == old(s)@ + v@.take(i as int),
        decreases v@.len() - i,
    {
        s.push(v[i]);
        i = i + 1;
        assert(s@ =~= old(s)@ + v@.take(i as int));
    }
    assert(v@.take(v@.len() as int) =~= v@);
}

/// Appends all characters of the string slice `t` to `s`.
pub fn push_str(s: &mut String, t: &str)
    ensures
        final(s)@ == old(s)@ + t@,
{
    let v = chars_of(t);
    push_chars(s, &v);
}

} // verus!

verus! {

/// Pieces of `s` between occurrences of `sep`, scanning from position `i`
/// with the current piece starting at `start`; occurrences are taken
/// leftmost first and do not overlap, as `str::split` does.
pub open spec fn split_scan(s: Seq<char>, sep: Seq<char>, start: int, i: int) -> Seq<Seq<char>>
    decreases s.len() - i,
{
    if sep.len() == 0 || i < 0 || i + sep.len() > s.len() {
        seq![s.subrange(start, s.len() as int)]
    } else if s.subrange(i, i + sep.len()) == sep {
        seq![s.subrange(start, i)] + split_scan(s, sep, i + sep.len(), i + sep.len())
    } else {
        split_scan(s, sep, start, i + 1)
    }
}

/// `s.split(sep)` for a non-empty separator: the pieces between the
/// separators, including an empty last piece when `s` ends with `sep`.
pub open spec fn split_by(s: Seq<char>, sep: Seq<char>) -> Seq<Seq<char>> {
    split_scan(s, sep, 0, 0)
}

/// ASCII lower-casing of one character; other characters are kept.
pub open spec fn ascii_lower_char(c: char) -> char {
    if 'A' <= c && c <= 'Z' {
        ((c as int) + 32) as char
    } else {
        c
    }
}

/// `str::to_ascii_lowercase`.
pub open spec fn ascii_lower(s: Seq<char>) -> Seq<char> {
    s.map_values(|c: char| ascii_lower_char(c))
}

/// Whether `sep` occurs in `s` at position `i`.
fn matches_at(s: &Vec<char>, sep: &Vec<char>, i: usize) -> (r: bool)
    requires
        i + sep@.len() <= s@.len(),
    ensures
        r == (s@.subrange(i as int, i + sep@.len()) == sep@),
{
    let n = s.len();
    let mut k: usize = 0;
    while k < sep.len()
        invariant
            n == s@.len(),
            i + sep@.len() <= s@.len(),
            k <= sep@.len(),
            forall|j: int| 0 <= j < k ==> s@[i + j] == sep@[j],
        decreases sep@.len() - k,
    {
        if s[i + k] != sep[k] {
            assert(s@.subrange(i as int, i + sep@.len())[k as int] != sep@[k as int]);
            return false;
        }
        k = k + 1;
    }
    assert(s@.subrange(i as int, i + sep@.len()) =~= sep@);
    true
}

/// The bounds `(from, to)` of the pieces of `s.split(sep)`, in order.
pub fn split_ranges(s: &Vec<char>, sep: &Vec<char>) -> (r: Vec<(usize, usize)>)
    requires
        sep@.len() > 0,
    ensures
        r@.len() == split_by(s@, sep@).len(),
        forall|k: int|
            0 <= k < r@.len() ==> {
                &&& (#[trigger] r@[k]).0 <= r@[k].1 <= s@.len()
                &&& s@.subrange(r@[k].0 as int, r@[k].1 as int) == split_by(s@, sep@)[k]
            },
{
    let n = s.len();
    let m = sep.len();
    let mut out: Vec<(usize, usize)> = Vec::new();
    let ghost mut acc: Seq<Seq<char>> = Seq::empty();
    let mut start: usize = 0;
    let mut i: usize = 0;
    while i <= n && m <= n - i
        invariant
            n == s@.len(),
            m == sep@.len(),
            m > 0,
            start <= i <= n,
            acc + split_scan(s@, sep@, start as int, i as int) == split_by(s@, sep@),
            out@.len() == acc.len(),
            forall|k: int|
                0 <= k < out@.len() ==> {
                    &&& (#[trigger] out@[k]).0 <= out@[k].1 <= s@.len()
                    &&& s@.subrange(out@[k].0 as int, out@[k].1 as int) == acc[k]
                },
        decreases n - i,
    {
        if matches_at(s, sep, i) {
            proof {
                let piece = s@.subrange(start as int, i as int);
                assert(split_scan(s@, sep@, start as int, i as int) == seq![piece]
                    + split_scan(s@, sep@, (i + m) as int, (i + m) as int));
                assert(acc.push(piece) + split_scan(s@, sep@, (i + m) as int, (i + m) as int)
                    =~= acc + split_scan(s@, sep@, start as int, i as int));
                acc = acc.push(piece);
            }
            out.push((start, i));
            i = i + m;
            start = i;
        } else {
            i = i + 1;
        }
    }
    proof {
        let piece = s@.subrange(start as int, n as int);
        assert(split_scan(s@, sep@, start as int, i as int) == seq![piece]);
        assert(acc.push(piece) =~= acc + split_scan(s@, sep@, start as int, i as int));
        acc = acc.push(piece);
    }
    out.push((start, n));
    out
}

/// The ASCII lower-cased copy of a string slice (`str::to_ascii_lowercase`).
pub fn to_ascii_lowercase(s: &str) -> (r: String)
    ensures
        r@ == ascii_lower(s@),
{
    let v = chars_of(s);
    let mut r = String::new();
    let mut i: usize = 0;
    while i < v.len()
        invariant
            v@ == s@,
            i <= v@.len(),
            r@ == ascii_lower(s@).take(i as int),
        decreases v@.len() - i,
    {
        let c = v[i];
        let l = if 'A' <= c && c <= 'Z' {
            ((c as u8) + 32) as char
        } else {
            c
        };
        r.push(l);
        i = i + 1;
        assert(r@ =~= ascii_lower(s@).take(i as int));
    }
    assert(ascii_lower(s@).take(v@.len() as int) =~= ascii_lower(s@));
    r
}

/// Whether two string slices hold the same characters.
pub fn str_equal(a: &str, b: &str) -> (r: bool)
    ensures
        r == (a@ == b@),
{
    let x = chars_of(a);
    let y = chars_of(b);
    if x.len() != y.len() {
        return false;
    }
    let mut i: usize = 0;
    while i < x.len()
        invariant
            x@ == a@,
            y@ == b@,
            x@.len() == y@.len(),
            i <= x@.len(),
            forall|j: int| 0 <= j < i ==> x@[j] == y@[j],
        decreases x@.len() - i,
    {
        if x[i] != y[i] {
            return false;
        }
        i = i + 1;
    }
    assert(x@ =~= y@);
    true
}

} // verus!

verus! {

/// `str::split` always yields at least one piece.
pub proof fn lemma_split_scan_nonempty(s: Seq<char>, sep: Seq<char>, start: int, i: int)
    ensures
        split_scan(s, sep, start, i).len() >= 1,
    decreases s.len() - i,
{
    if sep.len() == 0 || i < 0 || i + sep.len() > s.len() {
    } else if s.subrange(i, i + sep.len()) == sep {
        lemma_split_scan_nonempty(s, sep, i + sep.len(), i + sep.len());
    } else {
        lemma_split_scan_nonempty(s, sep, start, i + 1);
    }
}

} // verus!

verus! {

/// Scanning a suffix of `s` gives the same pieces as scanning `s` from the
/// same place.
pub proof fn lemma_scan_shift(s: Seq<char>, sep: Seq<char>, k: int, start: int, i: int)
    requires
        sep.len() > 0,
        0 <= k <= start <= i <= s.len(),
    ensures
        split_scan(s, sep, start, i) == split_scan(s.skip(k), sep, start - k, i - k),
    decreases s.len() - i,
{
    let t = s.skip(k);
    if i + sep.len() > s.len() {
        assert(s.subrange(start, s.len() as int) =~= t.subrange(start - k, t.len() as int));
    } else {
        assert(s.subrange(i, i + sep.len()) =~= t.subrange(i - k, i - k + sep.len()));
        if s.subrange(i, i + sep.len()) == sep {
            assert(s.subrange(start, i) =~= t.subrange(start - k, i - k));
            lemma_scan_shift(s, sep, k, i + sep.len(), i + sep.len());
        } else {
            lemma_scan_shift(s, sep, k, start, i + 1);
        }
    }
}

/// The scan ends the current piece at the first separator it meets.
pub proof fn lemma_scan_to_sep(s: Seq<char>, sep: Seq<char>, start: int, i: int, e: int)
    requires
        sep.len() > 0,
        0 <= start <= i <= e,
        e + sep.len() <= s.len(),
        s.subrange(e, e + sep.len()) == sep,
        forall|j: int| i <= j < e ==> #[trigger] s.subrange(j, j + sep.len()) != sep,
    ensures
        split_scan(s, sep, start, i) == seq![s.subrange(start, e)] + split_scan(
            s,
            sep,
            e + sep.len(),
            e + sep.len(),
        ),
    decreases e - i,
{
    if i < e {
        lemma_scan_to_sep(s, sep, start, i + 1, e);
    }
}

/// Without a separator ahead, the scan gives the rest as one last piece.
pub proof fn lemma_scan_no_sep(s: Seq<char>, sep: Seq<char>, start: int, i: int)
    requires
        sep.len() > 0,
        0 <= start <= i <= s.len(),
        forall|j: int| i <= j && j + sep.len() <= s.len() ==> #[trigger] s.subrange(j, j + sep.len()) != sep,
    ensures
        split_scan(s, sep, start, i) == seq![s.subrange(start, s.len() as int)],
    decreases s.len() - i,
{
    if i + sep.len() <= s.len() {
        lemma_scan_no_sep(s, sep, start, i + 1);
    }
}

/// A text without `c` splits on `c` into itself alone; `p + c + r` with no
/// `c` in `p` splits into `p` and the pieces of `r`.
pub proof fn lemma_split_char(p: Seq<char>, c: char, r: Seq<char>)
    requires
        forall|j: int| 0 <= j < p.len() ==> #[trigger] p[j] != c,
    ensures
        split_by(p, seq![c]) == seq![p],
        split_by(p + seq![c] + r, seq![c]) == seq![p] + split_by(r, seq![c]),
{
    let sep = seq![c];
    assert forall|j: int| 0 <= j && j + 1 <= p.len() implies #[trigger] p.subrange(j, j + 1) != sep by {
        assert(p.subrange(j, j + 1)[0] == p[j]);
    }
    lemma_scan_no_sep(p, sep, 0, 0);
    assert(p.subrange(0, p.len() as int) =~= p);
    let s = p + sep + r;
    let e = p.len() as int;
    assert(s.subrange(e, e + 1) =~= sep);
    assert forall|j: int| 0 <= j < e implies #[trigger] s.subrange(j, j + 1) != sep by {
        assert(s.subrange(j, j + 1)[0] == p[j]);
    }
    lemma_scan_to_sep(s, sep, 0, 0, e);
    assert(s.subrange(0, e) =~= p);
    lemma_scan_shift(s, sep, e + 1, e + 1, e + 1);
    assert(s.skip(e + 1) =~= r);
}

} // verus!
