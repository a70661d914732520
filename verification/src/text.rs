//! Character-level text helpers shared by the protocol modules: the
//! mathematical meaning of splitting, trimming, lowercasing and decimal
//! rendering, and executable versions proved against it.

use vstd::prelude::*;

verus! {

/// The Unicode `White_Space` property, which is what `char::is_whitespace`
/// and `str::trim` go by.
pub open spec fn is_ws(c: char) -> bool {
    let u = c as u32;
    ||| (0x09 <= u && u <= 0x0d)
    ||| u == 0x20
    ||| u == 0x85
    ||| u == 0xa0
    ||| u == 0x1680
    ||| (0x2000 <= u && u <= 0x200a)
    ||| u == 0x2028
    ||| u == 0x2029
    ||| u == 0x202f
    ||| u == 0x205f
    ||| u == 0x3000
}

pub fn is_whitespace(c: char) -> (r: bool)
    ensures
        r == is_ws(c),
{
    let u = c as u32;
    (0x09 <= u && u <= 0x0d) || u == 0x20 || u == 0x85 || u == 0xa0 || u == 0x1680 || (0x2000
        <= u && u <= 0x200a) || u == 0x2028 || u == 0x2029 || u == 0x202f || u == 0x205f || u
        == 0x3000
}

/// `s` without leading whitespace.
pub open spec fn trim_start(s: Seq<char>) -> Seq<char>
    decreases s.len(),
{
    if s.len() > 0 && is_ws(s[0]) {
        trim_start(s.drop_first())
    } else {
        s
    }
}

/// `s` without trailing whitespace.
pub open spec fn trim_end(s: Seq<char>) -> Seq<char>
    decreases s.len(),
{
    if s.len() > 0 && is_ws(s.last()) {
        trim_end(s.drop_last())
    } else {
        s
    }
}

/// `str::trim`: whitespace removed from both ends.
pub open spec fn trim(s: Seq<char>) -> Seq<char> {
    trim_end(trim_start(s))
}

/// ASCII `A`-`Z` mapped to `a`-`z`, every other character kept.
pub open spec fn lower_char(c: char) -> char {
    if 'A' <= c && c <= 'Z' {
        ((c as u32) + 32) as char
    } else {
        c
    }
}

/// `str::to_ascii_lowercase`.
pub open spec fn lower(s: Seq<char>) -> Seq<char> {
    s.map_values(|c: char| lower_char(c))
}

pub fn to_lower_char(c: char) -> (r: char)
    ensures
        r == lower_char(c),
{
    if 'A' <= c && c <= 'Z' {
        let u = (c as u32) + 32;
        assert(0x61 <= u <= 0x7a);
        // The range keeps the value a scalar.
        char_from_ascii(u as u8)
    } else {
        c
    }
}

/// The character of an ASCII code.
pub fn char_from_ascii(b: u8) -> (c: char)
    requires
        b < 128,
    ensures
        c as u32 == b as u32,
{
    b as char
}

/// True when `sep` occurs in `s` at index `i`.
pub open spec fn matches_at<A>(s: Seq<A>, sep: Seq<A>, i: int) -> bool {
    0 <= i && i + sep.len() <= s.len() && s.subrange(i, i + sep.len()) == sep
}

/// The first index at or after `i` where `sep` occurs in `s`.
pub open spec fn first_match_from<A>(s: Seq<A>, sep: Seq<A>, i: int) -> Option<int>
    decreases s.len() + 1 - i,
{
    if i < 0 || i + sep.len() > s.len() {
        None
    } else if matches_at(s, sep, i) {
        Some(i)
    } else {
        first_match_from(s, sep, i + 1)
    }
}

/// `str::split` with a non-empty separator: the pieces between the
/// leftmost non-overlapping occurrences of `sep`.
pub open spec fn split<A>(s: Seq<A>, sep: Seq<A>) -> Seq<Seq<A>>
    decreases s.len(),
    when sep.len() > 0
{
    match first_match_from(s, sep, 0) {
        None => seq![s],
        Some(i) => if 0 <= i && i + sep.len() <= s.len() {
            seq![s.take(i)] + split(s.skip(i + sep.len()), sep)
        } else {
            seq![s]
        },
    }
}

/// Splitting gives at least one piece.
pub proof fn lemma_split_nonempty<A>(s: Seq<A>, sep: Seq<A>)
    requires
        sep.len() > 0,
    ensures
        split(s, sep).len() >= 1,
    decreases s.len(),
{
    if let Some(i) = first_match_from(s, sep, 0) {
        if 0 <= i && i + sep.len() <= s.len() {
            lemma_split_nonempty(s.skip(i + sep.len()), sep);
        }
    }
}

/// The pieces of `v` named by index ranges.
pub open spec fn pieces(v: Seq<char>, r: Seq<(usize, usize)>) -> Seq<Seq<char>> {
    r.map_values(|p: (usize, usize)| v.subrange(p.0 as int, p.1 as int))
}

pub proof fn lemma_first_match_range<A>(s: Seq<A>, sep: Seq<A>, i: int)
    ensures
        first_match_from(s, sep, i) matches Some(j) ==> i <= j && matches_at(s, sep, j),
    decreases s.len() + 1 - i,
{
    if i < 0 || i + sep.len() > s.len() {
    } else if matches_at(s, sep, i) {
    } else {
        lemma_first_match_range(s, sep, i + 1);
    }
}

/// Scanning `v` from `a` finds, in `v.skip(start)`, the match the scan of
/// `v` finds.
pub proof fn lemma_first_match_shift<A>(v: Seq<A>, sep: Seq<A>, start: int, a: int, found: Option<int>)
    requires
        0 <= start <= a <= v.len(),
        sep.len() > 0,
        found matches Some(i) ==> (a <= i && matches_at(v, sep, i) && forall|j: int|
            a <= j < i ==> !matches_at(v, sep, j)),
        found is None ==> forall|j: int| a <= j ==> !matches_at(v, sep, j),
    ensures
        first_match_from(v.skip(start), sep, a - start) == (match found {
            Some(i) => Some(i - start),
            None => None::<int>,
        }),
    decreases v.len() - a,
{
    let u = v.skip(start);
    let k = a - start;
    if k + sep.len() > u.len() {
        if let Some(i) = found {
            assert(false);
        }
    } else {
        assert(u.subrange(k, k + sep.len()) =~= v.subrange(a, a + sep.len()));
        if matches_at(v, sep, a) {
            if let Some(i) = found {
                if i != a {
                    assert(!matches_at(v, sep, a));
                }
            }
        } else {
            lemma_first_match_shift(v, sep, start, a + 1, found);
        }
    }
}

/// The ranges, within `lo..hi`, of the pieces of `v[lo..hi]` between
/// occurrences of `sep`.
pub fn split_range(v: &Vec<char>, lo: usize, hi: usize, sep: &Vec<char>) -> (r: Vec<(usize, usize)>)
    requires
        sep@.len() > 0,
        lo <= hi <= v@.len(),
    ensures
        forall|k: int| 0 <= k < r@.len() ==> lo <= (#[trigger] r@[k]).0 <= r@[k].1 <= hi,
        pieces(v@, r@) == split(v@.subrange(lo as int, hi as int), sep@),
        r@.len() >= 1,
{
    let ghost w = v@.subrange(lo as int, hi as int);
    let k = sep.len();
    let mut out: Vec<(usize, usize)> = Vec::new();
    let mut start: usize = lo;
    let mut i: usize = lo;
    assert(w.skip(0) =~= w);
    while i < hi && k <= hi - i
        invariant
            w == v@.subrange(lo as int, hi as int),
            lo <= hi <= v@.len(),
            k == sep@.len(),
            k > 0,
            lo <= start <= i <= hi,
            forall|j: int| start - lo <= j < i - lo ==> !matches_at(w, sep@, j),
            forall|q: int| 0 <= q < out@.len() ==> lo <= (#[trigger] out@[q]).0 <= out@[q].1 <= hi,
            pieces(v@, out@) + split(w.skip(start - lo), sep@) == split(w, sep@),
        decreases hi - i,
    {
        let mut m = true;
        let mut t: usize = 0;
        while t < k
            invariant
                lo <= hi <= v@.len(),
                k == sep@.len(),
                i + k <= hi,
                0 <= t <= k,
                m == (forall|q: int| 0 <= q < t ==> v@[i + q] == sep@[q]),
            decreases k - t,
        {
            if v[i + t] != sep[t] {
                m = false;
            }
            t = t + 1;
        }
        assert(m == matches_at(w, sep@, i - lo)) by {
            if m {
                assert(w.subrange(i - lo, i - lo + k) =~= sep@);
            }
            if matches_at(w, sep@, i - lo) {
                assert forall|q: int| 0 <= q < k implies v@[i + q] == sep@[q] by {
                    assert(w.subrange(i - lo, i - lo + k)[q] == v@[i + q]);
                }
            }
        }
        if m {
            let ghost u = w.skip(start - lo);
            proof {
                lemma_first_match_shift(w, sep@, start - lo, start - lo, Some(i - lo));
                assert(u.take(i - start) =~= v@.subrange(start as int, i as int));
                assert(u.skip(i - start + k) =~= w.skip(i + k - lo));
            }
            let ghost old_out = out@;
            out.push((start, i));
            proof {
                assert(pieces(v@, out@) =~= pieces(v@, old_out) + seq![
                    v@.subrange(start as int, i as int),
                ]);
            }
            start = i + k;
            i = i + k;
        } else {
            i = i + 1;
        }
    }
    proof {
        lemma_first_match_shift(w, sep@, start - lo, start - lo, None);
        assert(w.skip(start - lo) =~= v@.subrange(start as int, hi as int));
    }
    let ghost old_out = out@;
    out.push((start, hi));
    proof {
        assert(pieces(v@, out@) =~= pieces(v@, old_out) + seq![
            v@.subrange(start as int, hi as int),
        ]);
    }
    out
}

/// The first index of `c` in `v[lo..hi]`, if any.
pub fn find_char(v: &Vec<char>, lo: usize, hi: usize, c: char) -> (r: Option<usize>)
    requires
        lo <= hi <= v@.len(),
    ensures
        match r {
            Some(i) => lo <= i < hi && first_match_from(v@.subrange(lo as int, hi as int), seq![c], 0)
                == Some(i - lo),
            None => first_match_from(v@.subrange(lo as int, hi as int), seq![c], 0) is None,
        },
{
    let ghost w = v@.subrange(lo as int, hi as int);
    let mut i = lo;
    while i < hi
        invariant
            lo <= i <= hi <= v@.len(),
            w == v@.subrange(lo as int, hi as int),
            forall|j: int| lo <= j < i ==> v@[j] != c,
        decreases hi - i,
    {
        if v[i] == c {
            proof {
                assert forall|j: int| 0 <= j < i - lo implies !matches_at(w, seq![c], j) by {
                    assert(w.subrange(j, j + 1)[0] == v@[lo + j]);
                }
                assert(w.subrange(i - lo, i - lo + 1) =~= seq![c]);
                lemma_first_match_shift(w, seq![c], 0, 0, Some(i - lo));
                assert(w.skip(0) =~= w);
            }
            return Some(i);
        }
        i = i + 1;
    }
    proof {
        assert forall|j: int| 0 <= j implies !matches_at(w, seq![c], j) by {
            if 0 <= j && j + 1 <= w.len() {
                assert(w.subrange(j, j + 1)[0] == v@[lo + j]);
            }
        }
        lemma_first_match_shift(w, seq![c], 0, 0, None);
        assert(w.skip(0) =~= w);
    }
    None
}

/// `std::str::from_utf8`, owned: the text the bytes encode, when they are
/// UTF-8.
#[verifier::external_body]
pub fn utf8_to_string(bytes: &[u8]) -> (r: Option<String>)
    ensures
        r is Some <==> vstd::utf8::valid_utf8(bytes@),
        r matches Some(s) ==> s@ == vstd::utf8::decode_utf8(bytes@),
{
    std::str::from_utf8(bytes).ok().map(|s| s.to_string())
}

/// What `str::to_lowercase` makes of a string (full Unicode case mapping).
pub uninterp spec fn unicode_lower(s: Seq<char>) -> Seq<char>;

/// `str::to_lowercase`.
#[verifier::external_body]
pub fn to_lowercase(s: &str) -> (r: String)
    ensures
        r@ == unicode_lower(s@),
{
    s.to_lowercase()
}

/// `String::push`.
#[verifier::external_body]
pub fn push_char(s: &mut String, c: char)
    ensures
        final(s)@ == old(s)@.push(c),
{
    s.push(c);
}

/// The characters of `s`, in order.
pub fn chars_of(s: &str) -> (v: Vec<char>)
    ensures
        v@ == s@,
{
    let mut v: Vec<char> = Vec::new();
    for c in it: s.chars()
        invariant
            v@ == it.seq().take(it.index() as int),
            it.seq() == s@,
    {
        v.push(c);
    }
    v
}

/// The bounds, within `lo..hi`, of `v[lo..hi]` trimmed.
pub fn trim_range(v: &Vec<char>, lo: usize, hi: usize) -> (r: (usize, usize))
    requires
        lo <= hi <= v@.len(),
    ensures
        lo <= r.0 <= r.1 <= hi,
        v@.subrange(r.0 as int, r.1 as int) == trim(v@.subrange(lo as int, hi as int)),
{
    let mut a = lo;
    while a < hi && is_whitespace(v[a])
        invariant
            lo <= a <= hi <= v@.len(),
            trim_start(v@.subrange(lo as int, hi as int)) == trim_start(v@.subrange(a as int, hi as int)),
        decreases hi - a,
    {
        assert(v@.subrange(a as int, hi as int).drop_first() =~= v@.subrange(a + 1, hi as int));
        a = a + 1;
    }
    assert(trim_start(v@.subrange(a as int, hi as int)) == v@.subrange(a as int, hi as int));
    let mut b = hi;
    while b > a && is_whitespace(v[b - 1])
        invariant
            lo <= a <= b <= hi <= v@.len(),
            trim(v@.subrange(lo as int, hi as int)) == trim_end(v@.subrange(a as int, b as int)),
        decreases b - a,
    {
        assert(v@.subrange(a as int, b as int).drop_last() =~= v@.subrange(a as int, b - 1));
        b = b - 1;
    }
    (a, b)
}

/// `String::push_str`.
pub fn push_str(s: &mut String, t: &str)
    ensures
        final(s)@ == old(s)@ + t@,
{
    s.append(t);
}

/// Appends `v[lo..hi]` to `s`.
pub fn push_range(s: &mut String, v: &Vec<char>, lo: usize, hi: usize)
    requires
        lo <= hi <= v@.len(),
    ensures
        final(s)@ == old(s)@ + v@.subrange(lo as int, hi as int),
{
    let mut i = lo;
    while i < hi
        invariant
            lo <= i <= hi <= v@.len(),
            s@ == old(s)@ + v@.subrange(lo as int, i as int),
        decreases hi - i,
    {
        push_char(s, v[i]);
        assert(v@.subrange(lo as int, i + 1) =~= v@.subrange(lo as int, i as int).push(v@[i as int]));
        i = i + 1;
    }
}

/// A new string holding `v[lo..hi]`.
pub fn string_of(v: &Vec<char>, lo: usize, hi: usize) -> (s: String)
    requires
        lo <= hi <= v@.len(),
    ensures
        s@ == v@.subrange(lo as int, hi as int),
{
    let mut s = String::new();
    push_range(&mut s, v, lo, hi);
    assert(Seq::<char>::empty() + v@.subrange(lo as int, hi as int) =~= v@.subrange(lo as int, hi as int));
    s
}

/// Appends `v[lo..hi]` lowercased (ASCII) to `s`.
pub fn push_lower_range(s: &mut String, v: &Vec<char>, lo: usize, hi: usize)
    requires
        lo <= hi <= v@.len(),
    ensures
        final(s)@ == old(s)@ + lower(v@.subrange(lo as int, hi as int)),
{
    let mut i = lo;
    while i < hi
        invariant
            lo <= i <= hi <= v@.len(),
            s@ == old(s)@ + lower(v@.subrange(lo as int, i as int)),
        decreases hi - i,
    {
        let c = to_lower_char(v[i]);
        push_char(s, c);
        assert(lower(v@.subrange(lo as int, i + 1)) =~= lower(v@.subrange(lo as int, i as int)).push(c));
        i = i + 1;
    }
}

/// True when `v[lo..hi]` equals `w`.
pub fn range_eq(v: &Vec<char>, lo: usize, hi: usize, w: &Vec<char>) -> (r: bool)
    requires
        lo <= hi <= v@.len(),
    ensures
        r == (v@.subrange(lo as int, hi as int) == w@),
{
    if hi - lo != w.len() {
        return false;
    }
    let mut i: usize = 0;
    while i < w.len()
        invariant
            lo <= hi <= v@.len(),
            hi - lo == w@.len(),
            0 <= i <= w@.len(),
            forall|q: int| 0 <= q < i ==> v@[lo + q] == w@[q],
        decreases w@.len() - i,
    {
        if v[lo + i] != w[i] {
            assert(v@.subrange(lo as int, hi as int)[i as int] != w@[i as int]);
            return false;
        }
        i = i + 1;
    }
    assert(v@.subrange(lo as int, hi as int) =~= w@);
    true
}

/// `a == b` on string slices.
pub fn str_eq(a: &str, b: &str) -> (r: bool)
    ensures
        r == (a@ == b@),
{
    let va = chars_of(a);
    let vb = chars_of(b);
    let r = range_eq(&va, 0, va.len(), &vb);
    assert(va@.subrange(0, va@.len() as int) =~= va@);
    r
}

/// The decimal digit for `d < 10`.
pub open spec fn digit(d: nat) -> char {
    ((d + 48) as u32) as char
}

/// The decimal rendering of `n`, as `Display` writes it.
pub open spec fn dec(n: nat) -> Seq<char>
    decreases n,
{
    if n < 10 {
        seq![digit(n)]
    } else {
        dec(n / 10).push(digit(n % 10))
    }
}

/// The decimal rendering of a signed `n`.
pub open spec fn idec(n: int) -> Seq<char> {
    if n < 0 {
        seq!['-'] + dec((-n) as nat)
    } else {
        dec(n as nat)
    }
}

/// Appends the decimal rendering of `n` to `s`.
pub fn push_dec(s: &mut String, n: u64)
    ensures
        final(s)@ == old(s)@ + dec(n as nat),
    decreases n,
{
    if n >= 10 {
        push_dec(s, n / 10);
    }
    let c = char_from_ascii(((n % 10) as u8) + 48);
    push_char(s, c);
    assert(c == digit((n % 10) as nat));
}

/// Appends the decimal rendering of a signed `n` to `s`.
pub fn push_idec(s: &mut String, n: i64)
    ensures
        final(s)@ == old(s)@ + idec(n as int),
{
    if n < 0 {
        push_char(s, '-');
        let m: u64 = ((-(n + 1)) as u64) + 1;
        push_dec(s, m);
        assert(old(s)@.push('-') + dec(m as nat) =~= old(s)@ + (seq!['-'] + dec(m as nat)));
    } else {
        push_dec(s, n as u64);
    }
}

/// The decimal rendering of `n`, as a new string.
pub fn dec_string(n: u64) -> (s: String)
    ensures
        s@ == dec(n as nat),
{
    let mut s = String::new();
    push_dec(&mut s, n);
    assert(Seq::<char>::empty() + dec(n as nat) =~= dec(n as nat));
    s
}

} // verus!
