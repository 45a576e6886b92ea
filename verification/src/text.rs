//! Character-level text scanning used by every parser of the crate.
use vstd::prelude::*;

verus! {

/// `char::is_whitespace`: the Unicode `White_Space` property.
pub open spec fn is_ws(c: char) -> bool {
    ||| ('\t' <= c && c <= '\r')
    ||| c == ' '
    ||| c == '\u{85}'
    ||| c == '\u{A0}'
    ||| c == '\u{1680}'
    ||| ('\u{2000}' <= c && c <= '\u{200A}')
    ||| c == '\u{2028}'
    ||| c == '\u{2029}'
    ||| c == '\u{202F}'
    ||| c == '\u{205F}'
    ||| c == '\u{3000}'
}

pub fn is_whitespace(c: char) -> (r: bool)
    ensures
        r == is_ws(c),
{
    ('\t' <= c && c <= '\r') || c == ' ' || c == '\u{85}' || c == '\u{A0}' || c == '\u{1680}'
        || ('\u{2000}' <= c && c <= '\u{200A}') || c == '\u{2028}' || c == '\u{2029}'
        || c == '\u{202F}' || c == '\u{205F}' || c == '\u{3000}'
}

/// The characters of `s`, in order.
pub fn chars_of(s: &str) -> (v: Vec<char>)
    ensures
        v@ == s@,
{
    let mut v: Vec<char> = Vec::new();
    for c in it: s.chars()
        invariant
            v@ == it.seq().take(it.index() as int),
    {
        v.push(c);
    }
    v
}


/// Length of the run of non-whitespace characters that starts `s`.
pub open spec fn word_len(s: Seq<char>) -> nat
    decreases s.len(),
{
    if s.len() == 0 || is_ws(s[0]) {
        0
    } else {
        1 + word_len(s.drop_first())
    }
}

pub proof fn lemma_word_len_bound(s: Seq<char>)
    ensures
        word_len(s) <= s.len(),
        s.len() > 0 && !is_ws(s[0]) ==> word_len(s) >= 1,
    decreases s.len(),
{
    if s.len() > 0 && !is_ws(s[0]) {
        lemma_word_len_bound(s.drop_first());
    }
}

/// `str::split_whitespace`: the maximal non-empty runs of non-whitespace characters.
pub open spec fn words(s: Seq<char>) -> Seq<Seq<char>>
    decreases s.len(),
{
    if s.len() == 0 {
        seq![]
    } else if is_ws(s[0]) {
        words(s.drop_first())
    } else {
        proof { lemma_word_len_bound(s); }
        seq![s.take(word_len(s) as int)] + words(s.skip(word_len(s) as int))
    }
}

/// A run of non-whitespace characters that ends at whitespace or at the end is `word_len`.
proof fn lemma_word_len_exact(s: Seq<char>, k: int)
    requires
        0 <= k <= s.len(),
        forall|i: int| 0 <= i < k ==> !is_ws(#[trigger] s[i]),
        k == s.len() || is_ws(s[k]),
    ensures
        word_len(s) == k,
    decreases k,
{
    if k > 0 {
        lemma_word_len_exact(s.drop_first(), k - 1);
    }
}

/// The views of a vector of character vectors.
pub open spec fn views(v: Seq<Vec<char>>) -> Seq<Seq<char>> {
    v.map_values(|w: Vec<char>| w@)
}

/// Copy of `s[lo..hi]`.
pub fn slice_chars(s: &[char], lo: usize, hi: usize) -> (r: Vec<char>)
    requires
        lo <= hi <= s@.len(),
    ensures
        r@ == s@.subrange(lo as int, hi as int),
{
    let mut r: Vec<char> = Vec::new();
    let mut i = lo;
    while i < hi
        invariant
            lo <= i <= hi <= s@.len(),
            r@ == s@.subrange(lo as int, i as int),
        decreases hi - i,
    {
        r.push(s[i]);
        i = i + 1;
    }
    r
}

/// `str::split_whitespace`, collected.
pub fn split_words(s: &[char]) -> (r: Vec<Vec<char>>)
    ensures
        views(r@) == words(s@),
{
    let mut r: Vec<Vec<char>> = Vec::new();
    let n = s.len();
    let mut i: usize = 0;
    assert(s@.skip(0) =~= s@);
    assert(views(r@) + words(s@) =~= words(s@));
    while i < n
        invariant
            n == s@.len(),
            i <= n,
            views(r@) + words(s@.skip(i as int)) == words(s@),
        decreases n - i,
    {
        let ghost rest = s@.skip(i as int);
        if is_whitespace(s[i]) {
            assert(rest.drop_first() =~= s@.skip(i + 1));
            i = i + 1;
        } else {
            let mut j = i;
            while j < n && !is_whitespace(s[j])
                invariant
                    n == s@.len(),
                    i <= j <= n,
                    forall|k: int| i <= k < j ==> !is_ws(#[trigger] s@[k]),
                decreases n - j,
            {
                j = j + 1;
            }
            proof {
                lemma_word_len_exact(rest, (j - i) as int);
                assert(rest.take((j - i) as int) =~= s@.subrange(i as int, j as int));
                assert(rest.skip((j - i) as int) =~= s@.skip(j as int));
            }
            let w = slice_chars(s, i, j);
            let ghost old_r = r@;
            r.push(w);
            assert(views(r@) =~= views(old_r).push(w@));
            i = j;
        }
    }
    assert(s@.skip(n as int) =~= Seq::<char>::empty());
    r
}


/// Position of the first `c` in `s`, or `s.len()` when there is none.
pub open spec fn pos_of(s: Seq<char>, c: char) -> nat
    decreases s.len(),
{
    if s.len() == 0 || s[0] == c {
        0
    } else {
        1 + pos_of(s.drop_first(), c)
    }
}

pub proof fn lemma_pos_of(s: Seq<char>, c: char)
    ensures
        pos_of(s, c) <= s.len(),
        pos_of(s, c) < s.len() ==> s[pos_of(s, c) as int] == c,
        forall|i: int| 0 <= i < pos_of(s, c) ==> s[i] != c,
    decreases s.len(),
{
    if s.len() > 0 && s[0] != c {
        lemma_pos_of(s.drop_first(), c);
        assert forall|i: int| 0 <= i < pos_of(s, c) implies s[i] != c by {
            if i > 0 {
                assert(s[i] == s.drop_first()[i - 1]);
            }
        }
    }
}

proof fn lemma_pos_of_exact(s: Seq<char>, c: char, k: int)
    requires
        0 <= k <= s.len(),
        forall|i: int| 0 <= i < k ==> #[trigger] s[i] != c,
        k == s.len() || s[k] == c,
    ensures
        pos_of(s, c) == k,
    decreases k,
{
    if k > 0 {
        lemma_pos_of_exact(s.drop_first(), c, k - 1);
    }
}

/// Index of the first `c` in `s`, or `s.len()` when there is none.
pub fn find_char(s: &[char], c: char) -> (r: usize)
    ensures
        r == pos_of(s@, c),
{
    let mut i: usize = 0;
    while i < s.len() && s[i] != c
        invariant
            i <= s@.len(),
            forall|k: int| 0 <= k < i ==> #[trigger] s@[k] != c,
        decreases s@.len() - i,
    {
        i = i + 1;
    }
    proof { lemma_pos_of_exact(s@, c, i as int); }
    i
}

/// `str::split_once` on a character.
pub open spec fn split_once(s: Seq<char>, c: char) -> Option<(Seq<char>, Seq<char>)> {
    if pos_of(s, c) < s.len() {
        Some((s.take(pos_of(s, c) as int), s.skip(pos_of(s, c) as int + 1)))
    } else {
        None
    }
}

pub fn split_once_char(s: &[char], c: char) -> (r: Option<(Vec<char>, Vec<char>)>)
    ensures
        match r {
            Some((a, b)) => split_once(s@, c) == Some((a@, b@)),
            None => split_once(s@, c) is None,
        },
{
    let k = find_char(s, c);
    proof { lemma_pos_of(s@, c); }
    if k < s.len() {
        let a = slice_chars(s, 0, k);
        let b = slice_chars(s, k + 1, s.len());
        assert(a@ =~= s@.take(k as int));
        assert(b@ =~= s@.skip(k + 1));
        Some((a, b))
    } else {
        None
    }
}

/// `str::split` on a character: every piece, empty ones included.
pub open spec fn split_on(s: Seq<char>, c: char) -> Seq<Seq<char>>
    decreases s.len(),
{
    proof { lemma_pos_of(s, c); }
    if pos_of(s, c) < s.len() {
        seq![s.take(pos_of(s, c) as int)] + split_on(s.skip(pos_of(s, c) as int + 1), c)
    } else {
        seq![s]
    }
}

pub fn split_char(s: &[char], c: char) -> (r: Vec<Vec<char>>)
    ensures
        views(r@) == split_on(s@, c),
{
    let mut r: Vec<Vec<char>> = Vec::new();
    let n = s.len();
    let mut i: usize = 0;
    assert(s@.skip(0) =~= s@);
    assert(views(r@) + split_on(s@, c) =~= split_on(s@, c));
    loop
        invariant
            n == s@.len(),
            i <= n,
            views(r@) + split_on(s@.skip(i as int), c) == split_on(s@, c),
        decreases n - i,
    {
        let ghost rest = s@.skip(i as int);
        let mut j = i;
        while j < n && s[j] != c
            invariant
                n == s@.len(),
                i <= j <= n,
                forall|k: int| i <= k < j ==> #[trigger] s@[k] != c,
            decreases n - j,
        {
            j = j + 1;
        }
        proof {
            assert forall|k: int| 0 <= k < j - i implies #[trigger] rest[k] != c by {
                assert(rest[k] == s@[i + k]);
            }
            lemma_pos_of_exact(rest, c, (j - i) as int);
        }
        let w = slice_chars(s, i, j);
        let ghost old_r = r@;
        r.push(w);
        assert(views(r@) =~= views(old_r).push(w@));
        if j == n {
            assert(rest.take((j - i) as int) =~= rest);
            assert(views(r@) =~= views(old_r) + split_on(rest, c));
            return r;
        }
        assert(rest.take((j - i) as int) =~= s@.subrange(i as int, j as int));
        assert(rest.skip((j - i) + 1) =~= s@.skip(j + 1));
        i = j + 1;
    }
}

/// `s` starts with `p`.
pub open spec fn starts_with(s: Seq<char>, p: Seq<char>) -> bool {
    p.len() <= s.len() && s.take(p.len() as int) == p
}

/// `s` ends with `p`.
pub open spec fn ends_with(s: Seq<char>, p: Seq<char>) -> bool {
    p.len() <= s.len() && s.skip(s.len() - p.len()) == p
}

pub fn has_prefix(s: &[char], p: &[char]) -> (r: bool)
    ensures
        r == starts_with(s@, p@),
{
    if p.len() > s.len() {
        return false;
    }
    let mut i: usize = 0;
    while i < p.len()
        invariant
            p@.len() <= s@.len(),
            i <= p@.len(),
            forall|k: int| 0 <= k < i ==> s@[k] == p@[k],
        decreases p@.len() - i,
    {
        if s[i] != p[i] {
            assert(s@.take(p@.len() as int)[i as int] != p@[i as int]);
            return false;
        }
        i = i + 1;
    }
    assert(s@.take(p@.len() as int) =~= p@);
    true
}

pub fn has_suffix(s: &[char], p: &[char]) -> (r: bool)
    ensures
        r == ends_with(s@, p@),
{
    if p.len() > s.len() {
        return false;
    }
    let off = s.len() - p.len();
    let n = s.len();
    let mut i: usize = 0;
    while i < p.len()
        invariant
            n == s@.len(),
            p@.len() <= s@.len(),
            off == s@.len() - p@.len(),
            i <= p@.len(),
            forall|k: int| 0 <= k < i ==> s@[off + k] == p@[k],
        decreases p@.len() - i,
    {
        assert(off + i < s@.len());
        if s[off + i] != p[i] {
            assert(s@.skip(off as int)[i as int] != p@[i as int]);
            return false;
        }
        i = i + 1;
    }
    assert(s@.skip(off as int) =~= p@);
    true
}

/// `str::strip_prefix`.
pub open spec fn strip_prefix(s: Seq<char>, p: Seq<char>) -> Option<Seq<char>> {
    if starts_with(s, p) { Some(s.skip(p.len() as int)) } else { None }
}

/// `str::strip_suffix`.
pub open spec fn strip_suffix(s: Seq<char>, p: Seq<char>) -> Option<Seq<char>> {
    if ends_with(s, p) { Some(s.take(s.len() - p.len())) } else { None }
}

pub fn without_prefix(s: &[char], p: &[char]) -> (r: Option<Vec<char>>)
    ensures
        match r {
            Some(v) => strip_prefix(s@, p@) == Some(v@),
            None => strip_prefix(s@, p@) is None,
        },
{
    if has_prefix(s, p) {
        let v = slice_chars(s, p.len(), s.len());
        assert(v@ =~= s@.skip(p@.len() as int));
        Some(v)
    } else {
        None
    }
}

pub fn without_suffix(s: &[char], p: &[char]) -> (r: Option<Vec<char>>)
    ensures
        match r {
            Some(v) => strip_suffix(s@, p@) == Some(v@),
            None => strip_suffix(s@, p@) is None,
        },
{
    if has_suffix(s, p) {
        let v = slice_chars(s, 0, s.len() - p.len());
        assert(v@ =~= s@.take(s@.len() - p@.len()));
        Some(v)
    } else {
        None
    }
}

/// `pat` occurs in `s` at position `i`.
pub open spec fn occurs_at(s: Seq<char>, pat: Seq<char>, i: int) -> bool {
    0 <= i && i + pat.len() <= s.len() && s.subrange(i, i + pat.len()) == pat
}

/// `str::contains` with a string pattern.
pub open spec fn contains(s: Seq<char>, pat: Seq<char>) -> bool {
    exists|i: int| #[trigger] occurs_at(s, pat, i)
}

pub fn matches_at(s: &[char], pat: &[char], i: usize) -> (r: bool)
    ensures
        r == occurs_at(s@, pat@, i as int),
{
    if i > s.len() || pat.len() > s.len() - i {
        return false;
    }
    let n = s.len();
    let mut k: usize = 0;
    while k < pat.len()
        invariant
            n == s@.len(),
            i + pat@.len() <= s@.len(),
            k <= pat@.len(),
            forall|m: int| 0 <= m < k ==> s@[i + m] == pat@[m],
        decreases pat@.len() - k,
    {
        assert(i + k < s@.len());
        if s[i + k] != pat[k] {
            assert(s@.subrange(i as int, i + pat@.len())[k as int] != pat@[k as int]);
            return false;
        }
        k = k + 1;
    }
    assert(s@.subrange(i as int, i + pat@.len()) =~= pat@);
    true
}

pub fn contains_chars(s: &[char], pat: &[char]) -> (r: bool)
    ensures
        r == contains(s@, pat@),
{
    let mut i: usize = 0;
    loop
        invariant
            i <= s@.len(),
            forall|m: int| 0 <= m < i ==> !#[trigger] occurs_at(s@, pat@, m),
        decreases s@.len() - i,
    {
        if matches_at(s, pat, i) {
            return true;
        }
        if i == s.len() {
            assert forall|m: int| !#[trigger] occurs_at(s@, pat@, m) by {
                if 0 <= m && m < i {
                }
            }
            return false;
        }
        i = i + 1;
    }
}


/// A line without the carriage return that ends it, if any.
pub open spec fn strip_cr(l: Seq<char>) -> Seq<char> {
    if l.len() > 0 && l.last() == '\r' { l.drop_last() } else { l }
}

/// `str::lines`: pieces split at `\n`, each without a trailing `\r` that precedes the `\n`;
/// a final line ending adds no empty line.
pub open spec fn lines(s: Seq<char>) -> Seq<Seq<char>>
    decreases s.len(),
{
    proof { lemma_pos_of(s, '\n'); }
    if s.len() == 0 {
        seq![]
    } else if pos_of(s, '\n') < s.len() {
        seq![strip_cr(s.take(pos_of(s, '\n') as int))] + lines(s.skip(pos_of(s, '\n') as int + 1))
    } else {
        seq![s]
    }
}

pub fn split_lines(s: &[char]) -> (r: Vec<Vec<char>>)
    ensures
        views(r@) == lines(s@),
{
    let mut r: Vec<Vec<char>> = Vec::new();
    let n = s.len();
    let mut i: usize = 0;
    assert(s@.skip(0) =~= s@);
    assert(views(r@) + lines(s@) =~= lines(s@));
    while i < n
        invariant
            n == s@.len(),
            i <= n,
            views(r@) + lines(s@.skip(i as int)) == lines(s@),
        decreases n - i,
    {
        let ghost rest = s@.skip(i as int);
        let mut j = i;
        while j < n && s[j] != '\n'
            invariant
                n == s@.len(),
                i <= j <= n,
                forall|k: int| i <= k < j ==> #[trigger] s@[k] != '\n',
            decreases n - j,
        {
            j = j + 1;
        }
        proof {
            assert forall|k: int| 0 <= k < j - i implies #[trigger] rest[k] != '\n' by {
                assert(rest[k] == s@[i + k]);
            }
            lemma_pos_of_exact(rest, '\n', (j - i) as int);
        }
        let ghost old_r = r@;
        if j == n {
            let w = slice_chars(s, i, j);
            r.push(w);
            assert(w@ =~= rest);
            assert(views(r@) =~= views(old_r).push(w@));
            assert(s@.skip(n as int) =~= Seq::<char>::empty());
            assert(views(r@) =~= views(old_r) + lines(rest));
            i = j;
        } else {
            let hi = if j > i && s[j - 1] == '\r' { j - 1 } else { j };
            let w = slice_chars(s, i, hi);
            assert(rest.take((j - i) as int) =~= s@.subrange(i as int, j as int));
            assert(w@ =~= strip_cr(rest.take((j - i) as int)));
            r.push(w);
            assert(views(r@) =~= views(old_r).push(w@));
            assert(rest.skip((j - i) + 1) =~= s@.skip(j + 1));
            i = j + 1;
        }
    }
    assert(s@.skip(n as int) =~= Seq::<char>::empty());
    r
}

/// `s` without the leading characters for which `strip` holds.
pub open spec fn trim_start_by(s: Seq<char>, strip: spec_fn(char) -> bool) -> Seq<char>
    decreases s.len(),
{
    if s.len() > 0 && strip(s[0]) { trim_start_by(s.drop_first(), strip) } else { s }
}

/// `s` without the trailing characters for which `strip` holds.
pub open spec fn trim_end_by(s: Seq<char>, strip: spec_fn(char) -> bool) -> Seq<char>
    decreases s.len(),
{
    if s.len() > 0 && strip(s.last()) { trim_end_by(s.drop_last(), strip) } else { s }
}

/// `str::trim`: no leading or trailing Unicode whitespace.
pub open spec fn trim(s: Seq<char>) -> Seq<char> {
    trim_end_by(trim_start_by(s, |c: char| is_ws(c)), |c: char| is_ws(c))
}

/// `str::trim_matches` with a single character.
pub open spec fn trim_char(s: Seq<char>, c: char) -> Seq<char> {
    trim_end_by(trim_start_by(s, equals_char(c)), equals_char(c))
}

/// The predicate "is the character `c`".
pub open spec fn equals_char(c: char) -> spec_fn(char) -> bool {
    |x: char| x == c
}

proof fn lemma_trim_start_step(s: Seq<char>, strip: spec_fn(char) -> bool, i: int)
    requires
        0 <= i <= s.len(),
        forall|k: int| 0 <= k < i ==> strip(#[trigger] s[k]),
    ensures
        trim_start_by(s, strip) == trim_start_by(s.skip(i), strip),
    decreases i,
{
    if i > 0 {
        assert(s.drop_first().skip(i - 1) =~= s.skip(i));
        lemma_trim_start_step(s.drop_first(), strip, i - 1);
    } else {
        assert(s.skip(0) =~= s);
    }
}

proof fn lemma_trim_end_step(s: Seq<char>, strip: spec_fn(char) -> bool, j: int)
    requires
        0 <= j <= s.len(),
        forall|k: int| j <= k < s.len() ==> strip(#[trigger] s[k]),
    ensures
        trim_end_by(s, strip) == trim_end_by(s.take(j), strip),
    decreases s.len() - j,
{
    if j < s.len() {
        assert(s.drop_last().take(j) =~= s.take(j));
        lemma_trim_end_step(s.drop_last(), strip, j);
    } else {
        assert(s.take(j) =~= s);
    }
}

/// `str::trim`.
pub fn trim_ws(s: &[char]) -> (r: Vec<char>)
    ensures
        r@ == trim(s@),
{
    let ghost strip = |c: char| is_ws(c);
    let n = s.len();
    let mut lo: usize = 0;
    while lo < n && is_whitespace(s[lo])
        invariant
            n == s@.len(),
            lo <= n,
            strip == (|c: char| is_ws(c)),
            forall|k: int| 0 <= k < lo ==> strip(#[trigger] s@[k]),
        decreases n - lo,
    {
        lo = lo + 1;
    }
    let mut hi: usize = n;
    while hi > lo && is_whitespace(s[hi - 1])
        invariant
            n == s@.len(),
            lo <= hi <= n,
            strip == (|c: char| is_ws(c)),
            forall|k: int| hi <= k < n ==> strip(#[trigger] s@[k]),
        decreases hi,
    {
        hi = hi - 1;
    }
    proof {
        lemma_trim_start_step(s@, strip, lo as int);
        let t = s@.skip(lo as int);
        if lo < n {
            assert(!strip(t[0]));
        }
        assert(trim_start_by(t, strip) == t);
        lemma_trim_end_step(t, strip, (hi - lo) as int);
        let u = t.take((hi - lo) as int);
        assert(u =~= s@.subrange(lo as int, hi as int));
        if hi > lo {
            assert(!strip(u.last()));
        }
        assert(trim_end_by(u, strip) == u);
    }
    slice_chars(s, lo, hi)
}

/// `str::trim_matches` with a single character.
pub fn trim_matching(s: &[char], c: char) -> (r: Vec<char>)
    ensures
        r@ == trim_char(s@, c),
{
    let ghost strip = equals_char(c);
    let n = s.len();
    let mut lo: usize = 0;
    while lo < n && s[lo] == c
        invariant
            n == s@.len(),
            lo <= n,
            strip == equals_char(c),
            forall|k: int| 0 <= k < lo ==> strip(#[trigger] s@[k]),
        decreases n - lo,
    {
        lo = lo + 1;
    }
    let mut hi: usize = n;
    while hi > lo && s[hi - 1] == c
        invariant
            n == s@.len(),
            lo <= hi <= n,
            strip == equals_char(c),
            forall|k: int| hi <= k < n ==> strip(#[trigger] s@[k]),
        decreases hi,
    {
        hi = hi - 1;
    }
    proof {
        lemma_trim_start_step(s@, strip, lo as int);
        let t = s@.skip(lo as int);
        if lo < n {
            assert(!strip(t[0]));
        }
        assert(trim_start_by(t, strip) == t);
        lemma_trim_end_step(t, strip, (hi - lo) as int);
        let u = t.take((hi - lo) as int);
        assert(u =~= s@.subrange(lo as int, hi as int));
        if hi > lo {
            assert(!strip(u.last()));
        }
        assert(trim_end_by(u, strip) == u);
    }
    slice_chars(s, lo, hi)
}


/// An ASCII decimal digit.
pub open spec fn is_digit(c: char) -> bool {
    '0' <= c && c <= '9'
}

/// Every character of `d` is an ASCII decimal digit.
pub open spec fn all_digits(d: Seq<char>) -> bool {
    forall|i: int| 0 <= i < d.len() ==> is_digit(#[trigger] d[i])
}

/// The value of the ASCII digit `c`.
pub open spec fn digit_value(c: char) -> nat {
    (c as int - '0' as int) as nat
}

/// The number that the digit string `d` writes in base ten.
pub open spec fn decimal(d: Seq<char>) -> nat
    decreases d.len(),
{
    if d.len() == 0 {
        0
    } else {
        decimal(d.drop_last()) * 10 + digit_value(d.last())
    }
}

/// The digits of an unsigned number: `s` without one leading `+`.
pub open spec fn unsigned_digits(s: Seq<char>) -> Seq<char> {
    if s.len() > 0 && s[0] == '+' { s.drop_first() } else { s }
}

/// `FromStr` of an unsigned integer type whose largest value is `max`: an optional `+`,
/// then one or more ASCII digits whose value is at most `max`.
pub open spec fn parse_uint(s: Seq<char>, max: nat) -> Option<nat> {
    let d = unsigned_digits(s);
    if d.len() > 0 && all_digits(d) && decimal(d) <= max {
        Some(decimal(d))
    } else {
        None
    }
}

/// `str::parse::<u64>`.
pub open spec fn parse_u64(s: Seq<char>) -> Option<u64> {
    match parse_uint(s, u64::MAX as nat) {
        Some(v) => Some(v as u64),
        None => None,
    }
}

/// `str::parse::<u32>`.
pub open spec fn parse_u32(s: Seq<char>) -> Option<u32> {
    match parse_uint(s, u32::MAX as nat) {
        Some(v) => Some(v as u32),
        None => None,
    }
}

proof fn lemma_decimal_prefix(d: Seq<char>, k: int)
    requires
        0 <= k <= d.len(),
    ensures
        decimal(d.take(k)) <= decimal(d),
    decreases d.len(),
{
    if k < d.len() {
        assert(d.drop_last().take(k) =~= d.take(k));
        lemma_decimal_prefix(d.drop_last(), k);
    } else {
        assert(d.take(k) =~= d);
    }
}

/// Parses an unsigned decimal number no larger than `max`.
pub fn parse_unsigned(s: &[char], max: u64) -> (r: Option<u64>)
    ensures
        r == (match parse_uint(s@, max as nat) {
            Some(v) => Some(v as u64),
            None => None::<u64>,
        }),
{
    let n = s.len();
    if n == 0 {
        return None;
    }
    let start: usize = if s[0] == '+' { 1 } else { 0 };
    let ghost d = unsigned_digits(s@);
    assert(d =~= s@.skip(start as int));
    if start == n {
        return None;
    }
    let mut acc: u64 = 0;
    let mut i: usize = start;
    assert(d.take(0) =~= Seq::<char>::empty());
    while i < n
        invariant
            n == s@.len(),
            start <= i <= n,
            d == s@.skip(start as int),
            d == unsigned_digits(s@),
            acc as nat == decimal(d.take(i - start)),
            acc <= max,
            all_digits(d.take(i - start)),
        decreases n - i,
    {
        let c = s[i];
        let k = i - start;
        assert(d[k as int] == c);
        if !('0' <= c && c <= '9') {
            assert(!is_digit(d[k as int]));
            assert(!all_digits(d));
            return None;
        }
        let dv = (c as u32 - '0' as u32) as u64;
        let ghost pre = d.take(k + 1);
        assert(pre.drop_last() =~= d.take(k as int));
        assert(decimal(pre) == decimal(d.take(k as int)) * 10 + dv);
        let next: u128 = acc as u128 * 10 + dv as u128;
        if next > max as u128 {
            proof {
                lemma_decimal_prefix(d, k + 1);
                assert(decimal(pre) == next);
                assert(decimal(d) > max);
            }
            return None;
        }
        acc = next as u64;
        assert(all_digits(pre));
        i = i + 1;
    }
    assert(d.take(n - start) =~= d);
    Some(acc)
}

/// `str::parse::<u64>`.
pub fn parse_u64_chars(s: &[char]) -> (r: Option<u64>)
    ensures
        r == parse_u64(s@),
{
    parse_unsigned(s, u64::MAX)
}

/// `str::replace` with a non-empty pattern: each occurrence, taken from the left without
/// overlap, becomes `rep`.
pub open spec fn replace_all(s: Seq<char>, pat: Seq<char>, rep: Seq<char>) -> Seq<char>
    decreases s.len(),
{
    if s.len() == 0 || pat.len() == 0 {
        s
    } else if starts_with(s, pat) {
        rep + replace_all(s.skip(pat.len() as int), pat, rep)
    } else {
        seq![s[0]] + replace_all(s.drop_first(), pat, rep)
    }
}

pub fn replace_chars(s: &[char], pat: &[char], rep: &[char]) -> (r: Vec<char>)
    requires
        pat@.len() > 0,
    ensures
        r@ == replace_all(s@, pat@, rep@),
{
    let n = s.len();
    let mut r: Vec<char> = Vec::new();
    let mut i: usize = 0;
    assert(s@.skip(0) =~= s@);
    while i < n
        invariant
            n == s@.len(),
            i <= n,
            pat@.len() > 0,
            r@ + replace_all(s@.skip(i as int), pat@, rep@) == replace_all(s@, pat@, rep@),
        decreases n - i,
    {
        let ghost rest = s@.skip(i as int);
        let ghost old_r = r@;
        if matches_at(s, pat, i) {
            assert(rest.take(pat@.len() as int) =~= s@.subrange(i as int, i + pat@.len()));
            let mut k: usize = 0;
            while k < rep.len()
                invariant
                    k <= rep@.len(),
                    r@ == old_r + rep@.take(k as int),
                decreases rep@.len() - k,
            {
                r.push(rep[k]);
                assert(rep@.take(k + 1) =~= rep@.take(k as int).push(rep@[k as int]));
                k = k + 1;
            }
            assert(rep@.take(rep@.len() as int) =~= rep@);
            assert(rest.skip(pat@.len() as int) =~= s@.skip(i + pat@.len()));
            assert(r@ + replace_all(s@.skip(i + pat@.len()), pat@, rep@) =~= old_r + (rep@
                + replace_all(rest.skip(pat@.len() as int), pat@, rep@)));
            i = i + pat.len();
        } else {
            proof {
                if starts_with(rest, pat@) {
                    assert(rest.take(pat@.len() as int) =~= s@.subrange(i as int, i + pat@.len()));
                }
            }
            r.push(s[i]);
            assert(rest.drop_first() =~= s@.skip(i + 1));
            assert(r@ + replace_all(s@.skip(i + 1), pat@, rep@) =~= old_r + (seq![rest[0]]
                + replace_all(rest.drop_first(), pat@, rep@)));
            i = i + 1;
        }
    }
    assert(s@.skip(n as int) =~= Seq::<char>::empty());
    assert(r@ + Seq::<char>::empty() =~= r@);
    r
}

/// Start of the last occurrence of `pat` in `s`.
pub open spec fn last_occurrence(s: Seq<char>, pat: Seq<char>) -> Option<int>
    decreases s.len(),
{
    if s.len() < pat.len() {
        None
    } else if occurs_at(s, pat, s.len() - pat.len()) {
        Some(s.len() - pat.len())
    } else if s.len() == 0 {
        None
    } else {
        last_occurrence(s.drop_last(), pat)
    }
}

/// `str::rsplit_once` with a string pattern.
pub open spec fn rsplit_once(s: Seq<char>, pat: Seq<char>) -> Option<(Seq<char>, Seq<char>)> {
    match last_occurrence(s, pat) {
        Some(i) => Some((s.take(i), s.skip(i + pat.len()))),
        None => None,
    }
}

pub fn rsplit_once_chars(s: &[char], pat: &[char]) -> (r: Option<(Vec<char>, Vec<char>)>)
    ensures
        match r {
            Some((a, b)) => rsplit_once(s@, pat@) == Some((a@, b@)),
            None => rsplit_once(s@, pat@) is None,
        },
{
    let mut end = s.len();
    assert(s@.take(end as int) =~= s@);
    loop
        invariant
            end <= s@.len(),
            last_occurrence(s@.take(end as int), pat@) == last_occurrence(s@, pat@),
        decreases end,
    {
        let ghost t = s@.take(end as int);
        if end < pat.len() {
            return None;
        }
        let at = end - pat.len();
        if matches_at(s, pat, at) {
            assert(t.subrange(at as int, at + pat@.len()) =~= s@.subrange(at as int, at + pat@.len()));
            let a = slice_chars(s, 0, at);
            let b = slice_chars(s, at + pat.len(), s.len());
            assert(a@ =~= s@.take(at as int));
            assert(b@ =~= s@.skip(at + pat@.len()));
            return Some((a, b));
        }
        assert(t.subrange(at as int, at + pat@.len()) =~= s@.subrange(at as int, at + pat@.len()));
        if end == 0 {
            return None;
        }
        assert(t.drop_last() =~= s@.take(end - 1));
        end = end - 1;
    }
}

/// `String::push`: afterwards the string holds its old characters followed by `c`.
#[verifier::external_body]
fn push_char(s: &mut String, c: char)
    ensures
        final(s)@ == old(s)@.push(c),
{
    s.push(c);
}

/// A `String` holding the characters `v`.
pub fn string_of(v: &[char]) -> (r: String)
    ensures
        r@ == v@,
{
    let mut r = String::new();
    let mut i: usize = 0;
    while i < v.len()
        invariant
            i <= v@.len(),
            r@ == v@.take(i as int),
        decreases v@.len() - i,
    {
        push_char(&mut r, v[i]);
        assert(v@.take(i + 1) =~= v@.take(i as int).push(v@[i as int]));
        i = i + 1;
    }
    assert(v@.take(v@.len() as int) =~= v@);
    r
}


/// `a` and `b` hold the same characters.
pub fn chars_eq(a: &[char], b: &[char]) -> (r: bool)
    ensures
        r == (a@ == b@),
{
    if a.len() != b.len() {
        return false;
    }
    let mut i: usize = 0;
    while i < a.len()
        invariant
            a@.len() == b@.len(),
            i <= a@.len(),
            forall|k: int| 0 <= k < i ==> a@[k] == b@[k],
        decreases a@.len() - i,
    {
        if a[i] != b[i] {
            return false;
        }
        i = i + 1;
    }
    assert(a@ =~= b@);
    true
}

/// Every character of `s` is an ASCII digit (vacuously so for an empty `s`).
pub fn all_ascii_digits(s: &[char]) -> (r: bool)
    ensures
        r == all_digits(s@),
{
    let mut i: usize = 0;
    while i < s.len()
        invariant
            i <= s@.len(),
            forall|k: int| 0 <= k < i ==> is_digit(#[trigger] s@[k]),
        decreases s@.len() - i,
    {
        if !('0' <= s[i] && s[i] <= '9') {
            assert(!is_digit(s@[i as int]));
            return false;
        }
        i = i + 1;
    }
    true
}

/// The lines of a file as the crate reads it: its text trimmed, then split into lines.
pub open spec fn file_lines(raw: Seq<char>) -> Seq<Seq<char>> {
    lines(trim(raw))
}

pub fn lines_of_file(raw: &str) -> (r: Vec<Vec<char>>)
    ensures
        views(r@) == file_lines(raw@),
{
    let c = chars_of(raw);
    let t = trim_ws(c.as_slice());
    split_lines(t.as_slice())
}


/// Appends the characters of `t` to `s`.
pub fn append_str(s: &mut String, t: &str)
    ensures
        final(s)@ == old(s)@ + t@,
{
    let c = chars_of(t);
    let mut i: usize = 0;
    while i < c.len()
        invariant
            c@ == t@,
            i <= c@.len(),
            s@ == old(s)@ + c@.take(i as int),
        decreases c@.len() - i,
    {
        push_char(s, c[i]);
        assert(c@.take(i + 1) =~= c@.take(i as int).push(c@[i as int]));
        i = i + 1;
    }
    assert(c@.take(c@.len() as int) =~= c@);
}

/// What `str::to_lowercase` makes of `s` (Unicode lower-case mapping).
pub uninterp spec fn lowercase(s: Seq<char>) -> Seq<char>;

/// Every character of `s` is ASCII.
pub open spec fn ascii_text(s: Seq<char>) -> bool {
    forall|i: int| 0 <= i < s.len() ==> (#[trigger] s[i] as u32) < 128
}

/// The ASCII lower case of a character: `A`..`Z` become `a`..`z`, any other stays.
pub open spec fn ascii_lower(c: char) -> char {
    if 'A' <= c && c <= 'Z' { ((c as int) + 32) as char } else { c }
}

/// `str::to_lowercase`; its result is named, not stated, since the Unicode case tables are
/// not written out here. For ASCII text the documentation fixes it: each letter `A`..`Z`
/// becomes `a`..`z` and every other character stays.
#[verifier::external_body]
pub(crate) fn to_lower(s: &str) -> (r: String)
    ensures
        r@ == lowercase(s@),
        ascii_text(s@) ==> r@ == s@.map_values(|c: char| ascii_lower(c)),
{
    s.to_lowercase()
}

} // verus!
