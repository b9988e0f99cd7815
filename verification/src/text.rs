//! Text helpers over sequences of characters, with their specifications.
//!
//! Strings are modelled by their characters (`Seq<char>`). Searching,
//! trimming, splitting into lines or words and measuring the UTF-8 length
//! are defined here as spec functions and implemented over `Vec<char>`.

use vstd::prelude::*;
use vstd::string::StringExecFns;

verus! {

// ── Characters ───────────────────────────────────────────────────────

/// The Unicode `White_Space` property, which `char::is_whitespace` tests.
pub open spec fn is_white_space(c: char) -> bool {
    ||| ('\u{9}' <= c && c <= '\u{d}')
    ||| c == ' '
    ||| c == '\u{85}'
    ||| c == '\u{a0}'
    ||| c == '\u{1680}'
    ||| ('\u{2000}' <= c && c <= '\u{200a}')
    ||| c == '\u{2028}'
    ||| c == '\u{2029}'
    ||| c == '\u{202f}'
    ||| c == '\u{205f}'
    ||| c == '\u{3000}'
}

/// Whether `c` is white space in the sense of Unicode's `White_Space`.
pub fn white_space(c: char) -> (res: bool)
    ensures
        res == is_white_space(c),
{
    ('\u{9}' <= c && c <= '\u{d}') || c == ' ' || c == '\u{85}' || c == '\u{a0}' || c
        == '\u{1680}' || ('\u{2000}' <= c && c <= '\u{200a}') || c == '\u{2028}' || c
        == '\u{2029}' || c == '\u{202f}' || c == '\u{205f}' || c == '\u{3000}'
}

/// An ASCII decimal digit.
pub open spec fn is_ascii_digit(c: char) -> bool {
    '0' <= c && c <= '9'
}

/// The number of characters of `s` that satisfy `p`.
pub open spec fn count_chars(s: Seq<char>, p: spec_fn(char) -> bool) -> nat
    decreases s.len(),
{
    if s.len() == 0 {
        0
    } else {
        count_chars(s.drop_last(), p) + if p(s.last()) {
            1nat
        } else {
            0nat
        }
    }
}

// ── Outside character and string functions ───────────────────────────

/// What `str::to_lowercase` returns for a string with characters `s`: the
/// lowercase equivalent under Unicode's case mapping, a function of `s` alone.
pub uninterp spec fn lowercase(s: Seq<char>) -> Seq<char>;

/// Whether `char::is_uppercase` holds of `c` (Unicode's `Uppercase` property).
pub uninterp spec fn is_uppercase(c: char) -> bool;

/// Calls `str::to_lowercase`. The contract claims only that the result is
/// `lowercase` of the argument's characters; what that mapping is on given
/// characters (Unicode's full case mapping) is left unstated.
#[verifier::external_body]
pub(crate) fn to_lowercase(s: &str) -> (res: String)
    ensures
        res@ == lowercase(s@),
{
    s.to_lowercase()
}

/// Calls `char::is_uppercase`. The contract claims that the result is
/// `is_uppercase(c)`; which characters have the property is left unstated.
#[verifier::external_body]
pub(crate) fn char_is_uppercase(c: char) -> (res: bool)
    ensures
        res == is_uppercase(c),
{
    c.is_uppercase()
}

/// Calls `String::push`, which appends `c` to the end of `s`.
#[verifier::external_body]
pub(crate) fn push_char(s: &mut String, c: char)
    ensures
        final(s)@ == old(s)@.push(c),
{
    s.push(c)
}

/// The characters of a string slice, as a vector.
pub fn chars_of(s: &str) -> (v: Vec<char>)
    ensures
        v@ == s@,
{
    let mut v: Vec<char> = Vec::new();
    for c in it: s.chars()
        invariant
            v@ == it.seq().take(it.index()),
            it.seq() == s@,
    {
        v.push(c);
    }
    v
}

/// Appends `s` to `out`.
pub fn push_str(out: &mut String, s: &str)
    ensures
        final(out)@ == old(out)@ + s@,
{
    out.append(s);
}

/// Appends the characters `v[a..b]` to `out`.
pub fn push_chars(out: &mut String, v: &Vec<char>, a: usize, b: usize)
    requires
        a <= b <= v.len(),
    ensures
        final(out)@ == old(out)@ + v@.subrange(a as int, b as int),
{
    let mut i = a;
    while i < b
        invariant
            a <= i <= b <= v.len(),
            out@ == old(out)@ + v@.subrange(a as int, i as int),
        decreases b - i,
    {
        push_char(out, v[i]);
        i = i + 1;
        assert(out@ =~= old(out)@ + v@.subrange(a as int, i as int));
    }
}

/// A string made of the characters `v[a..b]`.
pub fn string_of(v: &Vec<char>, a: usize, b: usize) -> (res: String)
    requires
        a <= b <= v.len(),
    ensures
        res@ == v@.subrange(a as int, b as int),
{
    let mut out = String::new();
    push_chars(&mut out, v, a, b);
    assert(out@ =~= v@.subrange(a as int, b as int));
    out
}

// ── Counting ─────────────────────────────────────────────────────────

/// The number of ASCII digits in `s`.
pub fn count_ascii_digits(s: &Vec<char>) -> (n: usize)
    ensures
        n == count_chars(s@, |c: char| is_ascii_digit(c)),
{
    let mut n: usize = 0;
    let mut i: usize = 0;
    while i < s.len()
        invariant
            i <= s.len(),
            n == count_chars(s@.take(i as int), |c: char| is_ascii_digit(c)),
            n <= i,
        decreases s.len() - i,
    {
        assert(s@.take(i + 1).drop_last() =~= s@.take(i as int));
        if '0' <= s[i] && s[i] <= '9' {
            n = n + 1;
        }
        i = i + 1;
    }
    assert(s@.take(s.len() as int) =~= s@);
    n
}

/// The number of characters of `s` for which `char::is_uppercase` holds.
pub fn count_uppercase(s: &Vec<char>) -> (n: usize)
    ensures
        n == count_chars(s@, |c: char| is_uppercase(c)),
{
    let mut n: usize = 0;
    let mut i: usize = 0;
    while i < s.len()
        invariant
            i <= s.len(),
            n == count_chars(s@.take(i as int), |c: char| is_uppercase(c)),
            n <= i,
        decreases s.len() - i,
    {
        assert(s@.take(i + 1).drop_last() =~= s@.take(i as int));
        if char_is_uppercase(s[i]) {
            n = n + 1;
        }
        i = i + 1;
    }
    assert(s@.take(s.len() as int) =~= s@);
    n
}


// ── Searching ────────────────────────────────────────────────────────

/// `pat` occurs in `s` starting at position `i`.
pub open spec fn occurs_at(s: Seq<char>, pat: Seq<char>, i: int) -> bool {
    0 <= i && i + pat.len() <= s.len() && s.subrange(i, i + pat.len()) == pat
}

/// `pat` occurs somewhere in `s` (what `str::contains` tests).
pub open spec fn contains(s: Seq<char>, pat: Seq<char>) -> bool {
    exists|i: int| occurs_at(s, pat, i)
}

/// The first position at or after `i` where `pat` occurs in `s`.
pub open spec fn find_from(s: Seq<char>, pat: Seq<char>, i: int) -> Option<int>
    decreases s.len() + 1 - i,
{
    if i < 0 || i + pat.len() > s.len() {
        None
    } else if occurs_at(s, pat, i) {
        Some(i)
    } else {
        find_from(s, pat, i + 1)
    }
}

/// The first position where `pat` occurs in `s` (what `str::find` gives, in characters).
pub open spec fn find(s: Seq<char>, pat: Seq<char>) -> Option<int> {
    find_from(s, pat, 0)
}

/// `find_from` gives the first occurrence at or after `i`, and nothing when there is none.
pub proof fn lemma_find_from(s: Seq<char>, pat: Seq<char>, i: int)
    requires
        0 <= i,
    ensures
        find_from(s, pat, i) matches Some(k) ==> {
            &&& i <= k
            &&& occurs_at(s, pat, k)
            &&& forall|j: int| i <= j < k ==> !occurs_at(s, pat, j)
        },
        find_from(s, pat, i) is None ==> forall|j: int| i <= j ==> !occurs_at(s, pat, j),
    decreases s.len() + 1 - i,
{
    if i + pat.len() > s.len() {
    } else if occurs_at(s, pat, i) {
    } else {
        lemma_find_from(s, pat, i + 1);
        assert forall|j: int| i <= j && !(i + 1 <= j) implies !occurs_at(s, pat, j) by {
            assert(j == i);
        }
    }
}

/// `find` gives the first occurrence, and nothing when there is none.
pub proof fn lemma_find(s: Seq<char>, pat: Seq<char>)
    ensures
        find(s, pat) matches Some(k) ==> {
            &&& occurs_at(s, pat, k)
            &&& forall|j: int| 0 <= j < k ==> !occurs_at(s, pat, j)
        },
        find(s, pat) is Some <==> contains(s, pat),
{
    lemma_find_from(s, pat, 0);
}

/// Whether `pat` occurs in `s` at position `i`.
pub fn matches_at(s: &Vec<char>, pat: &Vec<char>, i: usize) -> (res: bool)
    requires
        i <= s.len(),
    ensures
        res == occurs_at(s@, pat@, i as int),
{
    if pat.len() > s.len() - i {
        return false;
    }
    let mut k: usize = 0;
    while k < pat.len()
        invariant
            i + pat.len() <= s.len(),
            k <= pat.len(),
            forall|j: int| 0 <= j < k ==> s@[i + j] == pat@[j],
        decreases pat.len() - k,
    {
        if s[i + k] != pat[k] {
            assert(s@.subrange(i as int, i + pat.len())[k as int] != pat@[k as int]);
            return false;
        }
        k = k + 1;
    }
    assert(s@.subrange(i as int, i + pat.len()) =~= pat@);
    true
}

/// The first position at or after `from` where `pat` occurs in `s`.
pub fn find_chars_from(s: &Vec<char>, pat: &Vec<char>, from: usize) -> (res: Option<usize>)
    ensures
        res matches Some(k) ==> find_from(s@, pat@, from as int) == Some(k as int),
        res is None ==> find_from(s@, pat@, from as int) is None,
{
    if pat.len() > s.len() || from > s.len() - pat.len() {
        return None;
    }
    let last = s.len() - pat.len();
    let mut i: usize = from;
    loop
        invariant
            last == s.len() - pat.len(),
            pat.len() <= s.len(),
            from <= i <= last,
            find_from(s@, pat@, from as int) == find_from(s@, pat@, i as int),
        decreases last - i,
    {
        if matches_at(s, pat, i) {
            return Some(i);
        }
        if i == last {
            assert(find_from(s@, pat@, i + 1) is None);
            return None;
        }
        i = i + 1;
    }
}

/// The first position where `pat` occurs in `s`.
pub fn find_chars(s: &Vec<char>, pat: &Vec<char>) -> (res: Option<usize>)
    ensures
        res matches Some(k) ==> find(s@, pat@) == Some(k as int),
        res is None ==> find(s@, pat@) is None,
{
    find_chars_from(s, pat, 0)
}

/// Whether `pat` occurs in `s`.
pub fn contains_chars(s: &Vec<char>, pat: &Vec<char>) -> (res: bool)
    ensures
        res == contains(s@, pat@),
{
    proof {
        lemma_find(s@, pat@);
    }
    find_chars(s, pat).is_some()
}

/// Whether the string `pat` occurs in `s`.
pub fn contains_str(s: &Vec<char>, pat: &str) -> (res: bool)
    ensures
        res == contains(s@, pat@),
{
    let p = chars_of(pat);
    contains_chars(s, &p)
}

/// Whether the character `c` occurs in `s`.
pub fn contains_char(s: &Vec<char>, c: char) -> (res: bool)
    ensures
        res == s@.contains(c),
{
    let mut i: usize = 0;
    while i < s.len()
        invariant
            i <= s.len(),
            forall|j: int| 0 <= j < i ==> s@[j] != c,
        decreases s.len() - i,
    {
        if s[i] == c {
            return true;
        }
        i = i + 1;
    }
    false
}

/// Whether two string slices hold the same characters.
pub fn str_equal(a: &str, b: &str) -> (res: bool)
    ensures
        res == (a@ == b@),
{
    let x = chars_of(a);
    let y = chars_of(b);
    if x.len() != y.len() {
        return false;
    }
    let mut i: usize = 0;
    while i < x.len()
        invariant
            x@ == a@,
            y@ == b@,
            x.len() == y.len(),
            i <= x.len(),
            forall|j: int| 0 <= j < i ==> x@[j] == y@[j],
        decreases x.len() - i,
    {
        if x[i] != y[i] {
            assert(x@[i as int] != y@[i as int]);
            return false;
        }
        i = i + 1;
    }
    assert(x@ =~= y@);
    true
}

// ── Trimming ─────────────────────────────────────────────────────────

/// `s` without its leading white space.
pub open spec fn trim_start(s: Seq<char>) -> Seq<char>
    decreases s.len(),
{
    if s.len() > 0 && is_white_space(s[0]) {
        trim_start(s.drop_first())
    } else {
        s
    }
}

/// `s` without its trailing white space.
pub open spec fn trim_end(s: Seq<char>) -> Seq<char>
    decreases s.len(),
{
    if s.len() > 0 && is_white_space(s.last()) {
        trim_end(s.drop_last())
    } else {
        s
    }
}

/// `s` without leading and trailing white space (what `str::trim` returns).
pub open spec fn trim(s: Seq<char>) -> Seq<char> {
    trim_end(trim_start(s))
}

/// Bounds `(a, b)` such that `s[a..b]` is `trim(s[lo..hi])`.
pub fn trim_bounds(s: &Vec<char>, lo: usize, hi: usize) -> (res: (usize, usize))
    requires
        lo <= hi <= s.len(),
    ensures
        lo <= res.0 <= res.1 <= hi,
        s@.subrange(res.0 as int, res.1 as int) == trim(s@.subrange(lo as int, hi as int)),
{
    let mut a = lo;
    while a < hi && white_space(s[a])
        invariant
            lo <= a <= hi <= s.len(),
            trim_start(s@.subrange(a as int, hi as int)) == trim_start(
                s@.subrange(lo as int, hi as int),
            ),
        decreases hi - a,
    {
        assert(s@.subrange(a as int, hi as int).drop_first() =~= s@.subrange(a + 1, hi as int));
        a = a + 1;
    }
    let ghost t = s@.subrange(a as int, hi as int);
    assert(trim_start(t) == t);
    let mut b = hi;
    while b > a && white_space(s[b - 1])
        invariant
            lo <= a <= b <= hi <= s.len(),
            t == s@.subrange(a as int, hi as int),
            trim_end(s@.subrange(a as int, b as int)) == trim_end(t),
        decreases b - a,
    {
        assert(s@.subrange(a as int, b as int).drop_last() =~= s@.subrange(a as int, b - 1));
        b = b - 1;
    }
    (a, b)
}

// ── Lines and words ──────────────────────────────────────────────────

/// A line without the carriage return that ends it, if any.
pub open spec fn strip_cr(line: Seq<char>) -> Seq<char> {
    if line.len() > 0 && line.last() == '\r' {
        line.drop_last()
    } else {
        line
    }
}

/// The lines of `rest`, where `cur` is the part of the current line read so far.
pub open spec fn lines_from(rest: Seq<char>, cur: Seq<char>) -> Seq<Seq<char>>
    decreases rest.len(),
{
    if rest.len() == 0 {
        if cur.len() > 0 {
            seq![cur]
        } else {
            seq![]
        }
    } else if rest[0] == '\n' {
        seq![strip_cr(cur)] + lines_from(rest.drop_first(), seq![])
    } else {
        lines_from(rest.drop_first(), cur.push(rest[0]))
    }
}

/// The lines of `s` (what `str::lines` yields): split at `\n`, each without a
/// final `\r` before the `\n`, and with no empty line after a final `\n`.
pub open spec fn lines(s: Seq<char>) -> Seq<Seq<char>> {
    lines_from(s, seq![])
}

/// The spans `(a, b)` of the lines of `s`: line `k` is `s[a..b]` for span `k`.
pub fn line_spans(s: &Vec<char>) -> (res: Vec<(usize, usize)>)
    ensures
        res@.len() == lines(s@).len(),
        forall|k: int|
            0 <= k < res@.len() ==> (#[trigger] res@[k]).0 <= res@[k].1 && res@[k].1 <= s.len(),
        forall|k: int|
            0 <= k < res@.len() ==> #[trigger] lines(s@)[k] == s@.subrange(
                res@[k].0 as int,
                res@[k].1 as int,
            ),
{
    let mut res: Vec<(usize, usize)> = Vec::new();
    let mut start: usize = 0;
    let mut i: usize = 0;
    assert(s@.skip(0) =~= s@);
    assert(s@.subrange(0, 0) =~= Seq::<char>::empty());
    assert(Seq::new(0, |k: int| s@.subrange(res@[k].0 as int, res@[k].1 as int)) + lines_from(
        s@,
        seq![],
    ) =~= lines_from(s@, seq![]));
    while i < s.len()
        invariant
            start <= i <= s.len(),
            forall|k: int|
                0 <= k < res@.len() ==> (#[trigger] res@[k]).0 <= res@[k].1 && res@[k].1
                    <= s.len(),
            lines(s@) == Seq::new(
                res@.len() as nat,
                |k: int| s@.subrange(res@[k].0 as int, res@[k].1 as int),
            ) + lines_from(s@.skip(i as int), s@.subrange(start as int, i as int)),
        decreases s.len() - i,
    {
        let ghost prev = Seq::new(
            res@.len() as nat,
            |k: int| s@.subrange(res@[k].0 as int, res@[k].1 as int),
        );
        assert(s@.skip(i as int).drop_first() =~= s@.skip(i + 1));
        assert(s@.skip(i as int)[0] == s@[i as int]);
        if s[i] == '\n' {
            let end = if i > start && s[i - 1] == '\r' {
                i - 1
            } else {
                i
            };
            assert(strip_cr(s@.subrange(start as int, i as int)) =~= s@.subrange(
                start as int,
                end as int,
            ));
            res.push((start, end));
            assert(Seq::new(
                res@.len() as nat,
                |k: int| s@.subrange(res@[k].0 as int, res@[k].1 as int),
            ) =~= prev + seq![s@.subrange(start as int, end as int)]);
            i = i + 1;
            start = i;
            assert(s@.subrange(start as int, i as int) =~= Seq::<char>::empty());
        } else {
            assert(s@.subrange(start as int, i as int).push(s@[i as int]) =~= s@.subrange(
                start as int,
                i + 1,
            ));
            i = i + 1;
        }
    }
    let ghost prev = Seq::new(
        res@.len() as nat,
        |k: int| s@.subrange(res@[k].0 as int, res@[k].1 as int),
    );
    if start < i {
        res.push((start, i));
        assert(Seq::new(
            res@.len() as nat,
            |k: int| s@.subrange(res@[k].0 as int, res@[k].1 as int),
        ) =~= prev + seq![s@.subrange(start as int, i as int)]);
    } else {
        assert(prev + lines_from(s@.skip(i as int), s@.subrange(start as int, i as int)) =~= prev);
    }
    let ghost fin = Seq::new(
        res@.len() as nat,
        |k: int| s@.subrange(res@[k].0 as int, res@[k].1 as int),
    );
    assert(lines(s@) =~= fin);
    assert forall|k: int| 0 <= k < res@.len() implies #[trigger] lines(s@)[k]
        == s@.subrange(res@[k].0 as int, res@[k].1 as int) by {
        assert(fin[k] == s@.subrange(res@[k].0 as int, res@[k].1 as int));
    }
    res
}

/// The words of `rest`, where `cur` is the part of the current word read so far.
pub open spec fn words_from(rest: Seq<char>, cur: Seq<char>) -> Seq<Seq<char>>
    decreases rest.len(),
{
    if rest.len() == 0 {
        if cur.len() > 0 {
            seq![cur]
        } else {
            seq![]
        }
    } else if is_white_space(rest[0]) {
        (if cur.len() > 0 {
            seq![cur]
        } else {
            seq![]
        }) + words_from(rest.drop_first(), seq![])
    } else {
        words_from(rest.drop_first(), cur.push(rest[0]))
    }
}

/// The words of `s` (what `str::split_whitespace` yields): the maximal runs of
/// characters that are not white space.
pub open spec fn words(s: Seq<char>) -> Seq<Seq<char>> {
    words_from(s, seq![])
}

/// The spans `(a, b)` of the words of `s`: word `k` is `s[a..b]` for span `k`.
pub fn word_spans(s: &Vec<char>) -> (res: Vec<(usize, usize)>)
    ensures
        res@.len() == words(s@).len(),
        forall|k: int|
            0 <= k < res@.len() ==> (#[trigger] res@[k]).0 <= res@[k].1 && res@[k].1 <= s.len(),
        forall|k: int|
            0 <= k < res@.len() ==> #[trigger] words(s@)[k] == s@.subrange(
                res@[k].0 as int,
                res@[k].1 as int,
            ),
{
    let mut res: Vec<(usize, usize)> = Vec::new();
    let mut start: usize = 0;
    let mut i: usize = 0;
    assert(s@.skip(0) =~= s@);
    assert(s@.subrange(0, 0) =~= Seq::<char>::empty());
    assert(Seq::new(0, |k: int| s@.subrange(res@[k].0 as int, res@[k].1 as int)) + words_from(
        s@,
        seq![],
    ) =~= words_from(s@, seq![]));
    while i < s.len()
        invariant
            start <= i <= s.len(),
            forall|k: int|
                0 <= k < res@.len() ==> (#[trigger] res@[k]).0 <= res@[k].1 && res@[k].1
                    <= s.len(),
            words(s@) == Seq::new(
                res@.len() as nat,
                |k: int| s@.subrange(res@[k].0 as int, res@[k].1 as int),
            ) + words_from(s@.skip(i as int), s@.subrange(start as int, i as int)),
        decreases s.len() - i,
    {
        let ghost prev = Seq::new(
            res@.len() as nat,
            |k: int| s@.subrange(res@[k].0 as int, res@[k].1 as int),
        );
        assert(s@.skip(i as int).drop_first() =~= s@.skip(i + 1));
        assert(s@.skip(i as int)[0] == s@[i as int]);
        if white_space(s[i]) {
            if start < i {
                res.push((start, i));
                assert(Seq::new(
                    res@.len() as nat,
                    |k: int| s@.subrange(res@[k].0 as int, res@[k].1 as int),
                ) =~= prev + seq![s@.subrange(start as int, i as int)]);
            } else {
                assert(prev + (seq![] + words_from(s@.skip(i + 1), seq![])) =~= prev
                    + words_from(s@.skip(i + 1), seq![]));
            }
            i = i + 1;
            start = i;
            assert(s@.subrange(start as int, i as int) =~= Seq::<char>::empty());
        } else {
            assert(s@.subrange(start as int, i as int).push(s@[i as int]) =~= s@.subrange(
                start as int,
                i + 1,
            ));
            i = i + 1;
        }
    }
    let ghost prev = Seq::new(
        res@.len() as nat,
        |k: int| s@.subrange(res@[k].0 as int, res@[k].1 as int),
    );
    if start < i {
        res.push((start, i));
        assert(Seq::new(
            res@.len() as nat,
            |k: int| s@.subrange(res@[k].0 as int, res@[k].1 as int),
        ) =~= prev + seq![s@.subrange(start as int, i as int)]);
    } else {
        assert(prev + words_from(s@.skip(i as int), s@.subrange(start as int, i as int)) =~= prev);
    }
    let ghost fin = Seq::new(
        res@.len() as nat,
        |k: int| s@.subrange(res@[k].0 as int, res@[k].1 as int),
    );
    assert(words(s@) =~= fin);
    assert forall|k: int| 0 <= k < res@.len() implies #[trigger] words(s@)[k]
        == s@.subrange(res@[k].0 as int, res@[k].1 as int) by {
        assert(fin[k] == s@.subrange(res@[k].0 as int, res@[k].1 as int));
    }
    res
}

// ── Numbers ──────────────────────────────────────────────────────────

/// The decimal digit for `d < 10`.
pub open spec fn digit_char(d: nat) -> char {
    seq!['0', '1', '2', '3', '4', '5', '6', '7', '8', '9'][d as int]
}

/// The decimal notation of `n`, without leading zeros.
pub open spec fn decimal(n: nat) -> Seq<char>
    decreases n,
{
    if n < 10 {
        seq![digit_char(n)]
    } else {
        decimal(n / 10).push(digit_char(n % 10))
    }
}

/// Appends the decimal notation of `n` to `out`.
pub fn push_decimal(out: &mut String, n: usize)
    ensures
        final(out)@ == old(out)@ + decimal(n as nat),
    decreases n,
{
    if n >= 10 {
        push_decimal(out, n / 10);
    }
    let d = n % 10;
    let c = if d == 0 {
        '0'
    } else if d == 1 {
        '1'
    } else if d == 2 {
        '2'
    } else if d == 3 {
        '3'
    } else if d == 4 {
        '4'
    } else if d == 5 {
        '5'
    } else if d == 6 {
        '6'
    } else if d == 7 {
        '7'
    } else if d == 8 {
        '8'
    } else {
        '9'
    };
    push_char(out, c);
    assert(out@ =~= old(out)@ + decimal(n as nat));
}

} // verus!
