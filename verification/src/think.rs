//! Removal of `<think>...</think>` blocks from model output (thinking mode).

use vstd::prelude::*;

use crate::text::{
    chars_of, contains, find, find_chars, find_chars_from, find_from, lemma_find, lemma_find_from,
    occurs_at, string_of, trim, trim_bounds, trim_end, trim_start,
};

verus! {

/// The tag that opens a thinking block.
pub open spec fn open_tag() -> Seq<char> {
    seq!['<', 't', 'h', 'i', 'n', 'k', '>']
}

/// The tag that closes a thinking block.
pub open spec fn close_tag() -> Seq<char> {
    seq!['<', '/', 't', 'h', 'i', 'n', 'k', '>']
}

/// `s` with its thinking blocks removed, one at a time: while an opening tag
/// occurs, the text from the first opening tag to the end of the first closing
/// tag after it goes; with no closing tag after it, everything from the
/// opening tag goes.
pub open spec fn without_thinking(s: Seq<char>) -> Seq<char>
    decreases s.len(),
{
    match find(s, open_tag()) {
        None => s,
        Some(st) => match find_from(s, close_tag(), st) {
            None => s.take(st),
            Some(e) => {
                proof {
                    lemma_find(s, open_tag());
                    lemma_find_from(s, close_tag(), st);
                    assert(close_tag().len() == 8);
                }
                without_thinking(s.take(st) + s.skip(e + 8))
            },
        },
    }
}

/// Strip `<think>...</think>` blocks from model output, and trim the rest.
pub fn strip_think(text: &str) -> (res: String)
    ensures
        res@ == trim(without_thinking(text@)),
{
    let open = chars_of("<think>");
    let close = chars_of("</think>");
    proof {
        reveal_strlit("<think>");
        reveal_strlit("</think>");
        assert(open@ =~= open_tag());
        assert(close@ =~= close_tag());
    }
    let mut cur = chars_of(text);
    loop
        invariant
            open@ == open_tag(),
            close@ == close_tag(),
            without_thinking(cur@) == without_thinking(text@),
        ensures
            without_thinking(text@) == cur@,
        decreases cur.len(),
    {
        proof {
            lemma_find(cur@, open_tag());
        }
        match find_chars(&cur, &open) {
            None => {
                break ;
            },
            Some(st) => {
                proof {
                    lemma_find_from(cur@, close_tag(), st as int);
                }
                match find_chars_from(&cur, &close, st) {
                    None => {
                        let mut next: Vec<char> = Vec::new();
                        let mut i: usize = 0;
                        while i < st
                            invariant
                                st <= cur.len(),
                                i <= st,
                                next@ == cur@.take(i as int),
                            decreases st - i,
                        {
                            next.push(cur[i]);
                            i = i + 1;
                            assert(next@ =~= cur@.take(i as int));
                        }
                        assert(without_thinking(next@) == next@) by {
                            lemma_no_open_in_prefix(cur@, st as int);
                            lemma_find(next@, open_tag());
                        }
                        cur = next;
                        break ;
                    },
                    Some(e) => {
                        let mut next: Vec<char> = Vec::new();
                        let mut i: usize = 0;
                        while i < st
                            invariant
                                st <= cur.len(),
                                i <= st,
                                next@ == cur@.take(i as int),
                            decreases st - i,
                        {
                            next.push(cur[i]);
                            i = i + 1;
                            assert(next@ =~= cur@.take(i as int));
                        }
                        let mut j = e + 8;
                        while j < cur.len()
                            invariant
                                st <= cur.len(),
                                e + 8 <= j <= cur.len(),
                                next@ == cur@.take(st as int) + cur@.subrange(e + 8, j as int),
                            decreases cur.len() - j,
                        {
                            next.push(cur[j]);
                            j = j + 1;
                            assert(next@ =~= cur@.take(st as int) + cur@.subrange(
                                e + 8,
                                j as int,
                            ));
                        }
                        assert(next@ =~= cur@.take(st as int) + cur@.skip(e + 8));
                        cur = next;
                    },
                }
            },
        }
    }
    let (a, b) = trim_bounds(&cur, 0, cur.len());
    assert(cur@.subrange(0, cur.len() as int) =~= cur@);
    string_of(&cur, a, b)
}

/// No opening tag occurs in the part of `s` before its first opening tag.
proof fn lemma_no_open_in_prefix(s: Seq<char>, st: int)
    requires
        find(s, open_tag()) == Some(st),
    ensures
        forall|j: int| !occurs_at(#[trigger] s.take(st), open_tag(), j),
{
    lemma_find(s, open_tag());
    assert forall|j: int| !occurs_at(#[trigger] s.take(st), open_tag(), j) by {
        if occurs_at(s.take(st), open_tag(), j) {
            assert(s.subrange(j, j + 7) =~= s.take(st).subrange(j, j + 7));
            assert(occurs_at(s, open_tag(), j));
        }
    }
}

proof fn lemma_contains_drop_first(s: Seq<char>, p: Seq<char>)
    requires
        s.len() > 0,
        contains(s.drop_first(), p),
    ensures
        contains(s, p),
{
    let i = choose|i: int| occurs_at(s.drop_first(), p, i);
    assert(s.subrange(i + 1, i + 1 + p.len()) =~= s.drop_first().subrange(i, i + p.len()));
    assert(occurs_at(s, p, i + 1));
}

proof fn lemma_contains_drop_last(s: Seq<char>, p: Seq<char>)
    requires
        s.len() > 0,
        contains(s.drop_last(), p),
    ensures
        contains(s, p),
{
    let i = choose|i: int| occurs_at(s.drop_last(), p, i);
    assert(s.subrange(i, i + p.len()) =~= s.drop_last().subrange(i, i + p.len()));
    assert(occurs_at(s, p, i));
}

proof fn lemma_contains_trim_start(s: Seq<char>, p: Seq<char>)
    requires
        contains(trim_start(s), p),
    ensures
        contains(s, p),
    decreases s.len(),
{
    if s.len() > 0 && crate::text::is_white_space(s[0]) {
        lemma_contains_trim_start(s.drop_first(), p);
        lemma_contains_drop_first(s, p);
    }
}

proof fn lemma_contains_trim_end(s: Seq<char>, p: Seq<char>)
    requires
        contains(trim_end(s), p),
    ensures
        contains(s, p),
    decreases s.len(),
{
    if s.len() > 0 && crate::text::is_white_space(s.last()) {
        lemma_contains_trim_end(s.drop_last(), p);
        lemma_contains_drop_last(s, p);
    }
}

/// What is left of a text with thinking blocks removed holds no opening tag.
proof fn lemma_without_thinking_has_no_open(s: Seq<char>)
    ensures
        !contains(without_thinking(s), open_tag()),
    decreases s.len(),
{
    lemma_find(s, open_tag());
    match find(s, open_tag()) {
        None => {},
        Some(st) => match find_from(s, close_tag(), st) {
            None => {
                lemma_no_open_in_prefix(s, st);
            },
            Some(e) => {
                lemma_find_from(s, close_tag(), st);
                lemma_without_thinking_has_no_open(s.take(st) + s.skip(e + 8));
            },
        },
    }
}

/// No opening tag starts before position `n` of `s`, where `s[..n]` holds no
/// opening tag and an opening tag starts at `n`.
proof fn lemma_no_open_before(s: Seq<char>, n: int, j: int)
    requires
        0 <= j < n,
        n + 7 <= s.len(),
        !contains(s.subrange(0, n), open_tag()),
        s.subrange(n, n + 7) == open_tag(),
    ensures
        !occurs_at(s, open_tag(), j),
{
    if occurs_at(s, open_tag(), j) {
        if j + 7 <= n {
            assert(s.subrange(0, n).subrange(j, j + 7) =~= s.subrange(j, j + 7));
            assert(occurs_at(s.subrange(0, n), open_tag(), j));
        } else {
            assert(s.subrange(j, j + 7)[n - j] == s[n]);
            assert(s.subrange(n, n + 7)[0] == s[n]);
        }
    }
}

/// The first opening tag of `s` is at `n` when one starts there and `s[..n]`
/// holds none.
proof fn lemma_first_open(s: Seq<char>, n: int)
    requires
        0 <= n,
        n + 7 <= s.len(),
        !contains(s.subrange(0, n), open_tag()),
        s.subrange(n, n + 7) == open_tag(),
    ensures
        find(s, open_tag()) == Some(n),
{
    assert(occurs_at(s, open_tag(), n));
    assert forall|j: int| 0 <= j < n implies !occurs_at(s, open_tag(), j) by {
        lemma_no_open_before(s, n, j);
    }
    lemma_find(s, open_tag());
    assert(contains(s, open_tag()));
    let k = find(s, open_tag())->0;
    assert(k == n) by {
        if k < n {
            lemma_no_open_before(s, n, k);
        }
    }
}

/// No closing tag starts inside `"<think>" + b` (at position `n` or later,
/// before the end of `b`), where `b` holds no closing tag.
proof fn lemma_no_close_in_block(s: Seq<char>, n: int, b: Seq<char>, j: int)
    requires
        0 <= n,
        n + 7 + b.len() <= s.len(),
        s.subrange(n, n + 7) == open_tag(),
        s.subrange(n + 7, n + 7 + b.len()) == b,
        !contains(b, close_tag()),
        n <= j < n + 7 + b.len(),
        j + 8 <= s.len(),
        j + 8 <= n + 7 + b.len() || s[n + 7 + b.len()] == '<',
    ensures
        !occurs_at(s, close_tag(), j),
{
    let p = n + 7 + b.len();
    if occurs_at(s, close_tag(), j) {
        assert(s.subrange(j, j + 8)[0] == s[j]);
        assert(s.subrange(j, j + 8)[1] == s[j + 1]);
        if j < n + 7 {
            assert(s.subrange(n, n + 7)[j - n] == s[j]);
            if j == n {
                assert(s.subrange(n, n + 7)[1] == s[j + 1]);
            }
        } else if j + 8 <= p {
            let i = j - n - 7;
            assert(b.subrange(i, i + 8) =~= s.subrange(j, j + 8));
            assert(occurs_at(b, close_tag(), i));
        } else {
            assert(s.subrange(j, j + 8)[p - j] == s[p]);
        }
    }
}

/// One step of the removal: the first block, from `st` to the end of the
/// closing tag at `e`, goes.
proof fn lemma_unfold_block(s: Seq<char>, st: int, e: int)
    requires
        find(s, open_tag()) == Some(st),
        find_from(s, close_tag(), st) == Some(e),
    ensures
        without_thinking(s) == without_thinking(s.take(st) + s.skip(e + 8)),
{
}

/// The first closing tag at or after an opening tag at `n` is the one right
/// after the text `b`, which holds no closing tag.
proof fn lemma_first_close(s: Seq<char>, n: int, b: Seq<char>)
    requires
        0 <= n,
        n + 7 + b.len() + 8 <= s.len(),
        s.subrange(n, n + 7) == open_tag(),
        s.subrange(n + 7, n + 7 + b.len()) == b,
        s.subrange(n + 7 + b.len(), n + 7 + b.len() + 8) == close_tag(),
        !contains(b, close_tag()),
    ensures
        find_from(s, close_tag(), n) == Some(n + 7 + b.len()),
{
    let p = n + 7 + b.len();
    assert(s[p] == s.subrange(p, p + 8)[0]);
    assert(occurs_at(s, close_tag(), p));
    assert forall|j: int| n <= j < p implies !occurs_at(s, close_tag(), j) by {
        if j + 8 <= s.len() {
            lemma_no_close_in_block(s, n, b, j);
        }
    }
    lemma_find_from(s, close_tag(), n);
    let k = find_from(s, close_tag(), n)->0;
    assert(k == p) by {
        if k > p {
        }
    }
}

/// A closed block after text with no opening tag is cut out.
proof fn lemma_closed_block(a: Seq<char>, b: Seq<char>, c: Seq<char>)
    requires
        !contains(a, open_tag()),
        !contains(b, close_tag()),
    ensures
        without_thinking(a + open_tag() + b + close_tag() + c) == without_thinking(a + c),
{
    let n = a.len() as int;
    let p = n + 7 + b.len();
    let s = a + open_tag() + b + close_tag() + c;
    assert(s.subrange(0, n) =~= a);
    assert(s.subrange(n, n + 7) =~= open_tag());
    assert(s.subrange(n + 7, p) =~= b);
    assert(s.subrange(p, p + 8) =~= close_tag());
    lemma_first_open(s, n);
    lemma_first_close(s, n, b);
    lemma_unfold_block(s, n, p);
    assert(s.take(n) + s.skip(p + 8) =~= a + c);
}

/// An unclosed block after text with no opening tag is cut out with the rest.
proof fn lemma_unclosed_block(a: Seq<char>, b: Seq<char>)
    requires
        !contains(a, open_tag()),
        !contains(b, close_tag()),
    ensures
        without_thinking(a + open_tag() + b) == a,
{
    let n = a.len() as int;
    let u = a + open_tag() + b;
    assert(u.subrange(0, n) =~= a);
    assert(u.subrange(n, n + 7) =~= open_tag());
    assert(u.subrange(n + 7, u.len() as int) =~= b);
    lemma_first_open(u, n);
    assert forall|j: int| n <= j implies !occurs_at(u, close_tag(), j) by {
        if j + 8 <= u.len() {
            lemma_no_close_in_block(u, n, b, j);
        }
    }
    lemma_find_from(u, close_tag(), n);
    assert(u.take(n) =~= a);
}

/// Thinking blocks are removed exactly. Text with no opening tag is left as it
/// is. A block (an opening tag, text with no closing tag, a closing tag) that
/// follows text with no opening tag is cut out, and the rest is the text
/// before and after it, stripped in turn. An opening tag with no closing tag
/// after it is cut out with everything after it.
pub proof fn law_strip_removes_exactly_the_blocks(a: Seq<char>, b: Seq<char>, c: Seq<char>)
    ensures
        !contains(a, open_tag()) ==> without_thinking(a) == a,
        !contains(a, open_tag()) && !contains(b, close_tag()) ==> without_thinking(
            a + open_tag() + b + close_tag() + c,
        ) == without_thinking(a + c),
        !contains(a, open_tag()) && !contains(b, close_tag()) ==> without_thinking(
            a + open_tag() + b,
        ) == a,
{
    if !contains(a, open_tag()) {
        lemma_find(a, open_tag());
        if !contains(b, close_tag()) {
            lemma_closed_block(a, b, c);
            lemma_unclosed_block(a, b);
        }
    }
}

/// After `strip_think`, no `<think>` tag is left in the text.
pub proof fn law_stripped_text_has_no_open_tag(text: Seq<char>)
    ensures
        !contains(trim(without_thinking(text)), open_tag()),
{
    let t = without_thinking(text);
    lemma_without_thinking_has_no_open(text);
    if contains(trim(t), open_tag()) {
        lemma_contains_trim_end(trim_start(t), open_tag());
        lemma_contains_trim_start(t, open_tag());
    }
}

} // verus!
