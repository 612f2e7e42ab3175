//! Shortening labels to fit narrow dashboard columns.

use vstd::prelude::*;
use vstd::utf8::is_char_boundary;
use crate::text::{from_chars, to_chars};

verus! {

/// The bytes of `s` from byte `i` on, or all of them when `i` is not a
/// character boundary of `s`.
pub open spec fn bytes_from_or_all(s: Seq<u8>, i: int) -> Seq<u8> {
    if is_char_boundary(s, i) { s.subrange(i, s.len() as int) } else { s }
}

/// The first `i` bytes of `s`, or all of them when `i` is not a character
/// boundary of `s`.
pub open spec fn bytes_before_or_all(s: Seq<u8>, i: int) -> Seq<u8> {
    if is_char_boundary(s, i) { s.subrange(0, i) } else { s }
}

/// A day key without its year: `2026-09-10` -> `09-10` (the whole key when
/// byte 5 is not a character boundary).
pub fn short_day(day: &str) -> (r: String)
    ensures
        vstd::utf8::encode_utf8(r@) == bytes_from_or_all(vstd::utf8::encode_utf8(day@), 5),
{
    if day.is_char_boundary(5) {
        let (_, rest) = day.split_at(5);
        rest.to_owned()
    } else {
        day.to_owned()
    }
}

/// The first 8 bytes of a session id, enough to tell sessions apart (the
/// whole id when byte 8 is not a character boundary).
pub fn short_id(id: &str) -> (r: String)
    ensures
        vstd::utf8::encode_utf8(r@) == bytes_before_or_all(vstd::utf8::encode_utf8(id@), 8),
{
    if id.is_char_boundary(8) {
        let (head, _) = id.split_at(8);
        head.to_owned()
    } else {
        id.to_owned()
    }
}

/// The non-empty `/`-separated segments of `s`, in order.
pub open spec fn path_segments(s: Seq<char>) -> Seq<Seq<char>>
    decreases s.len(),
{
    if s.len() == 0 {
        Seq::empty()
    } else if s.last() == '/' {
        path_segments(s.drop_last())
    } else if s.len() >= 2 && s[s.len() - 2] != '/' {
        let prev = path_segments(s.drop_last());
        prev.drop_last().push(prev.last().push(s.last()))
    } else {
        path_segments(s.drop_last()).push(seq![s.last()])
    }
}

/// A project path cut down to its last two segments under `.../`, or the
/// path itself when it has no segment.
pub open spec fn short_project_spec(path: Seq<char>) -> Seq<char> {
    let g = path_segments(path);
    if g.len() == 0 {
        path
    } else if g.len() == 1 {
        ".../"@ + g[0]
    } else {
        ".../"@ + g[g.len() - 2] + "/"@ + g[g.len() - 1]
    }
}

proof fn lemma_segments_nonempty_when_open(s: Seq<char>)
    requires
        s.len() > 0,
        s.last() != '/',
    ensures
        path_segments(s).len() > 0,
    decreases s.len(),
{
    if s.len() >= 2 && s[s.len() - 2] != '/' {
        lemma_segments_nonempty_when_open(s.drop_last());
    }
}

/// Keeps a project path readable in a narrow column: its last two segments.
pub fn short_project(path: &str) -> (r: String)
    ensures
        r@ == short_project_spec(path@),
{
    let chars = to_chars(path);
    let n = chars.len();
    let mut last: Vec<char> = Vec::new();
    let mut second: Vec<char> = Vec::new();
    let mut count: usize = 0;
    let mut i: usize = 0;
    while i < n
        invariant
            n == chars@.len(),
            chars@ == path@,
            i <= n,
            count as int == path_segments(chars@.take(i as int)).len(),
            count <= i,
            count >= 1 ==> last@ == path_segments(chars@.take(i as int)).last(),
            count >= 2 ==> second@ == path_segments(chars@.take(i as int))[count - 2],
        decreases n - i,
    {
        let c = chars[i];
        let ghost pre = chars@.take(i as int);
        let ghost cur = chars@.take(i + 1);
        assert(cur.drop_last() =~= pre);
        assert(cur.last() == c);
        if c == '/' {
        } else if i >= 1 && chars[i - 1] != '/' {
            assert(cur[cur.len() - 2] == chars@[i - 1]);
            assert(pre.last() == chars@[i - 1]);
            proof {
                lemma_segments_nonempty_when_open(pre);
            }
            last.push(c);
        } else {
            if i >= 1 {
                assert(cur[cur.len() - 2] == chars@[i - 1]);
            }
            second = last;
            last = Vec::new();
            last.push(c);
            count = count + 1;
            assert(last@ =~= seq![c]);
        }
        i = i + 1;
    }
    assert(chars@.take(n as int) =~= chars@);
    if count == 0 {
        return path.to_owned();
    }
    let mut out: Vec<char> = Vec::new();
    out.push('.');
    out.push('.');
    out.push('.');
    out.push('/');
    let ghost head = out@;
    proof {
        reveal_strlit(".../");
        reveal_strlit("/");
        assert(head =~= ".../"@);
    }
    if count >= 2 {
        let mut k: usize = 0;
        while k < second.len()
            invariant
                k <= second@.len(),
                out@ == head + second@.take(k as int),
            decreases second@.len() - k,
        {
            assert(second@.take(k + 1) =~= second@.take(k as int).push(second@[k as int]));
            out.push(second[k]);
            k = k + 1;
        }
        out.push('/');
        assert(second@.take(second@.len() as int) =~= second@);
    }
    let ghost mid = out@;
    let mut k: usize = 0;
    while k < last.len()
        invariant
            k <= last@.len(),
            out@ == mid + last@.take(k as int),
        decreases last@.len() - k,
    {
        assert(last@.take(k + 1) =~= last@.take(k as int).push(last@[k as int]));
        out.push(last[k]);
        k = k + 1;
    }
    assert(last@.take(last@.len() as int) =~= last@);
    assert(out@ =~= short_project_spec(path@));
    from_chars(out.as_slice())
}

} // verus!
