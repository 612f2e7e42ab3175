//! String plumbing shared by the core: moving between `str`/`String` and
//! character vectors, and the few std string operations the core relies on.

use vstd::prelude::*;

verus! {

/// The characters of `s`, in order.
pub fn to_chars(s: &str) -> (v: Vec<char>)
    ensures
        v@ == s@,
{
    let mut v: Vec<char> = Vec::new();
    for c in it: s.chars()
        invariant
            it.seq() == s@,
            v@ == it.seq().take(it.index() as int),
    {
        assert(it.seq().take(it.index() + 1) =~= it.seq().take(it.index() as int).push(c));
        v.push(c);
    }
    assert(s@.take(s@.len() as int) =~= s@);
    v
}

/// Appends `c` to `s`.
///
/// Trusted: calls std's `String::push`, whose documentation says it appends
/// the given char to the end of the string; the contract states exactly that.
#[verifier::external_body]
fn push_char(s: &mut String, c: char)
    ensures
        final(s)@ == old(s)@.push(c),
{
    s.push(c);
}

/// A new string holding the characters `v`, in order.
pub fn from_chars(v: &[char]) -> (s: String)
    ensures
        s@ == v@,
{
    let mut s = String::new();
    let n = v.len();
    let mut i: usize = 0;
    while i < n
        invariant
            n == v@.len(),
            i <= n,
            s@ == v@.take(i as int),
        decreases n - i,
    {
        assert(v@.take(i + 1) =~= v@.take(i as int).push(v@[i as int]));
        push_char(&mut s, v[i]);
        i = i + 1;
    }
    assert(v@.take(n as int) =~= v@);
    s
}

/// Whether `needle` occurs as a contiguous run inside `hay`.
pub open spec fn contains_run(hay: Seq<char>, needle: Seq<char>) -> bool {
    exists|i: int| 0 <= i && i + needle.len() <= hay.len() && #[trigger] hay.subrange(i, i + needle.len()) == needle
}

/// Whether `needle` occurs inside `hay`.
pub(crate) fn str_contains(hay: &str, needle: &str) -> (r: bool)
    ensures
        r == contains_run(hay@, needle@),
{
    let h = to_chars(hay);
    let nd = to_chars(needle);
    let hn = h.len();
    let nn = nd.len();
    if nn > hn {
        return false;
    }
    let mut i: usize = 0;
    while i <= hn - nn
        invariant
            hn == h@.len(),
            nn == nd@.len(),
            h@ == hay@,
            nd@ == needle@,
            nn <= hn,
            i <= hn - nn + 1,
            forall|q: int| 0 <= q < i ==> #[trigger] h@.subrange(q, q + nn) != nd@,
        decreases hn - i,
    {
        let mut j: usize = 0;
        while j < nn && h[i + j] == nd[j]
            invariant
                hn == h@.len(),
                nn == nd@.len(),
                i + nn <= hn,
                j <= nn,
                forall|t: int| 0 <= t < j ==> h@[i + t] == nd@[t],
            decreases nn - j,
        {
            j = j + 1;
        }
        if j == nn {
            assert(h@.subrange(i as int, i + nn) =~= nd@);
            return true;
        }
        assert(h@.subrange(i as int, i + nn)[j as int] != nd@[j as int]);
        i = i + 1;
    }
    false
}

/// Whether every character of `s` is ASCII.
pub open spec fn all_ascii(s: Seq<char>) -> bool {
    forall|i: int| 0 <= i < s.len() ==> (#[trigger] s[i] as int) < 128
}

/// The lowercase form of an ASCII character: `A`..=`Z` become `a`..=`z`,
/// everything else stays.
pub open spec fn ascii_lower(c: char) -> char {
    let v = c as int;
    if 65 <= v && v <= 90 {
        (v + 32) as char
    } else {
        c
    }
}

/// Whether `c` has the Unicode `White_Space` property, which is how std's
/// `str::trim` decides what to remove: tab, line feed, vertical tab, form
/// feed, carriage return, space, next line, no-break space, ogham space
/// mark, the spaces U+2000..=U+200A, line separator, paragraph separator,
/// narrow no-break space, medium mathematical space and ideographic space.
pub open spec fn unicode_white_space(c: char) -> bool {
    ||| c == ' '
    ||| ('\t' <= c && c <= '\r')
    ||| c == '\u{85}'
    ||| c == '\u{a0}'
    ||| c == '\u{1680}'
    ||| ('\u{2000}' <= c && c <= '\u{200a}')
    ||| c == '\u{2028}'
    ||| c == '\u{2029}'
    ||| c == '\u{202f}'
    ||| c == '\u{205f}'
    ||| c == '\u{3000}'
}

/// Whether `c` is white space in the sense of [`unicode_white_space`].
pub fn is_white_space(c: char) -> (b: bool)
    ensures
        b == unicode_white_space(c),
{
    c == ' ' || ('\t' <= c && c <= '\r') || c == '\u{85}' || c == '\u{a0}' || c == '\u{1680}' || ('\u{2000}'
        <= c && c <= '\u{200a}') || c == '\u{2028}' || c == '\u{2029}' || c == '\u{202f}' || c == '\u{205f}'
        || c == '\u{3000}'
}

/// `s` without its leading white space.
pub open spec fn trim_start_spec(s: Seq<char>) -> Seq<char>
    decreases s.len(),
{
    if s.len() > 0 && unicode_white_space(s[0]) {
        trim_start_spec(s.drop_first())
    } else {
        s
    }
}

/// `s` without its trailing white space.
pub open spec fn trim_end_spec(s: Seq<char>) -> Seq<char>
    decreases s.len(),
{
    if s.len() > 0 && unicode_white_space(s.last()) {
        trim_end_spec(s.drop_last())
    } else {
        s
    }
}

/// `s` without leading and trailing white space.
pub open spec fn trim_spec(s: Seq<char>) -> Seq<char> {
    trim_end_spec(trim_start_spec(s))
}

/// Trimming the start never lengthens.
pub proof fn lemma_trim_start_shorter(s: Seq<char>)
    ensures
        trim_start_spec(s).len() <= s.len(),
    decreases s.len(),
{
    if s.len() > 0 && unicode_white_space(s[0]) {
        lemma_trim_start_shorter(s.drop_first());
    }
}

/// Trimming the end never lengthens.
pub proof fn lemma_trim_end_shorter(s: Seq<char>)
    ensures
        trim_end_spec(s).len() <= s.len(),
    decreases s.len(),
{
    if s.len() > 0 && unicode_white_space(s.last()) {
        lemma_trim_end_shorter(s.drop_last());
    }
}

proof fn lemma_trim_start(s: Seq<char>, p: int)
    requires
        0 <= p <= s.len(),
        forall|q: int| 0 <= q < p ==> unicode_white_space(#[trigger] s[q]),
        p == s.len() || !unicode_white_space(s[p]),
    ensures
        trim_start_spec(s) == s.skip(p),
    decreases p,
{
    if p == 0 {
        assert(s.skip(0) =~= s);
    } else {
        let t = s.drop_first();
        assert forall|q: int| 0 <= q < p - 1 implies unicode_white_space(#[trigger] t[q]) by {
            assert(t[q] == s[q + 1]);
        }
        if p < s.len() {
            assert(t[p - 1] == s[p]);
        }
        lemma_trim_start(t, p - 1);
        assert(t.skip(p - 1) =~= s.skip(p));
    }
}

proof fn lemma_trim_end(t: Seq<char>, k: int)
    requires
        0 <= k <= t.len(),
        forall|q: int| k <= q < t.len() ==> unicode_white_space(#[trigger] t[q]),
        k == 0 || !unicode_white_space(t[k - 1]),
    ensures
        trim_end_spec(t) == t.take(k),
    decreases t.len() - k,
{
    if k == t.len() {
        assert(t.take(k) =~= t);
    } else {
        let u = t.drop_last();
        assert forall|q: int| k <= q < u.len() implies unicode_white_space(#[trigger] u[q]) by {
            assert(u[q] == t[q]);
        }
        if k > 0 {
            assert(u[k - 1] == t[k - 1]);
        }
        assert(unicode_white_space(t[t.len() - 1]));
        lemma_trim_end(u, k);
        assert(u.take(k) =~= t.take(k));
    }
}

/// `s` with leading and trailing white space removed, as std's `str::trim`
/// removes it.
pub(crate) fn trim(s: &str) -> (r: String)
    ensures
        r@ == trim_spec(s@),
        r@.len() > 0 ==> !unicode_white_space(r@[0]) && !unicode_white_space(r@.last()),
{
    let v = to_chars(s);
    let n = v.len();
    let mut a: usize = 0;
    while a < n && is_white_space(v[a])
        invariant
            n == v@.len(),
            a <= n,
            forall|q: int| 0 <= q < a ==> unicode_white_space(#[trigger] v@[q]),
        decreases n - a,
    {
        a = a + 1;
    }
    let mut b: usize = n;
    while b > a && is_white_space(v[b - 1])
        invariant
            n == v@.len(),
            a <= b <= n,
            forall|q: int| b <= q < n ==> unicode_white_space(#[trigger] v@[q]),
        decreases b - a,
    {
        b = b - 1;
    }
    let mut out: Vec<char> = Vec::new();
    let mut i: usize = a;
    while i < b
        invariant
            n == v@.len(),
            a <= i <= b,
            b <= n,
            out@ == v@.subrange(a as int, i as int),
        decreases b - i,
    {
        out.push(v[i]);
        i = i + 1;
    }
    proof {
        lemma_trim_start(v@, a as int);
        let t = v@.skip(a as int);
        assert forall|q: int| b - a <= q < t.len() implies unicode_white_space(#[trigger] t[q]) by {
            assert(t[q] == v@[q + a]);
        }
        if b > a {
            assert(t[b - a - 1] == v@[b - 1]);
        }
        lemma_trim_end(t, b - a);
        assert(t.take(b - a) =~= v@.subrange(a as int, b as int));
        if b > a {
            assert(v@.subrange(a as int, b as int)[0] == v@[a as int]);
        }
    }
    from_chars(out.as_slice())
}

/// The Unicode lowercase mapping of a whole string, as std's
/// `str::to_lowercase` computes it.
pub uninterp spec fn unicode_lowercase(s: Seq<char>) -> Seq<char>;

/// The lowercase form of `s`.
///
/// Trusted: calls std's `str::to_lowercase`, whose result depends on the
/// string alone (the Unicode `Lowercase` mapping, no locale); the contract
/// names that result [`unicode_lowercase`], and states of it only that on
/// ASCII text it lowercases `A`..=`Z` character by character.
#[verifier::external_body]
pub(crate) fn to_lowercase(s: &str) -> (r: String)
    ensures
        r@ == unicode_lowercase(s@),
        all_ascii(s@) ==> r@ == s@.map_values(|c: char| ascii_lower(c)),
{
    s.to_lowercase()
}

/// The characters of `s` before the first `c` (all of `s` when there is none).
pub open spec fn before_first(s: Seq<char>, c: char) -> Seq<char>
    decreases s.len(),
{
    if s.len() == 0 {
        s
    } else if s[0] == c {
        Seq::empty()
    } else {
        seq![s[0]] + before_first(s.drop_first(), c)
    }
}

/// The characters of `s` after the last `c` (all of `s` when there is none).
pub open spec fn after_last(s: Seq<char>, c: char) -> Seq<char>
    decreases s.len(),
{
    if s.len() == 0 {
        s
    } else if s.last() == c {
        Seq::empty()
    } else {
        after_last(s.drop_last(), c).push(s.last())
    }
}

/// A prefix ending just before the first `c` is [`before_first`].
pub proof fn lemma_before_first(s: Seq<char>, c: char, i: int)
    requires
        0 <= i <= s.len(),
        forall|j: int| 0 <= j < i ==> s[j] != c,
        i == s.len() || s[i] == c,
    ensures
        before_first(s, c) == s.take(i),
    decreases s.len(),
{
    if s.len() == 0 {
        assert(s.take(i) =~= s);
    } else if s[0] == c {
        assert(i == 0);
        assert(s.take(0) =~= Seq::<char>::empty());
    } else {
        let t = s.drop_first();
        assert forall|j: int| 0 <= j < i - 1 implies t[j] != c by {
            assert(t[j] == s[j + 1]);
        }
        lemma_before_first(t, c, i - 1);
        assert(seq![s[0]] + t.take(i - 1) =~= s.take(i));
    }
}

/// A suffix starting just after the last `c` is [`after_last`].
pub proof fn lemma_after_last(s: Seq<char>, c: char, i: int)
    requires
        0 <= i <= s.len(),
        forall|j: int| i <= j < s.len() ==> s[j] != c,
        i == 0 || s[i - 1] == c,
    ensures
        after_last(s, c) == s.skip(i),
    decreases s.len(),
{
    if s.len() == 0 {
        assert(s.skip(i) =~= s);
    } else if s.last() == c {
        assert(i == s.len());
        assert(s.skip(i) =~= Seq::<char>::empty());
    } else {
        let t = s.drop_last();
        if i == s.len() {
            assert(s[i - 1] == c);
        }
        lemma_after_last(t, c, i);
        assert(t.skip(i).push(s.last()) =~= s.skip(i));
    }
}

/// The characters of `s` before the first `c`.
pub fn chars_before_first(s: &Vec<char>, c: char) -> (r: Vec<char>)
    ensures
        r@ == before_first(s@, c),
{
    let n = s.len();
    let mut i: usize = 0;
    while i < n
        invariant
            n == s@.len(),
            i <= n,
            forall|j: int| 0 <= j < i ==> s@[j] != c,
        ensures
            i <= n,
            forall|j: int| 0 <= j < i ==> s@[j] != c,
            i == n || s@[i as int] == c,
        decreases n - i,
    {
        if s[i] == c {
            break;
        }
        i = i + 1;
    }
    proof {
        lemma_before_first(s@, c, i as int);
    }
    let mut r: Vec<char> = Vec::new();
    let mut k: usize = 0;
    while k < i
        invariant
            i <= n,
            n == s@.len(),
            k <= i,
            r@ == s@.take(k as int),
        decreases i - k,
    {
        assert(s@.take(k + 1) =~= s@.take(k as int).push(s@[k as int]));
        r.push(s[k]);
        k = k + 1;
    }
    r
}

/// The characters of `s` after the last `c`.
pub fn chars_after_last(s: &Vec<char>, c: char) -> (r: Vec<char>)
    ensures
        r@ == after_last(s@, c),
{
    let n = s.len();
    let mut i: usize = n;
    while i > 0
        invariant
            n == s@.len(),
            i <= n,
            forall|j: int| i <= j < n ==> s@[j] != c,
        ensures
            i <= n,
            forall|j: int| i <= j < n ==> s@[j] != c,
            i == 0 || s@[i - 1] == c,
        decreases i,
    {
        if s[i - 1] == c {
            break;
        }
        i = i - 1;
    }
    proof {
        lemma_after_last(s@, c, i as int);
    }
    let mut r: Vec<char> = Vec::new();
    let mut k: usize = i;
    while k < n
        invariant
            i <= k <= n,
            n == s@.len(),
            r@ == s@.subrange(i as int, k as int),
        decreases n - k,
    {
        assert(s@.subrange(i as int, k + 1) =~= s@.subrange(i as int, k as int).push(s@[k as int]));
        r.push(s[k]);
        k = k + 1;
    }
    assert(s@.subrange(i as int, n as int) =~= s@.skip(i as int));
    r
}

} // verus!
