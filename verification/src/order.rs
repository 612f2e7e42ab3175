//! The order of breakdown rows: keys compared character by character by code
//! point, which is also the order of their UTF-8 bytes.

use vstd::prelude::*;
use crate::text::to_chars;

verus! {

/// Whether `a` sorts strictly before `b`: at the first position where they
/// differ `a` has the smaller code point, or `a` is a proper prefix of `b`.
pub open spec fn chars_lt(a: Seq<char>, b: Seq<char>) -> bool
    decreases a.len(),
{
    if b.len() == 0 {
        false
    } else if a.len() == 0 {
        true
    } else if a[0] != b[0] {
        a[0] < b[0]
    } else {
        chars_lt(a.drop_first(), b.drop_first())
    }
}

/// No key sorts before itself.
pub proof fn lemma_lt_irreflexive(a: Seq<char>)
    ensures
        !chars_lt(a, a),
    decreases a.len(),
{
    if a.len() > 0 {
        lemma_lt_irreflexive(a.drop_first());
    }
}

/// The order is transitive.
pub proof fn lemma_lt_transitive(a: Seq<char>, b: Seq<char>, c: Seq<char>)
    requires
        chars_lt(a, b),
        chars_lt(b, c),
    ensures
        chars_lt(a, c),
    decreases a.len(),
{
    if a.len() > 0 && a[0] == b[0] && b[0] == c[0] {
        lemma_lt_transitive(a.drop_first(), b.drop_first(), c.drop_first());
    }
}

/// Of two different keys, one sorts before the other.
pub proof fn lemma_lt_total(a: Seq<char>, b: Seq<char>)
    requires
        a != b,
    ensures
        chars_lt(a, b) || chars_lt(b, a),
    decreases a.len(),
{
    if a.len() == 0 && b.len() == 0 {
        assert(a =~= b);
    } else if a.len() > 0 && b.len() > 0 && a[0] != b[0] {
    } else if a.len() > 0 && b.len() > 0 && a[0] == b[0] {
        if a.drop_first() == b.drop_first() {
            assert(a.drop_first().len() == a.len() - 1);
            assert(b.drop_first().len() == b.len() - 1);
            assert(a.len() == b.len());
            assert(a =~= b) by {
                assert forall|i: int| 0 <= i < a.len() implies a[i] == b[i] by {
                    if i > 0 {
                        assert(a[i] == a.drop_first()[i - 1]);
                        assert(b[i] == b.drop_first()[i - 1]);
                    }
                }
            }
        }
        lemma_lt_total(a.drop_first(), b.drop_first());
    }
}

/// Whether the keys of `s` strictly ascend.
pub open spec fn ascending(s: Seq<Seq<char>>) -> bool {
    forall|i: int, j: int| 0 <= i < j < s.len() ==> chars_lt(#[trigger] s[i], #[trigger] s[j])
}

/// Where `k` goes into `s` when scanning from position `p`: the first
/// position from `p` on whose key does not sort before `k`.
pub open spec fn insert_pos(s: Seq<Seq<char>>, k: Seq<char>, p: int) -> int
    decreases s.len() - p,
{
    if p >= s.len() {
        s.len() as int
    } else if chars_lt(s[p], k) {
        insert_pos(s, k, p + 1)
    } else {
        p
    }
}

/// The keys `ks` in ascending order: each inserted, from the last to the
/// first, before the first key that does not sort before it.
pub open spec fn sorted_keys(ks: Seq<Seq<char>>) -> Seq<Seq<char>>
    decreases ks.len(),
{
    if ks.len() == 0 {
        Seq::empty()
    } else {
        let rest = sorted_keys(ks.drop_first());
        rest.insert(insert_pos(rest, ks[0], 0), ks[0])
    }
}

proof fn lemma_insert_pos(s: Seq<Seq<char>>, k: Seq<char>, p: int)
    requires
        0 <= p <= s.len(),
    ensures
        p <= insert_pos(s, k, p) <= s.len(),
        forall|q: int| p <= q < insert_pos(s, k, p) ==> chars_lt(#[trigger] s[q], k),
        insert_pos(s, k, p) < s.len() ==> !chars_lt(s[insert_pos(s, k, p)], k),
    decreases s.len() - p,
{
    if p < s.len() && chars_lt(s[p], k) {
        lemma_insert_pos(s, k, p + 1);
    }
}

/// The insertion position lies within `s`.
pub proof fn lemma_insert_pos_range(s: Seq<Seq<char>>, k: Seq<char>)
    ensures
        0 <= insert_pos(s, k, 0) <= s.len(),
{
    lemma_insert_pos(s, k, 0);
}

/// Sorting keeps the keys and their number; keys without repeats come out
/// strictly ascending.
pub proof fn lemma_sorted_keys(ks: Seq<Seq<char>>)
    ensures
        sorted_keys(ks).len() == ks.len(),
        forall|k: Seq<char>| #[trigger] sorted_keys(ks).contains(k) <==> ks.contains(k),
        ks.no_duplicates() ==> ascending(sorted_keys(ks)),
    decreases ks.len(),
{
    if ks.len() > 0 {
        let tail = ks.drop_first();
        let rest = sorted_keys(tail);
        let k0 = ks[0];
        lemma_sorted_keys(tail);
        lemma_insert_pos(rest, k0, 0);
        let pos = insert_pos(rest, k0, 0);
        let out = rest.insert(pos, k0);
        rest.insert_ensures(pos, k0);
        assert forall|k: Seq<char>| #[trigger] out.contains(k) <==> ks.contains(k) by {
            if out.contains(k) {
                let t = choose|t: int| 0 <= t < out.len() && out[t] == k;
                if t < pos {
                    assert(rest[t] == k);
                    assert(rest.contains(k));
                    let u = choose|u: int| 0 <= u < tail.len() && tail[u] == k;
                    assert(ks[u + 1] == k);
                } else if t == pos {
                    assert(ks[0] == k);
                } else {
                    assert(rest[t - 1] == k);
                    assert(rest.contains(k));
                    let u = choose|u: int| 0 <= u < tail.len() && tail[u] == k;
                    assert(ks[u + 1] == k);
                }
            }
            if ks.contains(k) {
                let u = choose|u: int| 0 <= u < ks.len() && ks[u] == k;
                if u == 0 {
                    assert(out[pos] == k);
                } else {
                    assert(tail[u - 1] == k);
                    assert(tail.contains(k));
                    assert(rest.contains(k));
                    let t = choose|t: int| 0 <= t < rest.len() && rest[t] == k;
                    if t < pos {
                        assert(out[t] == k);
                    } else {
                        assert(out[t + 1] == k);
                    }
                }
            }
        }
        if ks.no_duplicates() {
            assert(tail.no_duplicates()) by {
                assert forall|i: int, j: int| 0 <= i < tail.len() && 0 <= j < tail.len() && i != j implies tail[i]
                    != tail[j] by {
                    assert(tail[i] == ks[i + 1]);
                    assert(tail[j] == ks[j + 1]);
                }
            }
            assert(!rest.contains(k0)) by {
                if tail.contains(k0) {
                    let u = choose|u: int| 0 <= u < tail.len() && tail[u] == k0;
                    assert(ks[u + 1] == ks[0]);
                }
            }
            assert forall|i: int, j: int| 0 <= i < j < out.len() implies chars_lt(#[trigger] out[i], #[trigger] out[j]) by {
                if j < pos {
                    assert(out[i] == rest[i] && out[j] == rest[j]);
                } else if j == pos {
                    assert(out[i] == rest[i]);
                } else if i < pos {
                    assert(out[i] == rest[i] && out[j] == rest[j - 1]);
                } else if i == pos {
                    assert(out[j] == rest[j - 1]);
                    assert(rest[pos] != k0);
                    lemma_lt_total(rest[pos], k0);
                    if j - 1 > pos {
                        lemma_lt_transitive(k0, rest[pos], rest[j - 1]);
                    }
                } else {
                    assert(out[i] == rest[i - 1] && out[j] == rest[j - 1]);
                }
            }
        }
    }
}

/// Whether `a` sorts strictly before `b`.
pub fn chars_less(a: &Vec<char>, b: &Vec<char>) -> (r: bool)
    ensures
        r == chars_lt(a@, b@),
{
    let mut i: usize = 0;
    assert(a@.skip(0) =~= a@);
    assert(b@.skip(0) =~= b@);
    while i < a.len() && i < b.len() && a[i] == b[i]
        invariant
            i <= a@.len(),
            i <= b@.len(),
            chars_lt(a@, b@) == chars_lt(a@.skip(i as int), b@.skip(i as int)),
        decreases a@.len() - i,
    {
        assert(a@.skip(i as int).drop_first() =~= a@.skip(i + 1));
        assert(b@.skip(i as int).drop_first() =~= b@.skip(i + 1));
        i = i + 1;
    }
    if i == b.len() {
        false
    } else if i == a.len() {
        true
    } else {
        a[i] < b[i]
    }
}

/// The keys of `es`, as characters.
pub open spec fn entry_keys<V>(es: Seq<(String, V)>) -> Seq<Seq<char>> {
    es.map_values(|e: (String, V)| e.0@)
}

/// `entries` reordered by ascending key.
pub fn sort_by_key<V>(entries: Vec<(String, V)>) -> (r: Vec<(String, V)>)
    ensures
        r@.len() == entries@.len(),
        forall|t: int| 0 <= t < r@.len() ==> (#[trigger] r@[t]).0@ == sorted_keys(entry_keys(entries@))[t],
        forall|t: int| 0 <= t < r@.len() ==> exists|j: int| 0 <= j < entries@.len() && #[trigger] r@[t]
            == entries@[j],
{
    let ghost es = entries@;
    let ghost ks = entry_keys(es);
    let mut rest = entries;
    let mut out: Vec<(String, V)> = Vec::new();
    let mut out_keys: Vec<Vec<char>> = Vec::new();
    proof {
        assert(ks.skip(es.len() as int) =~= Seq::<Seq<char>>::empty());
        assert(es.take(es.len() as int) =~= es);
    }
    while rest.len() > 0
        invariant
            ks == entry_keys(es),
            rest@.len() <= es.len(),
            rest@ == es.take(rest@.len() as int),
            out@.len() == out_keys@.len(),
            out@.len() + rest@.len() == es.len(),
            sorted_keys(ks.skip(rest@.len() as int)).len() == out@.len(),
            forall|t: int| 0 <= t < out_keys@.len() ==> (#[trigger] out_keys@[t])@ == sorted_keys(
                ks.skip(rest@.len() as int),
            )[t],
            forall|t: int| 0 <= t < out@.len() ==> (#[trigger] out@[t]).0@ == out_keys@[t]@,
            forall|t: int| 0 <= t < out@.len() ==> exists|j: int| rest@.len() <= j < es.len() && #[trigger] out@[t]
                == es[j],
        decreases rest@.len(),
    {
        let e = rest.pop().unwrap();
        let m = rest.len();
        let kc = to_chars(e.0.as_str());
        let ghost sk = sorted_keys(ks.skip(m + 1));
        let ghost old_out = out@;
        let ghost old_keys = out_keys@;
        proof {
            assert(rest@ =~= es.take(m as int));
            assert(e == es[m as int]);
            assert(kc@ == ks[m as int]);
            assert(ks.skip(m as int).drop_first() =~= ks.skip(m + 1));
            assert(ks.skip(m as int)[0] == ks[m as int]);
            lemma_insert_pos(sk, kc@, 0);
        }
        let mut p: usize = 0;
        while p < out_keys.len()
            invariant
                p <= out_keys@.len(),
                out_keys@ == old_keys,
                sk.len() == old_keys.len(),
                forall|t: int| 0 <= t < old_keys.len() ==> (#[trigger] old_keys[t])@ == sk[t],
                insert_pos(sk, kc@, 0) == insert_pos(sk, kc@, p as int),
            ensures
                insert_pos(sk, kc@, 0) == p,
            decreases out_keys@.len() - p,
        {
            if chars_less(&out_keys[p], &kc) {
                p = p + 1;
            } else {
                break;
            }
        }
        let ghost ek = e;
        out.insert(p, e);
        out_keys.insert(p, kc);
        proof {
            old_out.insert_ensures(p as int, ek);
            old_keys.insert_ensures(p as int, kc);
            sk.insert_ensures(p as int, kc@);
            let nk = sorted_keys(ks.skip(m as int));
            assert(nk == sk.insert(p as int, kc@));
            assert forall|t: int| 0 <= t < out_keys@.len() implies (#[trigger] out_keys@[t])@ == nk[t] by {
                if t < p {
                    assert(out_keys@[t] == old_keys[t]);
                } else if t > p {
                    assert(out_keys@[t] == old_keys[t - 1]);
                    assert(nk[t] == sk[t - 1]);
                }
            }
            assert forall|t: int| 0 <= t < out@.len() implies (#[trigger] out@[t]).0@ == out_keys@[t]@ by {
                if t < p {
                    assert(out@[t] == old_out[t]);
                    assert(out_keys@[t] == old_keys[t]);
                } else if t > p {
                    assert(out@[t] == old_out[t - 1]);
                    assert(out_keys@[t] == old_keys[t - 1]);
                }
            }
            assert forall|t: int| 0 <= t < out@.len() implies exists|j: int| m <= j < es.len() && #[trigger] out@[t]
                == es[j] by {
                if t < p {
                    assert(out@[t] == old_out[t]);
                } else if t == p {
                    assert(out@[t] == es[m as int]);
                } else {
                    assert(out@[t] == old_out[t - 1]);
                }
            }
        }
    }
    proof {
        assert(ks.skip(0) =~= ks);
    }
    out
}

} // verus!
