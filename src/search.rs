//! Locating a pattern inside text and splitting around its first occurrence.
//!
//! The search runs over the UTF-8 bytes of the text, which is linear and cheap;
//! its contract speaks of the characters, which is what callers reason about.
use vstd::prelude::*;
use vstd::string::StringSliceAdditionalSpecFns;
use vstd::utf8::*;

verus! {

/// `p` sits in `s` starting at index `i`.
pub open spec fn occurs_at<A>(s: Seq<A>, p: Seq<A>, i: int) -> bool {
    0 <= i && i + p.len() <= s.len() && s.subrange(i, i + p.len()) == p
}

/// `i` is where `p` occurs in `s` for the first time.
pub open spec fn is_first_occurrence<A>(s: Seq<A>, p: Seq<A>, i: int) -> bool {
    &&& occurs_at(s, p, i)
    &&& forall|j: int| 0 <= j < i ==> !#[trigger] occurs_at(s, p, j)
}

/// The index of the first occurrence of `p` in `s`, if there is one.
pub open spec fn find<A>(s: Seq<A>, p: Seq<A>) -> Option<int> {
    if exists|i: int| is_first_occurrence(s, p, i) {
        Some(choose|i: int| is_first_occurrence(s, p, i))
    } else {
        None
    }
}

/// A first occurrence is the one that `find` reports.
pub proof fn lemma_find_first<A>(s: Seq<A>, p: Seq<A>, k: int)
    requires
        is_first_occurrence(s, p, k),
    ensures
        find(s, p) == Some(k),
{
    let c = choose|i: int| is_first_occurrence(s, p, i);
    assert(is_first_occurrence(s, p, c));
    if c < k {
        assert(occurs_at(s, p, c));
    } else if c > k {
        assert(occurs_at(s, p, k));
    }
}

/// Without any occurrence, `find` reports none.
pub proof fn lemma_find_absent<A>(s: Seq<A>, p: Seq<A>)
    requires
        forall|i: int| !#[trigger] occurs_at(s, p, i),
    ensures
        find(s, p) is None,
{
    if exists|i: int| is_first_occurrence(s, p, i) {
        let c = choose|i: int| is_first_occurrence(s, p, i);
        assert(occurs_at(s, p, c));
    }
}

/// What `find` reports is a first occurrence.
pub proof fn lemma_find_some<A>(s: Seq<A>, p: Seq<A>)
    requires
        find(s, p) is Some,
    ensures
        is_first_occurrence(s, p, find(s, p)->0),
{
}

/// Within a prefix of `s` long enough to hold it, an occurrence at `q` is the
/// first one in the prefix exactly when it is the first one in `s`.
pub proof fn lemma_first_occurrence_in_prefix<A>(s: Seq<A>, p: Seq<A>, n: int, q: int)
    requires
        0 <= q,
        q + p.len() <= n <= s.len(),
    ensures
        is_first_occurrence(s, p, q) == is_first_occurrence(s.subrange(0, n), p, q),
{
    let t = s.subrange(0, n);
    assert forall|j: int| #![trigger occurs_at(s, p, j)] #![trigger occurs_at(t, p, j)]
        0 <= j <= q implies occurs_at(s, p, j) == occurs_at(t, p, j) by {
        assert(t.subrange(j, j + p.len()) =~= s.subrange(j, j + p.len()));
    }
}

/// Encoding a concatenation concatenates the encodings.
pub proof fn lemma_encode_concat(a: Seq<char>, b: Seq<char>)
    ensures
        encode_utf8(a + b) == encode_utf8(a) + encode_utf8(b),
    decreases a.len(),
{
    if a.len() == 0 {
        assert(a + b =~= b);
        assert(encode_utf8(a) + encode_utf8(b) =~= encode_utf8(b));
    } else {
        assert((a + b)[0] == a[0]);
        assert((a + b).drop_first() =~= a.drop_first() + b);
        lemma_encode_concat(a.drop_first(), b);
        assert(encode_utf8(a + b) =~= encode_utf8(a) + encode_utf8(b));
    }
}

/// Every character takes at least one byte.
pub proof fn lemma_encode_len(a: Seq<char>)
    ensures
        encode_utf8(a).len() >= a.len(),
    decreases a.len(),
{
    if a.len() > 0 {
        lemma_encode_len(a.drop_first());
    }
}

/// A longer prefix of a text takes strictly more bytes.
proof fn lemma_encode_prefix_grows(cs: Seq<char>, j: int, k: int)
    requires
        0 <= j < k <= cs.len(),
    ensures
        encode_utf8(cs.subrange(0, j)).len() < encode_utf8(cs.subrange(0, k)).len(),
{
    assert(cs.subrange(0, k) =~= cs.subrange(0, j) + cs.subrange(j, k));
    lemma_encode_concat(cs.subrange(0, j), cs.subrange(j, k));
    lemma_encode_len(cs.subrange(j, k));
}

/// An occurrence among the characters is an occurrence among the bytes.
proof fn lemma_occurrence_in_encoding(cs: Seq<char>, p: Seq<char>, j: int)
    requires
        occurs_at(cs, p, j),
    ensures
        occurs_at(encode_utf8(cs), encode_utf8(p), encode_utf8(cs.subrange(0, j)).len() as int),
{
    let pre = cs.subrange(0, j);
    let post = cs.subrange(j + p.len(), cs.len() as int);
    assert(cs =~= pre + p + post);
    lemma_encode_concat(pre + p, post);
    lemma_encode_concat(pre, p);
    let o = encode_utf8(pre).len() as int;
    let all = encode_utf8(pre) + encode_utf8(p) + encode_utf8(post);
    assert(all.subrange(o, o + encode_utf8(p).len()) =~= encode_utf8(p));
}

/// In valid UTF-8, a run of ASCII bytes at the front ends on a character boundary.
proof fn lemma_ascii_run_ends_on_boundary(bytes: Seq<u8>, m: int)
    requires
        valid_utf8(bytes),
        0 <= m <= bytes.len(),
        forall|t: int| 0 <= t < m ==> #[trigger] bytes[t] < 0x80,
    ensures
        is_char_boundary(bytes, m),
    decreases m,
{
    if m > 0 {
        assert(is_leading_byte_width_1(bytes[0]));
        let rest = pop_first_scalar(bytes);
        assert(rest =~= bytes.subrange(1, bytes.len() as int));
        assert forall|t: int| 0 <= t < m - 1 implies #[trigger] rest[t] < 0x80 by {
            assert(rest[t] == bytes[t + 1]);
        }
        lemma_ascii_run_ends_on_boundary(rest, m - 1);
    }
}

/// Whether `pat` sits in `bytes` at `at`.
fn bytes_match_at(bytes: &[u8], pat: &[u8], at: usize) -> (r: bool)
    requires
        at + pat@.len() <= bytes@.len(),
    ensures
        r == occurs_at(bytes@, pat@, at as int),
{
    let n = bytes.len();
    let mut t: usize = 0;
    while t < pat.len()
        invariant
            n == bytes@.len(),
            at + pat@.len() <= bytes@.len(),
            0 <= t <= pat@.len(),
            forall|u: int| 0 <= u < t ==> bytes@[at + u] == pat@[u],
        decreases pat@.len() - t,
    {
        if bytes[at + t] != pat[t] {
            assert(bytes@.subrange(at as int, at + pat@.len())[t as int] != pat@[t as int]);
            return false;
        }
        t = t + 1;
    }
    assert(bytes@.subrange(at as int, at + pat@.len()) =~= pat@);
    true
}

/// Splits `text` around the first occurrence of `pat`: what comes before it and
/// what comes after it, both borrowed from `text`. `None` when `pat` does not occur.
pub fn split_once<'a>(text: &'a str, pat: &str) -> (r: Option<(&'a str, &'a str)>)
    requires
        pat@.len() > 0,
        is_ascii_chars(pat@),
    ensures
        match find(text@, pat@) {
            Some(k) => {
                &&& r is Some
                &&& r.unwrap().0@ == text@.subrange(0, k)
                &&& r.unwrap().1@ == text@.subrange(k + pat@.len(), text@.len() as int)
            },
            None => r is None,
        },
{
    let bytes = text.as_bytes();
    let pb = pat.as_bytes();
    let ghost cs = text@;
    let ghost bs = encode_utf8(cs);
    proof {
        is_ascii_chars_encode_utf8(pat@);
        encode_utf8_valid_utf8(cs);
        encode_utf8_decode_utf8(cs);
        encode_utf8_decode_utf8(pat@);
        assert(bytes@ == bs);
        assert(pb@ == encode_utf8(pat@));
    }
    let n = bytes.len();
    let m = pb.len();
    if m > n {
        proof {
            assert forall|j: int| !#[trigger] occurs_at(cs, pat@, j) by {
                if occurs_at(cs, pat@, j) {
                    lemma_occurrence_in_encoding(cs, pat@, j);
                }
            }
            lemma_find_absent(cs, pat@);
        }
        return None;
    }
    let mut i: usize = 0;
    let mut found = false;
    while !found && i <= n - m
        invariant
            bytes@ == bs,
            pb@ == encode_utf8(pat@),
            n == bs.len(),
            m == pb@.len(),
            1 <= m <= n,
            i <= n - m + 1,
            forall|o: int| 0 <= o < i ==> !#[trigger] occurs_at(bs, pb@, o),
            found ==> i <= n - m && occurs_at(bs, pb@, i as int),
        decreases n - m + 1 - i + (if found { 0int } else { 1int }),
    {
        if bytes_match_at(bytes, pb, i) {
            found = true;
        } else {
            i = i + 1;
        }
    }
    if !found {
        proof {
            assert forall|j: int| !#[trigger] occurs_at(cs, pat@, j) by {
                if occurs_at(cs, pat@, j) {
                    lemma_occurrence_in_encoding(cs, pat@, j);
                }
            }
            lemma_find_absent(cs, pat@);
        }
        return None;
    }
    proof {
        assert(bs[i as int] == pb@[0]);
        assert(pat@[0] as u8 == pb@[0]);
        assert(!is_continuation_byte(bs[i as int]));
        is_char_boundary_iff_not_is_continuation_byte(bs, i as int);
    }
    let (before, rest) = text.split_at(i);
    let ghost rb = bs.subrange(i as int, n as int);
    proof {
        encode_utf8_decode_utf8(before@);
        encode_utf8_decode_utf8(rest@);
        decode_utf8_split(bs, i as int);
        assert(cs == before@ + rest@);
        assert(rest.spec_bytes() == rb);
        assert forall|t: int| 0 <= t < m implies #[trigger] rb[t] < 0x80 by {
            assert(rb[t] == pb@[t]);
            assert(pat@[t] as u8 == pb@[t]);
        }
        valid_utf8_split(bs, i as int);
        lemma_ascii_run_ends_on_boundary(rb, m as int);
    }
    let (head, after) = rest.split_at(m);
    proof {
        encode_utf8_decode_utf8(head@);
        encode_utf8_decode_utf8(after@);
        decode_utf8_split(rb, m as int);
        assert(rb.subrange(0, m as int) =~= pb@);
        assert(head@ == pat@);
        assert(rest@ == pat@ + after@);
        let k = before@.len() as int;
        assert(cs =~= before@ + pat@ + after@);
        assert(cs.subrange(k, k + pat@.len()) =~= pat@);
        assert forall|j: int| 0 <= j < k implies !#[trigger] occurs_at(cs, pat@, j) by {
            if occurs_at(cs, pat@, j) {
                lemma_occurrence_in_encoding(cs, pat@, j);
                lemma_encode_prefix_grows(cs, j, k);
                assert(cs.subrange(0, k) =~= before@);
            }
        }
        assert(is_first_occurrence(cs, pat@, k));
        lemma_find_first(cs, pat@, k);
        assert(before@ =~= cs.subrange(0, k));
        assert(after@ =~= cs.subrange(k + pat@.len(), cs.len() as int));
    }
    Some((before, after))
}

} // verus!
