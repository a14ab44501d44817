//! Small text helpers shared by the engine and the history codec.

use vstd::prelude::*;

verus! {

/// `needle` occurs in `hay` at position `i`.
pub open spec fn seq_contains_at<T>(hay: Seq<T>, needle: Seq<T>, i: int) -> bool {
    &&& 0 <= i
    &&& i + needle.len() <= hay.len()
    &&& hay.subrange(i, i + needle.len()) == needle
}

/// An occurrence of a concatenation is an occurrence of each part.
pub proof fn lemma_contains_split<T>(s: Seq<T>, a: Seq<T>, b: Seq<T>, i: int)
    requires
        seq_contains_at(s, a + b, i),
    ensures
        seq_contains_at(s, a, i),
        seq_contains_at(s, b, i + a.len()),
{
    assert forall|k: int| 0 <= k < a.len() implies s[i + k] == a[k] by {
        assert((a + b)[k] == a[k]);
        assert(s.subrange(i, i + (a + b).len() as int)[k] == s[i + k]);
    }
    assert forall|k: int| 0 <= k < b.len() implies s[i + a.len() + k] == b[k] by {
        assert((a + b)[a.len() + k] == b[k]);
        assert(s.subrange(i, i + (a + b).len() as int)[a.len() + k] == s[i + a.len() + k]);
    }
    assert(s.subrange(i, i + a.len()) =~= a);
    assert(s.subrange(i + a.len(), i + a.len() + b.len()) =~= b);
}

/// An occurrence fixes each element of the region.
pub proof fn lemma_contains_char_at<T>(s: Seq<T>, t: Seq<T>, i: int, k: int)
    requires
        seq_contains_at(s, t, i),
        0 <= k < t.len(),
    ensures
        s[i + k] == t[k],
{
    assert(s.subrange(i, i + t.len())[k] == s[i + k]);
}

/// A region of an occurrence is itself an occurrence.
pub proof fn lemma_contains_within<T>(s: Seq<T>, t: Seq<T>, i: int, off: int, u: Seq<T>)
    requires
        seq_contains_at(s, t, i),
        0 <= off,
        off + u.len() <= t.len(),
        u == t.subrange(off, off + u.len()),
    ensures
        seq_contains_at(s, u, i + off),
{
    assert forall|k: int| 0 <= k < u.len() implies s[i + off + k] == u[k] by {
        lemma_contains_char_at(s, t, i, off + k);
        assert(t.subrange(off, off + u.len())[k] == t[off + k]);
    }
    assert(s.subrange(i + off, i + off + u.len()) =~= u);
}

/// Two adjacent occurrences are one occurrence of the concatenation.
pub proof fn lemma_contains_join<T>(s: Seq<T>, a: Seq<T>, b: Seq<T>, i: int)
    requires
        seq_contains_at(s, a, i),
        seq_contains_at(s, b, i + a.len()),
    ensures
        seq_contains_at(s, a + b, i),
{
    assert forall|k: int| 0 <= k < (a + b).len() implies s[i + k] == (a + b)[k] by {
        if k < a.len() {
            lemma_contains_char_at(s, a, i, k);
        } else {
            lemma_contains_char_at(s, b, i + a.len(), k - a.len());
        }
    }
    assert(s.subrange(i, i + (a + b).len() as int) =~= a + b);
}

/// Character-wise string equality.
pub fn str_eq(a: &str, b: &str) -> (r: bool)
    ensures
        r == (a@ == b@),
{
    let la = a.unicode_len();
    let lb = b.unicode_len();
    if la != lb {
        return false;
    }
    let mut i: usize = 0;
    while i < la
        invariant
            la == a@.len(),
            la == b@.len(),
            i <= la,
            forall|j: int| 0 <= j < i ==> a@[j] == b@[j],
        decreases la - i,
    {
        if a.get_char(i) != b.get_char(i) {
            return false;
        }
        i = i + 1;
    }
    proof {
        assert(a@ =~= b@);
    }
    true
}

/// The characters of a string as a vector.
pub fn str_chars(s: &str) -> (v: Vec<char>)
    ensures
        v@ == s@,
{
    let len = s.unicode_len();
    let mut v: Vec<char> = Vec::new();
    let mut i: usize = 0;
    while i < len
        invariant
            len == s@.len(),
            i <= len,
            v@ == s@.take(i as int),
        decreases len - i,
    {
        v.push(s.get_char(i));
        proof {
            assert(s@.take(i as int).push(s@[i as int]) =~= s@.take(i + 1));
        }
        i = i + 1;
    }
    proof {
        assert(s@.take(len as int) =~= s@);
    }
    v
}

/// Relies on `String::push` from std: appends the given character to the
/// end of the string.
#[verifier::external_body]
pub fn push_char(s: &mut String, c: char)
    ensures
        final(s)@ == old(s)@.push(c),
{
    s.push(c);
}

} // verus!
