//! Searching sequences, and moving characters between strings and vectors.

use vstd::prelude::*;
use vstd::std_specs::iter::IteratorSpec;

verus! {

/// The index of the first occurrence of `x` in `s`, or the length of `s` where `x` does not
/// occur in it.
pub open spec fn first_index<T>(s: Seq<T>, x: T) -> int
    decreases s.len(),
{
    if s.len() == 0 || s[0] == x {
        0
    } else {
        1 + first_index(s.drop_first(), x)
    }
}

/// Whether `i` is where `x` first occurs in `s`, or the length of `s` where `x` does not occur.
pub open spec fn is_first_index<T>(s: Seq<T>, x: T, i: int) -> bool {
    &&& 0 <= i <= s.len()
    &&& forall|k: int| 0 <= k < i ==> #[trigger] s[k] != x
    &&& i < s.len() ==> s[i] == x
}

/// `first_index` finds the first occurrence.
pub proof fn lemma_first_index<T>(s: Seq<T>, x: T)
    ensures
        is_first_index(s, x, first_index(s, x)),
    decreases s.len(),
{
    if s.len() == 0 || s[0] == x {
    } else {
        let rest = s.drop_first();
        lemma_first_index(rest, x);
        let i = first_index(s, x);
        assert forall|k: int| 0 <= k < i implies #[trigger] s[k] != x by {
            if k > 0 {
                assert(s[k] == rest[k - 1]);
            }
        }
        if i < s.len() {
            assert(s[i] == rest[i - 1]);
        }
    }
}

/// There is one first occurrence only.
pub proof fn lemma_first_index_unique<T>(s: Seq<T>, x: T, i: int)
    requires
        is_first_index(s, x, i),
    ensures
        first_index(s, x) == i,
{
    lemma_first_index(s, x);
    let j = first_index(s, x);
    if j < i {
        assert(s[j] != x);
    } else if i < j {
        assert(s[i] != x);
    }
}

/// `String::push` appends one character to the end of the string.
pub assume_specification[ String::push ](s: &mut String, c: char)
    ensures
        final(s)@ == old(s)@.push(c),
;

/// The characters of `s`, one by one.
pub fn chars_of(s: &str) -> (v: Vec<char>)
    ensures
        v@ == s@,
{
    let mut v: Vec<char> = Vec::new();
    let mut it = s.chars();
    loop
        invariant
            it.obeys_prophetic_iter_laws(),
            it.decrease() is Some,
            v@ + it.remaining() == s@,
        ensures
            v@ == s@,
        decreases it.decrease()->0,
    {
        match it.next() {
            Some(c) => {
                v.push(c);
            },
            None => {
                assert(v@ + it.remaining() =~= v@);
                break;
            },
        }
    }
    v
}

/// The index in `chars` at or after `from` of the first `c`, or the length of `chars` where
/// no `c` follows.
pub fn find_char(chars: &[char], from: usize, c: char) -> (i: usize)
    requires
        from <= chars.len(),
    ensures
        i == from + first_index(chars@.subrange(from as int, chars.len() as int), c),
        from <= i <= chars.len(),
{
    let len: usize = chars.len();
    let ghost tail = chars@.subrange(from as int, len as int);
    let mut i: usize = from;
    while i < len && chars[i] != c
        invariant
            len == chars.len(),
            from <= i <= len,
            tail == chars@.subrange(from as int, len as int),
            forall|k: int| 0 <= k < i - from ==> #[trigger] tail[k] != c,
        decreases len - i,
    {
        i += 1;
    }
    proof {
        lemma_first_index_unique(tail, c, i - from);
    }
    i
}

/// The index in `bytes` at or after `from` of the first `b`, or the length of `bytes` where no
/// `b` follows.
pub fn find_byte(bytes: &[u8], from: usize, b: u8) -> (i: usize)
    requires
        from <= bytes.len(),
    ensures
        i == from + first_index(bytes@.subrange(from as int, bytes.len() as int), b),
        from <= i <= bytes.len(),
{
    let len: usize = bytes.len();
    let ghost tail = bytes@.subrange(from as int, len as int);
    let mut i: usize = from;
    while i < len && bytes[i] != b
        invariant
            len == bytes.len(),
            from <= i <= len,
            tail == bytes@.subrange(from as int, len as int),
            forall|k: int| 0 <= k < i - from ==> #[trigger] tail[k] != b,
        decreases len - i,
    {
        i += 1;
    }
    proof {
        lemma_first_index_unique(tail, b, i - from);
    }
    i
}

/// Appends the characters of `chars` from index `from` up to `to` to `out`.
pub fn push_chars(out: &mut String, chars: &[char], from: usize, to: usize)
    requires
        from <= to <= chars.len(),
    ensures
        final(out)@ == old(out)@ + chars@.subrange(from as int, to as int),
{
    let mut i: usize = from;
    while i < to
        invariant
            from <= i <= to <= chars.len(),
            out@ == old(out)@ + chars@.subrange(from as int, i as int),
        decreases to - i,
    {
        out.push(chars[i]);
        assert(chars@.subrange(from as int, i + 1) =~= chars@.subrange(from as int, i as int).push(
            chars@[i as int],
        ));
        i += 1;
    }
}

} // verus!
