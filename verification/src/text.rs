//! Moving between strings and sequences of characters.

use vstd::prelude::*;

verus! {

/// Whether `n` is a Unicode scalar value: a code point that is no surrogate.
pub open spec fn is_scalar_value(n: int) -> bool {
    0 <= n <= 0xD7FF || 0xE000 <= n <= 0x10FFFF
}

proof fn lemma_char_is_scalar_value(c: char)
    ensures
        is_scalar_value(c as int),
{
}

/// Every element of a sequence of characters is a character.
pub broadcast proof fn lemma_seq_char_is_scalar_value(s: Seq<char>, i: int)
    ensures
        is_scalar_value(#[trigger] s[i] as int),
{
    lemma_char_is_scalar_value(s[i]);
}

/// The texts of a run of strings.
pub open spec fn texts(strings: Seq<String>) -> Seq<Seq<char>> {
    Seq::new(strings.len(), |i: int| strings[i]@)
}

/// The characters of a string slice, in order.
pub fn chars_of(s: &str) -> (v: Vec<char>)
    ensures
        v@ == s@,
{
    let mut v: Vec<char> = Vec::new();
    for c in it: s.chars()
        invariant
            it.seq() == s@,
            v@ == it.seq().take(it.index()),
    {
        v.push(c);
    }
    v
}

/// `String::push`: appends one character to the end of the string.
#[verifier::external_body]
pub(crate) fn push_char(s: &mut String, c: char)
    ensures
        final(s)@ == old(s)@.push(c),
{
    s.push(c)
}

/// Appends the characters `v[from..]` to `out`.
pub fn push_chars(out: &mut String, v: &Vec<char>, from: usize)
    requires
        from <= v.len(),
    ensures
        final(out)@ == old(out)@ + v@.skip(from as int),
{
    let mut i: usize = from;
    while i < v.len()
        invariant
            from <= i <= v.len(),
            out@ == old(out)@ + v@.subrange(from as int, i as int),
        decreases v.len() - i,
    {
        push_char(out, v[i]);
        i += 1;
    }
    assert(v@.subrange(from as int, i as int) == v@.skip(from as int));
}

/// A copy of a run of strings.
pub fn copy_strings(strings: &Vec<String>) -> (copy: Vec<String>)
    ensures
        texts(copy@) == texts(strings@),
{
    let mut copy: Vec<String> = Vec::new();
    let mut i: usize = 0;
    while i < strings.len()
        invariant
            i <= strings.len(),
            texts(copy@) == texts(strings@).take(i as int),
        decreases strings.len() - i,
    {
        let ghost before = texts(copy@);
        let s = strings[i].clone();
        copy.push(s);
        assert(texts(copy@) == before.push(strings[i as int]@));
        i += 1;
    }
    assert(texts(strings@).take(i as int) == texts(strings@));
    copy
}

/// The pieces of `chars[from..]` between separators, added to `acc`; `cur`
/// holds the piece under way. A text with `n` separators has `n + 1` pieces,
/// some of them possibly empty.
pub open spec fn split_from(
    chars: Seq<char>,
    sep: char,
    from: int,
    cur: Seq<char>,
    acc: Seq<Seq<char>>,
) -> Seq<Seq<char>>
    decreases chars.len() - from,
{
    if from < 0 || from >= chars.len() {
        acc.push(cur)
    } else if chars[from] == sep {
        split_from(chars, sep, from + 1, Seq::empty(), acc.push(cur))
    } else {
        split_from(chars, sep, from + 1, cur.push(chars[from]), acc)
    }
}

/// The pieces of `chars` between separators.
pub open spec fn split(chars: Seq<char>, sep: char) -> Seq<Seq<char>> {
    split_from(chars, sep, 0, Seq::empty(), Seq::empty())
}

/// Splits `chars[from..]` at every separator.
pub fn split_chars(chars: &Vec<char>, sep: char, from: usize) -> (pieces: Vec<String>)
    requires
        from <= chars.len(),
    ensures
        texts(pieces@) == split(chars@.skip(from as int), sep),
{
    let ghost tail = chars@.skip(from as int);
    let mut pieces: Vec<String> = Vec::new();
    let mut cur = String::new();
    let mut i: usize = from;
    assert(texts(pieces@) == Seq::<Seq<char>>::empty());
    while i < chars.len()
        invariant
            from <= i <= chars.len(),
            tail == chars@.skip(from as int),
            split_from(tail, sep, i - from, cur@, texts(pieces@)) == split(tail, sep),
        decreases chars.len() - i,
    {
        let ghost before = texts(pieces@);
        if chars[i] == sep {
            pieces.push(cur);
            assert(texts(pieces@) == before.push(cur@));
            cur = String::new();
        } else {
            push_char(&mut cur, chars[i]);
        }
        i += 1;
    }
    let ghost before = texts(pieces@);
    pieces.push(cur);
    assert(texts(pieces@) == before.push(cur@));
    pieces
}

} // verus!
