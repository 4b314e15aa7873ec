//! Characters and small pieces of text that the rest of the crate is built from.

use vstd::prelude::*;
use vstd::string::*;

verus! {

/// An index is a single lower-case ASCII letter.
pub open spec fn is_index(c: char) -> bool {
    'a' <= c && c <= 'z'
}

/// Every element of `s` is an index.
pub open spec fn are_indices(s: Seq<char>) -> bool {
    forall|i: int| 0 <= i < s.len() ==> is_index(#[trigger] s[i])
}

/// A concatenation holds indices only where both parts do.
pub proof fn lemma_are_indices_concat(a: Seq<char>, b: Seq<char>)
    ensures
        are_indices(a + b) <==> are_indices(a) && are_indices(b),
{
    if are_indices(a + b) {
        assert forall|i: int| 0 <= i < a.len() implies is_index(#[trigger] a[i]) by {
            assert(a[i] == (a + b)[i]);
        }
        assert forall|i: int| 0 <= i < b.len() implies is_index(#[trigger] b[i]) by {
            assert(b[i] == (a + b)[a.len() + i]);
        }
    }
}

/// The `k`-th letter of the alphabet, counted from zero.
pub open spec fn letter(k: int) -> char {
    ('a' as int + k) as char
}

/// The alphabet `a`, `b`, ..., `z`.
pub open spec fn letters() -> Seq<char> {
    Seq::new(26, |k: int| letter(k))
}

/// The decimal digit for `d`.
pub open spec fn digit(d: int) -> char {
    ('0' as int + d) as char
}

/// The decimal notation of `n`, without leading zeros.
pub open spec fn decimal(n: nat) -> Seq<char>
    decreases n,
{
    if n < 10 {
        seq![digit(n as int)]
    } else {
        decimal(n / 10).push(digit((n % 10) as int))
    }
}

/// The `parts`, one after the other, with `separator` between each two.
pub open spec fn join(parts: Seq<Seq<char>>, separator: Seq<char>) -> Seq<char>
    decreases parts.len(),
{
    if parts.len() == 0 {
        Seq::empty()
    } else if parts.len() == 1 {
        parts[0]
    } else {
        join(parts.drop_last(), separator) + separator + parts.last()
    }
}

/// Joining one more part puts the separator before it, unless it is the first.
pub proof fn lemma_join_push(parts: Seq<Seq<char>>, part: Seq<char>, separator: Seq<char>)
    ensures
        join(parts.push(part), separator) == if parts.len() == 0 {
            part
        } else {
            join(parts, separator) + separator + part
        },
{
    assert(parts.push(part).drop_last() == parts);
}

/// The `parts`, one after the other.
pub open spec fn concat(parts: Seq<Seq<char>>) -> Seq<char>
    decreases parts.len(),
{
    if parts.len() == 0 {
        Seq::empty()
    } else {
        concat(parts.drop_last()) + parts.last()
    }
}

/// Tells whether `c` is an index.
pub fn check_index(c: char) -> (b: bool)
    ensures
        b == is_index(c),
{
    'a' <= c && c <= 'z'
}

/// The `k`-th letter of the alphabet.
pub fn nth_letter(k: u8) -> (c: char)
    requires
        k < 26,
    ensures
        c == letter(k as int),
        is_index(c),
{
    (97u8 + k) as char
}

/// Appends the index `c` to `out`.
pub fn push_index(out: &mut String, c: char)
    requires
        is_index(c),
    ensures
        final(out)@ == old(out)@.push(c),
{
    let k: usize = (c as u32 - 'a' as u32) as usize;
    let alphabet = "abcdefghijklmnopqrstuvwxyz";
    proof {
        reveal_strlit("abcdefghijklmnopqrstuvwxyz");
    }
    let piece = alphabet.substring_char(k, k + 1);
    assert(piece@ =~= seq![c]);
    out.append(piece);
    assert(out@ =~= old(out)@.push(c));
}

/// Appends the decimal notation of `n` to `out`.
pub fn push_decimal(out: &mut String, n: usize)
    ensures
        final(out)@ == old(out)@ + decimal(n as nat),
    decreases n,
{
    if n >= 10 {
        push_decimal(out, n / 10);
    }
    let d: usize = n % 10;
    let digits = "0123456789";
    proof {
        reveal_strlit("0123456789");
    }
    let piece = digits.substring_char(d, d + 1);
    assert(piece@ =~= seq![digit(d as int)]);
    out.append(piece);
    assert(out@ =~= old(out)@ + decimal(n as nat));
}

/// The texts that `parts` holds.
pub open spec fn texts(parts: Seq<String>) -> Seq<Seq<char>> {
    Seq::new(parts.len(), |i: int| parts[i]@)
}

/// Appends the `parts` to `out`, with `separator` between each two.
pub fn push_joined(out: &mut String, parts: &Vec<String>, separator: &str)
    ensures
        final(out)@ == old(out)@ + join(texts(parts@), separator@),
{
    let mut i: usize = 0;
    while i < parts.len()
        invariant
            i <= parts.len(),
            out@ == old(out)@ + join(texts(parts@).take(i as int), separator@),
        decreases parts.len() - i,
    {
        proof {
            let all = texts(parts@);
            assert(all.take(i + 1) == all.take(i as int).push(all[i as int]));
            lemma_join_push(all.take(i as int), all[i as int], separator@);
        }
        if i > 0 {
            out.append(separator);
        }
        out.append(parts[i].as_str());
        i = i + 1;
    }
    assert(texts(parts@).take(i as int) == texts(parts@));
}

/// Appends the `parts` to `out`, one after the other.
pub fn push_all(out: &mut String, parts: &Vec<String>)
    ensures
        final(out)@ == old(out)@ + concat(texts(parts@)),
{
    let mut i: usize = 0;
    while i < parts.len()
        invariant
            i <= parts.len(),
            out@ == old(out)@ + concat(texts(parts@).take(i as int)),
        decreases parts.len() - i,
    {
        assert(texts(parts@).take(i + 1).drop_last() == texts(parts@).take(i as int));
        out.append(parts[i].as_str());
        i = i + 1;
    }
    assert(texts(parts@).take(i as int) == texts(parts@));
}

} // verus!
