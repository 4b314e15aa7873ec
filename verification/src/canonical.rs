//! Counting indices and naming them in the order of their first appearance.

use vstd::prelude::*;
use crate::text::{are_indices, is_index, letter, letters, nth_letter};

verus! {

/// How often `c` occurs in `s`.
pub open spec fn occurrences(s: Seq<char>, c: char) -> nat
    decreases s.len(),
{
    if s.len() == 0 {
        0
    } else {
        occurrences(s.drop_last(), c) + if s.last() == c {
            1nat
        } else {
            0nat
        }
    }
}

/// Occurrences add up over a concatenation.
pub proof fn lemma_occurrences_concat(a: Seq<char>, b: Seq<char>, c: char)
    ensures
        occurrences(a + b, c) == occurrences(a, c) + occurrences(b, c),
    decreases b.len(),
{
    if b.len() == 0 {
        assert(a + b == a);
    } else {
        assert((a + b).drop_last() == a + b.drop_last());
        lemma_occurrences_concat(a, b.drop_last(), c);
    }
}

/// An element occurs at least once exactly if the sequence contains it.
pub proof fn lemma_occurrences_contains(s: Seq<char>, c: char)
    ensures
        occurrences(s, c) > 0 <==> s.contains(c),
    decreases s.len(),
{
    if s.len() > 0 {
        lemma_occurrences_contains(s.drop_last(), c);
        if s.last() == c {
            assert(s[s.len() - 1] == c);
        } else if s.contains(c) {
            let i = choose|i: int| 0 <= i < s.len() && s[i] == c;
            assert(s.drop_last()[i] == c);
        } else if s.drop_last().contains(c) {
            let i = choose|i: int| 0 <= i < s.drop_last().len() && s.drop_last()[i] == c;
            assert(s[i] == c);
        }
    }
}

/// The distinct elements of `s`, in the order of their first occurrence.
pub open spec fn first_seen(s: Seq<char>) -> Seq<char>
    decreases s.len(),
{
    if s.len() == 0 {
        Seq::empty()
    } else {
        let before = first_seen(s.drop_last());
        if before.contains(s.last()) {
            before
        } else {
            before.push(s.last())
        }
    }
}

/// The place of the first occurrence of `c` in `s`, or the length of `s`
/// where there is none.
pub open spec fn place_of(s: Seq<char>, c: char) -> int
    decreases s.len(),
{
    if s.len() == 0 {
        0
    } else if s.first() == c {
        0
    } else {
        1 + place_of(s.drop_first(), c)
    }
}

/// Every element of `s` is listed in `order`.
pub open spec fn listed_in(s: Seq<char>, order: Seq<char>) -> bool {
    forall|i: int| 0 <= i < s.len() ==> order.contains(#[trigger] s[i])
}

/// A concatenation is listed where both parts are.
pub proof fn lemma_listed_in_concat(a: Seq<char>, b: Seq<char>, order: Seq<char>)
    ensures
        listed_in(a + b, order) <==> listed_in(a, order) && listed_in(b, order),
{
    if listed_in(a + b, order) {
        assert forall|i: int| 0 <= i < a.len() implies order.contains(#[trigger] a[i]) by {
            assert(a[i] == (a + b)[i]);
        }
        assert forall|i: int| 0 <= i < b.len() implies order.contains(#[trigger] b[i]) by {
            assert(b[i] == (a + b)[a.len() + i]);
        }
    }
}

/// The letter that stands for `c` once the indices listed in `order`
/// are renamed to `a`, `b`, `c`, ... in that order.
pub open spec fn canonical_letter(order: Seq<char>, c: char) -> char {
    letter(place_of(order, c))
}

/// The renaming that [`canonical_letter`] describes, as a function.
pub open spec fn canonical_map(order: Seq<char>) -> spec_fn(char) -> char {
    |c: char| canonical_letter(order, c)
}

/// `place_of` is the least position that holds `c`.
pub proof fn lemma_place_of(s: Seq<char>, c: char)
    ensures
        0 <= place_of(s, c) <= s.len(),
        place_of(s, c) < s.len() ==> s[place_of(s, c)] == c,
        forall|j: int| 0 <= j < place_of(s, c) ==> s[j] != c,
        s.contains(c) <==> place_of(s, c) < s.len(),
    decreases s.len(),
{
    if s.len() > 0 && s.first() != c {
        let t = s.drop_first();
        lemma_place_of(t, c);
        assert forall|j: int| 0 <= j < place_of(s, c) implies s[j] != c by {
            if j > 0 {
                assert(s[j] == t[j - 1]);
            }
        }
        if place_of(t, c) < t.len() {
            assert(s[place_of(s, c)] == t[place_of(t, c)]);
        }
        if s.contains(c) {
            let i = choose|i: int| 0 <= i < s.len() && s[i] == c;
            assert(t[i - 1] == c);
        }
    } else if s.len() > 0 {
        assert(s[0] == c);
    }
}

/// A position that holds `c` and has no `c` before it is `place_of`.
pub proof fn lemma_place_of_unique(s: Seq<char>, c: char, k: int)
    requires
        0 <= k <= s.len(),
        forall|j: int| 0 <= j < k ==> s[j] != c,
        k < s.len() ==> s[k] == c,
    ensures
        place_of(s, c) == k,
{
    lemma_place_of(s, c);
    let p = place_of(s, c);
    if p < k {
        assert(s[p] == c);
    } else if p > k {
        assert(s[k] == c);
    }
}

/// `first_seen` keeps each element of `s` exactly once.
pub proof fn lemma_first_seen(s: Seq<char>)
    ensures
        first_seen(s).no_duplicates(),
        forall|c: char|
            #![trigger first_seen(s).contains(c)]
            #![trigger s.contains(c)]
            first_seen(s).contains(c) <==> s.contains(c),
        first_seen(s).len() <= s.len(),
    decreases s.len(),
{
    if s.len() > 0 {
        let t = s.drop_last();
        let before = first_seen(t);
        lemma_first_seen(t);
        assert forall|c: char| first_seen(s).contains(c) <==> s.contains(c) by {
            if s.contains(c) {
                let i = choose|i: int| 0 <= i < s.len() && s[i] == c;
                if i < s.len() - 1 {
                    assert(t[i] == c);
                    assert(before.contains(c));
                    let j = choose|j: int| 0 <= j < before.len() && before[j] == c;
                    assert(first_seen(s)[j] == c);
                } else {
                    if before.contains(c) {
                    } else {
                        assert(first_seen(s)[before.len() as int] == c);
                    }
                }
            }
            if first_seen(s).contains(c) {
                let j = choose|j: int| 0 <= j < first_seen(s).len() && first_seen(s)[j] == c;
                if j < before.len() {
                    assert(before[j] == c);
                    assert(t.contains(c));
                    let i = choose|i: int| 0 <= i < t.len() && t[i] == c;
                    assert(s[i] == c);
                } else {
                    assert(s[s.len() - 1] == c);
                }
            }
        }
    }
}

/// The alphabet holds every index once, in increasing order.
pub proof fn lemma_letters()
    ensures
        letters().len() == 26,
        letters().no_duplicates(),
        forall|c: char|
            #![trigger letters().contains(c)]
            #![trigger is_index(c)]
            letters().contains(c) <==> is_index(c),
        forall|i: int, j: int| 0 <= i < j < 26 ==> letters()[i] < letters()[j],
{
    assert forall|c: char| letters().contains(c) <==> is_index(c) by {
        if is_index(c) {
            let k = c as int - 'a' as int;
            assert(letters()[k] == c);
        }
    }
}

/// No more than 26 distinct indices exist.
pub proof fn lemma_distinct_indices_bound(s: Seq<char>)
    requires
        s.no_duplicates(),
        are_indices(s),
    ensures
        s.len() <= 26,
{
    lemma_letters();
    s.unique_seq_to_set();
    letters().unique_seq_to_set();
    assert(s.to_set().subset_of(letters().to_set())) by {
        assert forall|c: char| s.to_set().contains(c) implies letters().to_set().contains(c) by {
            let i = choose|i: int| 0 <= i < s.len() && s[i] == c;
            assert(is_index(s[i]));
        }
    }
    vstd::set_lib::lemma_len_subset(s.to_set(), letters().to_set());
}

/// The distinct indices of a sequence of indices are at most 26 indices.
pub proof fn lemma_first_seen_indices(s: Seq<char>)
    requires
        are_indices(s),
    ensures
        are_indices(first_seen(s)),
        first_seen(s).len() <= 26,
{
    lemma_first_seen(s);
    assert forall|i: int| 0 <= i < first_seen(s).len() implies is_index(
        #[trigger] first_seen(s)[i],
    ) by {
        let c = first_seen(s)[i];
        assert(first_seen(s).contains(c));
        let j = choose|j: int| 0 <= j < s.len() && s[j] == c;
        assert(is_index(s[j]));
    }
    lemma_distinct_indices_bound(first_seen(s));
}

/// Renaming the elements by an injective function renames the first seen.
pub proof fn lemma_first_seen_map(s: Seq<char>, f: spec_fn(char) -> char)
    requires
        forall|i: int, j: int|
            0 <= i < s.len() && 0 <= j < s.len() && f(s[i]) == f(s[j]) ==> s[i] == s[j],
    ensures
        first_seen(s.map_values(f)) == first_seen(s).map_values(f),
    decreases s.len(),
{
    if s.len() == 0 {
        assert(s.map_values(f) == Seq::<char>::empty());
        assert(first_seen(s).map_values(f) == Seq::<char>::empty());
    } else {
        let t = s.drop_last();
        let x = s.last();
        assert(s.map_values(f).drop_last() == t.map_values(f));
        assert forall|i: int, j: int|
            0 <= i < t.len() && 0 <= j < t.len() && f(t[i]) == f(t[j]) implies t[i] == t[j] by {
            assert(t[i] == s[i] && t[j] == s[j]);
        }
        lemma_first_seen_map(t, f);
        lemma_first_seen(t);
        let before = first_seen(t);
        if before.contains(x) {
            let j = choose|j: int| 0 <= j < before.len() && before[j] == x;
            assert(before.map_values(f)[j] == f(x));
        } else if before.map_values(f).contains(f(x)) {
            let j = choose|j: int|
                0 <= j < before.map_values(f).len() && before.map_values(f)[j] == f(x);
            assert(before.contains(before[j]));
            assert(t.contains(before[j]));
            let i = choose|i: int| 0 <= i < t.len() && t[i] == before[j];
            assert(s[i] == before[j]);
            assert(f(s[i]) == f(s[s.len() - 1]));
            assert(false);
        } else {
            assert(before.push(x).map_values(f) == before.map_values(f).push(f(x)));
        }
    }
}

/// In a sequence without duplicates every element is at its own place.
pub proof fn lemma_place_of_index(s: Seq<char>, k: int)
    requires
        s.no_duplicates(),
        0 <= k < s.len(),
    ensures
        place_of(s, s[k]) == k,
{
    lemma_place_of_unique(s, s[k], k);
}

/// Renaming a sequence of indices by the order of first appearance gives
/// a sequence whose distinct indices are `a`, `b`, `c`, ... in that order.
pub proof fn lemma_canonical_order(s: Seq<char>)
    requires
        are_indices(s),
    ensures
        first_seen(s.map_values(canonical_map(first_seen(s)))) == letters().take(
            first_seen(s).len() as int,
        ),
        are_indices(s.map_values(canonical_map(first_seen(s)))),
        first_seen(s).len() <= 26,
{
    let order = first_seen(s);
    let f = canonical_map(order);
    lemma_first_seen(s);
    lemma_first_seen_indices(s);
    assert forall|i: int, j: int|
        0 <= i < s.len() && 0 <= j < s.len() && f(s[i]) == f(s[j]) implies s[i] == s[j] by {
        assert(order.contains(s[i]) && order.contains(s[j]));
        lemma_place_of(order, s[i]);
        lemma_place_of(order, s[j]);
    }
    lemma_first_seen_map(s, f);
    assert forall|k: int| 0 <= k < order.len() implies #[trigger] order.map_values(f)[k] == letter(
        k,
    ) by {
        lemma_place_of_index(order, k);
    }
    assert(order.map_values(f) == letters().take(order.len() as int));
    assert forall|i: int| 0 <= i < s.len() implies is_index(#[trigger] s.map_values(f)[i]) by {
        assert(order.contains(s[i]));
        lemma_place_of(order, s[i]);
    }
}

/// How often `c` occurs in `chars`, counted no further than two.
pub fn count_up_to_two(chars: &Vec<char>, c: char) -> (n: u8)
    ensures
        n <= 2,
        n < 2 ==> n == occurrences(chars@, c),
        n == 2 ==> occurrences(chars@, c) >= 2,
{
    let mut n: u8 = 0;
    let mut i: usize = 0;
    while i < chars.len()
        invariant
            i <= chars.len(),
            n <= 2,
            n < 2 ==> n == occurrences(chars@.take(i as int), c),
            n == 2 ==> occurrences(chars@.take(i as int), c) >= 2,
        decreases chars.len() - i,
    {
        assert(chars@.take(i + 1).drop_last() == chars@.take(i as int));
        if chars[i] == c && n < 2 {
            n = n + 1;
        }
        i = i + 1;
    }
    assert(chars@.take(i as int) == chars@);
    n
}

/// The place of the first occurrence of `c` in `chars`.
pub fn find_place(chars: &Vec<char>, c: char) -> (k: usize)
    ensures
        k == place_of(chars@, c),
        k <= chars@.len(),
        k < chars@.len() <==> chars@.contains(c),
{
    let mut k: usize = 0;
    while k < chars.len() && chars[k] != c
        invariant
            k <= chars.len(),
            forall|j: int| 0 <= j < k ==> chars@[j] != c,
        decreases chars.len() - k,
    {
        k = k + 1;
    }
    proof {
        lemma_place_of_unique(chars@, c, k as int);
        lemma_place_of(chars@, c);
    }
    k
}

/// The distinct elements of `chars`, in the order of their first occurrence.
pub fn first_appearance(chars: &Vec<char>) -> (order: Vec<char>)
    ensures
        order@ == first_seen(chars@),
{
    let mut order: Vec<char> = Vec::new();
    let mut i: usize = 0;
    while i < chars.len()
        invariant
            i <= chars.len(),
            order@ == first_seen(chars@.take(i as int)),
        decreases chars.len() - i,
    {
        assert(chars@.take(i + 1).drop_last() == chars@.take(i as int));
        let c = chars[i];
        let k: usize = find_place(&order, c);
        if k == order.len() {
            order.push(c);
        }
        i = i + 1;
    }
    assert(chars@.take(i as int) == chars@);
    order
}

/// Renames the elements of `chars`: the one that `order` lists first
/// becomes `a`, the next `b`, and so on.
pub fn rename(chars: &Vec<char>, order: &Vec<char>) -> (renamed: Vec<char>)
    requires
        order@.len() <= 26,
        listed_in(chars@, order@),
    ensures
        renamed@ == chars@.map_values(canonical_map(order@)),
        are_indices(renamed@),
{
    let mut renamed: Vec<char> = Vec::new();
    let mut i: usize = 0;
    while i < chars.len()
        invariant
            i <= chars.len(),
            order@.len() <= 26,
            listed_in(chars@, order@),
            renamed@ == chars@.take(i as int).map_values(canonical_map(order@)),
            are_indices(renamed@),
        decreases chars.len() - i,
    {
        let k: usize = find_place(order, chars[i]);
        assert(order@.contains(chars@[i as int]));
        let c = nth_letter(k as u8);
        renamed.push(c);
        assert(chars@.take(i + 1) == chars@.take(i as int).push(chars@[i as int]));
        assert(renamed@ == chars@.take(i + 1).map_values(canonical_map(order@)));
        i = i + 1;
    }
    assert(chars@.take(i as int) == chars@);
    renamed
}

} // verus!
