//! Character-sequence primitives shared by the matching engine: substring
//! occurrence, leftmost substring search, and concatenation of pieces.

use vstd::prelude::*;

verus! {

/// `needle` occurs in `hay` starting at position `at`.
pub open spec fn occurs_at(hay: Seq<char>, needle: Seq<char>, at: nat) -> bool {
    &&& at + needle.len() <= hay.len()
    &&& hay.subrange(at as int, at + needle.len() as int) == needle
}

/// Position of the leftmost occurrence of `needle` in `hay` at or after
/// `from`, if any.
pub open spec fn find_from(hay: Seq<char>, needle: Seq<char>, from: nat) -> Option<nat>
    decreases hay.len() + 1 - from,
{
    if from + needle.len() > hay.len() {
        None
    } else if occurs_at(hay, needle, from) {
        Some(from)
    } else {
        find_from(hay, needle, (from + 1) as nat)
    }
}

/// `find_from` returns exactly the leftmost occurrence: a found position is
/// an occurrence preceded by none, and a miss means there is none at all.
pub proof fn lemma_find_from_leftmost(hay: Seq<char>, needle: Seq<char>, from: nat)
    ensures
        match find_from(hay, needle, from) {
            Some(j) => {
                &&& from <= j
                &&& occurs_at(hay, needle, j)
                &&& forall|k: nat| from <= k < j ==> !occurs_at(hay, needle, k)
            },
            None => forall|k: nat| from <= k ==> !occurs_at(hay, needle, k),
        },
    decreases hay.len() + 1 - from,
{
    if from + needle.len() > hay.len() {
        assert forall|k: nat| from <= k implies !occurs_at(hay, needle, k) by {
            assert(k + needle.len() > hay.len());
        }
    } else if occurs_at(hay, needle, from) {
    } else {
        lemma_find_from_leftmost(hay, needle, (from + 1) as nat);
    }
}

/// A position that is an occurrence and has no occurrence before it (at or
/// after `from`) is what `find_from` returns.
pub proof fn lemma_find_from_of_leftmost(hay: Seq<char>, needle: Seq<char>, from: nat, j: nat)
    requires
        from <= j,
        occurs_at(hay, needle, j),
        forall|k: nat| from <= k < j ==> !occurs_at(hay, needle, k),
    ensures
        find_from(hay, needle, from) == Some(j),
    decreases j - from,
{
    assert(from + needle.len() <= hay.len());
    if from < j {
        assert(!occurs_at(hay, needle, from));
        lemma_find_from_of_leftmost(hay, needle, (from + 1) as nat, j);
    }
}

/// Whether `needle` occurs in `input` starting exactly at position `at`.
pub fn is_match_at(input: &[char], at: usize, needle: &[char]) -> (r: bool)
    requires
        at + needle@.len() <= input@.len(),
    ensures
        r == occurs_at(input@, needle@, at as nat),
{
    let n = input.len();
    let mut k: usize = 0;
    while k < needle.len()
        invariant
            0 <= k <= needle@.len(),
            n == input@.len(),
            at + needle@.len() <= input@.len(),
            forall|t: int| 0 <= t < k ==> input@[at + t] == needle@[t],
        decreases needle@.len() - k,
    {
        if input[at + k] != needle[k] {
            proof {
                if occurs_at(input@, needle@, at as nat) {
                    assert(input@.subrange(at as int, at + needle@.len())[k as int]
                        == input@[at + k]);
                }
            }
            return false;
        }
        k = k + 1;
    }
    proof {
        assert(input@.subrange(at as int, at + needle@.len()) =~= needle@);
    }
    true
}

/// Position of the leftmost occurrence of `needle` in `input` at or after
/// position `from`, if any.
pub fn find_at(input: &[char], from: usize, needle: &[char]) -> (r: Option<usize>)
    requires
        from <= input@.len(),
    ensures
        match r {
            Some(j) => find_from(input@, needle@, from as nat) == Some(j as nat),
            None => find_from(input@, needle@, from as nat) is None,
        },
{
    let n = input.len();
    let mut j: usize = from;
    loop
        invariant
            from <= j <= input@.len(),
            n == input@.len(),
            find_from(input@, needle@, from as nat) == find_from(input@, needle@, j as nat),
        decreases input@.len() + 1 - j,
    {
        if n - j < needle.len() {
            proof {
                assert(j + needle@.len() > input@.len());
            }
            return None;
        }
        if is_match_at(input, j, needle) {
            return Some(j);
        }
        proof {
            if needle@.len() == 0 {
                assert(input@.subrange(j as int, j as int) =~= needle@);
            }
            assert(find_from(input@, needle@, j as nat)
                == find_from(input@, needle@, (j + 1) as nat));
        }
        j = j + 1;
    }
}

/// Whether two character sequences are equal.
pub fn text_eq(a: &[char], b: &[char]) -> (r: bool)
    ensures
        r == (a@ == b@),
{
    if a.len() != b.len() {
        return false;
    }
    let r = is_match_at(a, 0, b);
    proof {
        if occurs_at(a@, b@, 0) {
            assert(a@ =~= a@.subrange(0, b@.len() as int));
        } else if a@ == b@ {
            assert(a@.subrange(0, b@.len() as int) =~= b@);
        }
    }
    r
}

/// Concatenation of a sequence of character sequences, in order.
pub open spec fn concat_all(ps: Seq<Seq<char>>) -> Seq<char>
    decreases ps.len(),
{
    if ps.len() == 0 {
        Seq::empty()
    } else {
        ps.first() + concat_all(ps.drop_first())
    }
}

} // verus!
