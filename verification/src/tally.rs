use vstd::prelude::*;
use crate::player::{Guess, GuessView};

verus! {

/// `i` is the first position that holds the largest value of `s`.
pub open spec fn is_first_max(s: Seq<usize>, i: int) -> bool {
    &&& 0 <= i < s.len()
    &&& forall|j: int| 0 <= j < s.len() ==> s[j] <= s[i]
    &&& forall|j: int| 0 <= j < i ==> s[j] < s[i]
}

/// The position of the largest count; on a tie the earliest one wins.
/// `None` exactly when there is nothing to choose from.
pub fn max_index(input: &Vec<usize>) -> (r: Option<usize>)
    ensures
        r is None <==> input@.len() == 0,
        r matches Some(i) ==> is_first_max(input@, i as int),
{
    let mut max: Option<usize> = None;
    let n = input.len();
    for i in 0..n
        invariant
            n == input@.len(),
            max is None <==> i == 0,
            max matches Some(m) ==> is_first_max(input@.take(i as int), m as int),
    {
        match max {
            Some(prev) => {
                max = Some(if input[i] > input[prev] { i } else { prev });
            },
            None => {
                max = Some(i);
            },
        }
    }
    assert(input@.take(n as int) =~= input@);
    max
}

/// `a > b` for two numbers given by their keys; a number without a key
/// compares with nothing.
pub open spec fn key_gt(a: Option<i64>, b: Option<i64>) -> bool {
    &&& a matches Some(x)
    &&& b matches Some(y)
    &&& x > y
}

/// The position an answer points at: scanning from the front, a later
/// number takes over only when it is greater than the one held so far.
pub open spec fn top_of(b: Seq<GuessView>) -> Option<int>
    decreases b.len(),
{
    if b.len() == 0 {
        None
    } else {
        match top_of(b.drop_last()) {
            None => Some(b.len() - 1),
            Some(p) => if key_gt(b.last().key, b[p].key) {
                Some(b.len() - 1)
            } else {
                Some(p)
            },
        }
    }
}

pub proof fn lemma_top_in_range(b: Seq<GuessView>)
    ensures
        top_of(b) is None <==> b.len() == 0,
        top_of(b) matches Some(t) ==> 0 <= t < b.len(),
    decreases b.len(),
{
    if b.len() > 0 {
        lemma_top_in_range(b.drop_last());
    }
}

/// The position an answer points at (see [`top_of`]).
pub fn ballot_top(b: &Vec<Guess>) -> (r: Option<usize>)
    ensures
        r matches Some(t) ==> top_of(crate::player::ballot_view(b@)) == Some(t as int),
        r is None ==> top_of(crate::player::ballot_view(b@)) is None,
        r is None <==> b@.len() == 0,
        r matches Some(t) ==> t < b@.len(),
{
    let ghost bv = crate::player::ballot_view(b@);
    let mut max: Option<usize> = None;
    let n = b.len();
    for i in 0..n
        invariant
            n == b@.len(),
            bv == crate::player::ballot_view(b@),
            max is None <==> i == 0,
            max matches Some(m) ==> m < i && top_of(bv.take(i as int)) == Some(m as int),
            max is None ==> top_of(bv.take(i as int)) is None,
    {
        assert(bv.take(i + 1).drop_last() =~= bv.take(i as int));
        match max {
            Some(prev) => {
                let bigger = match (b[i].key, b[prev].key) {
                    (Some(x), Some(y)) => x > y,
                    _ => false,
                };
                max = Some(if bigger { i } else { prev });
            },
            None => {
                max = Some(i);
            },
        }
    }
    assert(bv.take(n as int) =~= bv);
    max
}

} // verus!
