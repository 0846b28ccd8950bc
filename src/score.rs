use vstd::prelude::*;

verus! {

/// The sign bit of an IEEE-754 binary32 bit pattern.
pub const SIGN_BIT: u32 = 0x8000_0000;

/// The bit pattern of positive infinity, the largest magnitude that is not a NaN.
pub const INFINITY_BITS: u32 = 0x7f80_0000;

/// The magnitude field (exponent and fraction) of a binary32 bit pattern.
pub open spec fn magnitude(bits: u32) -> int {
    (bits % SIGN_BIT) as int
}

/// The pattern encodes a NaN: all exponent bits set and a non-zero fraction.
pub open spec fn is_nan(bits: u32) -> bool {
    magnitude(bits) > INFINITY_BITS as int
}

/// The position of a non-NaN binary32 value on the number line.
///
/// Non-NaN binary32 values are ordered as the sign-magnitude integers of their
/// bit patterns, with both zeros equal; this gives that integer.
pub open spec fn rank(bits: u32) -> int {
    if bits >= SIGN_BIT {
        -magnitude(bits)
    } else {
        magnitude(bits)
    }
}

/// The float `>`: false as soon as either side is a NaN.
pub open spec fn greater(x: u32, y: u32) -> bool {
    !is_nan(x) && !is_nan(y) && rank(x) > rank(y)
}

/// Tells whether a score, given as the bit pattern of an `f32`, is a NaN.
pub fn score_is_nan(bits: u32) -> (r: bool)
    ensures
        r == is_nan(bits),
{
    bits % SIGN_BIT > INFINITY_BITS
}

/// The exact value of `rank`, which fits in an `i64`.
fn score_rank(bits: u32) -> (r: i64)
    ensures
        r as int == rank(bits),
{
    let m: i64 = (bits % SIGN_BIT) as i64;
    if bits >= SIGN_BIT {
        -m
    } else {
        m
    }
}

/// Compares two scores, given as `f32` bit patterns, as the float `>` does.
pub fn score_greater(x: u32, y: u32) -> (r: bool)
    ensures
        r == greater(x, y),
{
    !score_is_nan(x) && !score_is_nan(y) && score_rank(x) > score_rank(y)
}

/// No score in `s` is a NaN.
pub open spec fn all_comparable(s: Seq<u32>) -> bool {
    forall|j: int| 0 <= j < s.len() ==> !is_nan(#[trigger] s[j])
}

/// `i` holds the first of the highest scores in `s`.
pub open spec fn is_first_best(s: Seq<u32>, i: int) -> bool {
    &&& 0 <= i < s.len()
    &&& forall|j: int| 0 <= j < s.len() ==> rank(#[trigger] s[j]) <= rank(s[i])
    &&& forall|j: int| 0 <= j < i ==> rank(#[trigger] s[j]) < rank(s[i])
}

/// The position of the first of the highest scores.
pub open spec fn first_best(s: Seq<u32>) -> int {
    choose|i: int| is_first_best(s, i)
}

/// At most one position holds the first of the highest scores.
pub proof fn lemma_first_best_unique(s: Seq<u32>, i: int, k: int)
    requires
        is_first_best(s, i),
        is_first_best(s, k),
    ensures
        i == k,
{
    if i < k {
        assert(rank(s[i]) < rank(s[k]));
    } else if k < i {
        assert(rank(s[k]) < rank(s[i]));
    }
}

/// A non-empty sequence of scores has a first best one.
pub proof fn lemma_first_best_exists(scores: Seq<u32>)
    requires
        scores.len() > 0,
    ensures
        is_first_best(scores, first_best(scores)),
    decreases scores.len(),
{
    if scores.len() == 1 {
        assert(is_first_best(scores, 0));
    } else {
        let p = scores.drop_last();
        lemma_first_best_exists(p);
        let k = first_best(p);
        let last = scores.len() - 1;
        assert(forall|j: int| 0 <= j < last ==> p[j] == scores[j]);
        if rank(scores[last]) > rank(p[k]) {
            assert(is_first_best(scores, last));
        } else {
            assert(is_first_best(scores, k));
        }
    }
}

/// Why a search could not go on.
#[derive(Clone, Copy, Debug, PartialEq, Eq, Structural)]
pub enum SearchError {
    /// A score was a NaN, which no other score can be compared with.
    Incomparable,
}

/// Picks the first of the highest scores, scanning left to right and
/// replacing the best only on a strictly higher score.
///
/// Fails when any score is a NaN.
pub fn best_index(scores: &Vec<u32>) -> (r: Result<usize, SearchError>)
    requires
        scores.len() > 0,
    ensures
        r is Err <==> !all_comparable(scores@),
        r is Err ==> r == Err::<usize, SearchError>(SearchError::Incomparable),
        r is Ok ==> r->Ok_0 == first_best(scores@),
        r is Ok ==> is_first_best(scores@, r->Ok_0 as int),
{
    let mut k: usize = 0;
    while k < scores.len()
        invariant
            k <= scores.len(),
            forall|j: int| 0 <= j < k ==> !is_nan(#[trigger] scores@[j]),
        decreases scores.len() - k,
    {
        if score_is_nan(scores[k]) {
            return Err(SearchError::Incomparable);
        }
        k = k + 1;
    }
    let mut best: usize = 0;
    let mut best_rank: i64 = score_rank(scores[0]);
    let mut i: usize = 1;
    while i < scores.len()
        invariant
            all_comparable(scores@),
            1 <= i <= scores.len(),
            best < i,
            best_rank as int == rank(scores@[best as int]),
            forall|j: int| 0 <= j < i ==> rank(#[trigger] scores@[j]) <= rank(scores@[best as int]),
            forall|j: int| 0 <= j < best ==> rank(#[trigger] scores@[j]) < rank(scores@[best as int]),
        decreases scores.len() - i,
    {
        let r = score_rank(scores[i]);
        if r > best_rank {
            best = i;
            best_rank = r;
        }
        i = i + 1;
    }
    proof {
        assert(is_first_best(scores@, best as int));
        lemma_first_best_unique(scores@, best as int, first_best(scores@));
    }
    Ok(best)
}

} // verus!
