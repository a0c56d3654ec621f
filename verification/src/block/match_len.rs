//! How far two places of the input agree, forwards and backwards.
use vstd::prelude::*;

verus! {

/// The number of bytes that agree from `s` and from `cand` on.
pub open spec fn common_len(src: Seq<u8>, s: int, cand: int) -> int
    decreases src.len() - s,
{
    if s < src.len() && src[s] == src[cand] {
        1 + common_len(src, s + 1, cand + 1)
    } else {
        0
    }
}

/// The number of bytes that agree from `s` and from `cand` on, up to the last
/// whole group of eight bytes before the end of the input.
pub open spec fn common_words(src: Seq<u8>, s: int, cand: int) -> int {
    let n = common_len(src, s, cand);
    let words = (src.len() - s) / 8 * 8;
    if n < words {
        n
    } else {
        words
    }
}

/// The number of bytes that agree before `s` and before `cand`, not below
/// `floor` on the one side and not beyond the start of the input on the other.
pub open spec fn common_back(src: Seq<u8>, s: int, cand: int, floor: int) -> int
    decreases cand,
{
    if cand > 0 && s > floor && src[cand - 1] == src[s - 1] {
        1 + common_back(src, s - 1, cand - 1, floor)
    } else {
        0
    }
}

/// No number of bytes that agree is negative.
pub proof fn lemma_common_words(src: Seq<u8>, s: int, cand: int)
    ensures
        0 <= common_len(src, s, cand),
        s <= src.len() ==> 0 <= common_words(src, s, cand),
    decreases src.len() - s,
{
    if s < src.len() && src[s] == src[cand] {
        lemma_common_words(src, s + 1, cand + 1);
    }
}

/// [`common_len`] is the length of a match that cannot be longer.
pub proof fn lemma_common_len(src: Seq<u8>, s: int, cand: int)
    requires
        0 <= cand < s <= src.len(),
    ensures
        0 <= common_len(src, s, cand),
        s + common_len(src, s, cand) <= src.len(),
        forall|i: int|
            s <= i < s + common_len(src, s, cand) ==> #[trigger] src[i] == src[i - (s - cand)],
        s + common_len(src, s, cand) == src.len() || src[s + common_len(src, s, cand)] != src[cand
            + common_len(src, s, cand)],
    decreases src.len() - s,
{
    if s < src.len() && src[s] == src[cand] {
        lemma_common_len(src, s + 1, cand + 1);
    }
}

/// [`common_back`] is how far a match extends backwards.
pub proof fn lemma_common_back(src: Seq<u8>, s: int, cand: int, floor: int)
    requires
        0 <= cand < s,
        floor <= s,
    ensures
        0 <= common_back(src, s, cand, floor) <= cand,
        common_back(src, s, cand, floor) <= s - floor,
        forall|i: int|
            s - common_back(src, s, cand, floor) <= i < s ==> #[trigger] src[i] == src[i - (s
                - cand)],
    decreases cand,
{
    if cand > 0 && s > floor && src[cand - 1] == src[s - 1] {
        lemma_common_back(src, s - 1, cand - 1, floor);
    }
}

/// The number of bytes by which the match of `s` with `cand` extends backwards,
/// not below `floor` and not beyond the start of the input.
pub fn extend_back(src: &[u8], s: usize, cand: usize, floor: usize) -> (k: usize)
    requires
        cand < s <= src.len(),
        floor <= s,
    ensures
        k <= cand,
        k <= s - floor,
        forall|i: int| s - k <= i < s ==> #[trigger] src@[i] == src@[i - (s - cand)],
        k == cand || k == s - floor || src@[s - k - 1] != src@[cand - k - 1],
        k == common_back(src@, s as int, cand as int, floor as int),
{
    let mut k: usize = 0;
    while k < cand && k < s - floor && src[cand - k - 1] == src[s - k - 1]
        invariant
            cand < s <= src.len(),
            floor <= s,
            k <= cand,
            k <= s - floor,
            k + common_back(src@, s - k, cand - k, floor as int) == common_back(
                src@,
                s as int,
                cand as int,
                floor as int,
            ),
            forall|i: int| s - k <= i < s ==> #[trigger] src@[i] == src@[i - (s - cand)],
        decreases cand - k,
    {
        k = k + 1;
    }
    k
}

/// The number of bytes that agree from `s` and from `cand` on.
pub fn match_len(src: &[u8], s: usize, cand: usize) -> (n: usize)
    requires
        cand < s <= src.len(),
    ensures
        s + n <= src.len(),
        forall|i: int| s <= i < s + n ==> #[trigger] src@[i] == src@[i - (s - cand)],
        s + n == src.len() || src@[s + n] != src@[cand + n],
        n == common_len(src@, s as int, cand as int),
{
    let mut n: usize = 0;
    while n < src.len() - s && src[s + n] == src[cand + n]
        invariant
            cand < s <= src.len(),
            s + n <= src.len(),
            n + common_len(src@, s + n, cand + n) == common_len(src@, s as int, cand as int),
            forall|i: int| s <= i < s + n ==> #[trigger] src@[i] == src@[i - (s - cand)],
        decreases src.len() - s - n,
    {
        n = n + 1;
    }
    n
}

/// The number of bytes that agree from `s` and from `cand` on, looked at eight
/// at a time: where fewer than eight bytes are left, it stops.
pub fn match_len_words(src: &[u8], s: usize, cand: usize) -> (n: usize)
    requires
        cand < s <= src.len(),
    ensures
        s + n <= src.len(),
        forall|i: int| s <= i < s + n ==> #[trigger] src@[i] == src@[i - (s - cand)],
        s + n + 8 > src.len() || src@[s + n] != src@[cand + n],
        n == common_words(src@, s as int, cand as int),
{
    let mut n: usize = 0;
    while src.len() - (s + n) >= 8
        invariant
            cand < s <= src.len(),
            s + n <= src.len(),
            n % 8 == 0,
            n + common_len(src@, s + n, cand + n) == common_len(src@, s as int, cand as int),
            forall|i: int| s <= i < s + n ==> #[trigger] src@[i] == src@[i - (s - cand)],
        decreases src.len() - s - n,
    {
        let mut k: usize = 0;
        while k < 8 && src[s + n + k] == src[cand + n + k]
            invariant
                cand < s,
                k <= 8,
                s + n + 8 <= src.len(),
                n + k + common_len(src@, s + n + k, cand + n + k) == common_len(
                    src@,
                    s as int,
                    cand as int,
                ),
                forall|i: int| s <= i < s + n + k ==> #[trigger] src@[i] == src@[i - (s - cand)],
            decreases 8 - k,
        {
            k = k + 1;
        }
        n = n + k;
        if k < 8 {
            return n;
        }
    }
    proof {
        lemma_common_len(src@, s + n, cand + n);
    }
    n
}

} // verus!
