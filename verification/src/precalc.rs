//! Running sums of squared samples of each reference voice.

use crate::arith::{cong, lemma_cong_add, lemma_cong_mod};
use crate::audio_vec::owned::pixel::{Pixel, M1M2};
use crate::audio_vec::owned::{index_of, sum_sq, Owned};
use crate::solve::card_voice::CardVoiceIndex;
use vstd::prelude::*;

verus! {

/// The sum of the squares of `s[0], .., s[k]`, reduced modulo `M1 * M2`.
pub open spec fn running_sum(s: Seq<int>, k: int) -> int {
    sum_sq(s.subrange(0, k + 1)) % (M1M2 as int)
}

/// A sum of squares is not negative.
pub proof fn lemma_sum_sq_nonnegative(s: Seq<int>)
    ensures
        0 <= sum_sq(s),
    decreases s.len(),
{
    if s.len() > 0 {
        lemma_sum_sq_nonnegative(s.drop_last());
        assert(s.last() * s.last() >= 0) by (nonlinear_arith);
    }
}

/// The sum of squares of a beginning of `s` is no greater than that of a
/// longer beginning.
pub proof fn lemma_sum_sq_grows(s: Seq<int>, j: int, k: int)
    requires
        0 <= j <= k <= s.len(),
    ensures
        0 <= sum_sq(s.subrange(0, j)) <= sum_sq(s.subrange(0, k)),
    decreases k - j,
{
    lemma_sum_sq_nonnegative(s.subrange(0, j));
    if j < k {
        lemma_sum_sq_grows(s, j, k - 1);
        let head = s.subrange(0, k);
        assert(head.drop_last() =~= s.subrange(0, k - 1));
        assert(head.last() * head.last() >= 0) by (nonlinear_arith);
    }
}

/// Where the sum of all the squares stays below `M1 * M2`, the running sums
/// never decrease.
pub proof fn lemma_running_sum_monotone(s: Seq<int>, j: int, k: int)
    requires
        0 <= j <= k < s.len(),
        sum_sq(s) < M1M2,
    ensures
        running_sum(s, j) <= running_sum(s, k),
{
    lemma_sum_sq_grows(s, j + 1, k + 1);
    lemma_sum_sq_grows(s, k + 1, s.len() as int);
    assert(s.subrange(0, s.len() as int) =~= s);
    vstd::arithmetic::div_mod::lemma_small_mod(sum_sq(s.subrange(0, j + 1)) as nat, M1M2 as nat);
    vstd::arithmetic::div_mod::lemma_small_mod(sum_sq(s.subrange(0, k + 1)) as nat, M1M2 as nat);
}

/// For each reference voice, the running sums of its squared samples.
#[derive(Debug)]
pub struct Precalculation {
    table: Vec<Vec<Pixel>>,
}

impl Precalculation {
    /// The tables as integers: one sequence for each voice.
    pub closed spec fn sums(&self) -> Seq<Seq<int>> {
        Seq::new(
            self.table@.len(),
            |r: int| Seq::new(self.table@[r]@.len(), |k: int| self.table@[r]@[k]@),
        )
    }

    /// The running sums of one voice.
    fn running_sums(voice: &Owned) -> (sums: Vec<Pixel>)
        ensures
            sums@.len() == voice@.len(),
            forall|k: int| 0 <= k < sums@.len() ==> (#[trigger] sums@[k])@ == running_sum(voice@, k),
    {
        let squares = voice.squared();
        let mut sums: Vec<Pixel> = Vec::new();
        let mut acc = Pixel::zero();
        let mut k: usize = 0;
        proof {
            assert(voice@.subrange(0, 0) =~= Seq::<int>::empty());
        }
        while k < squares.len()
            invariant
                k <= squares.len(),
                squares@.len() == voice@.len(),
                forall|i: int|
                    0 <= i < squares@.len() ==> (#[trigger] squares@[i])@ == (voice@[i] * voice@[i])
                        % (M1M2 as int),
                sums@.len() == k,
                cong(acc@, sum_sq(voice@.subrange(0, k as int)), M1M2 as int),
                forall|i: int| 0 <= i < k ==> (#[trigger] sums@[i])@ == running_sum(voice@, i),
            decreases squares.len() - k,
        {
            let sq = squares[k];
            let ghost a0 = acc@;
            acc = acc.add(sq);
            proof {
                let m = M1M2 as int;
                let head = voice@.subrange(0, k + 1);
                assert(head.drop_last() =~= voice@.subrange(0, k as int));
                assert(head.last() == voice@[k as int]);
                lemma_cong_mod(voice@[k as int] * voice@[k as int], m);
                lemma_cong_add(
                    a0,
                    sum_sq(head.drop_last()),
                    sq@,
                    voice@[k as int] * voice@[k as int],
                    m,
                );
                lemma_cong_mod(a0 + sq@, m);
                acc.lemma_view();
                vstd::arithmetic::div_mod::lemma_small_mod(acc@ as nat, m as nat);
            }
            let ghost before = sums@;
            sums.push(acc);
            proof {
                assert forall|i: int| 0 <= i < k + 1 implies (#[trigger] sums@[i])@ == running_sum(
                    voice@,
                    i,
                ) by {
                    if i < k {
                        assert(sums@[i] == before[i]);
                    }
                }
            }
            k = k + 1;
        }
        sums
    }

    /// The running sums of every voice.
    pub fn new(card_voices: &Vec<Owned>) -> (p: Precalculation)
        ensures
            p.sums().len() == card_voices@.len(),
            forall|r: int|
                0 <= r < card_voices@.len() ==> (#[trigger] p.sums()[r]).len() == card_voices@[r]@.len(),
            forall|r: int, k: int|
                0 <= r < card_voices@.len() && 0 <= k < card_voices@[r]@.len() ==> #[trigger] p.sums()[r][k]
                    == running_sum(card_voices@[r]@, k),
    {
        let mut table: Vec<Vec<Pixel>> = Vec::new();
        let mut r: usize = 0;
        while r < card_voices.len()
            invariant
                r <= card_voices.len(),
                table@.len() == r,
                forall|i: int|
                    0 <= i < r ==> (#[trigger] table@[i])@.len() == card_voices@[i]@.len(),
                forall|i: int, k: int|
                    0 <= i < r && 0 <= k < card_voices@[i]@.len() ==> (#[trigger] table@[i]@[k])@
                        == running_sum(card_voices@[i]@, k),
            decreases card_voices.len() - r,
        {
            let sums = Self::running_sums(&card_voices[r]);
            let ghost before = table@;
            table.push(sums);
            proof {
                assert forall|i: int| 0 <= i < r + 1 implies (#[trigger] table@[i])@.len()
                    == card_voices@[i]@.len() by {
                    if i < r {
                        assert(table@[i] == before[i]);
                    }
                }
                assert forall|i: int, k: int|
                    0 <= i < r + 1 && 0 <= k < card_voices@[i]@.len() implies (#[trigger] table@[i]@[k])@
                    == running_sum(card_voices@[i]@, k) by {
                    if i < r {
                        assert(table@[i] == before[i]);
                    }
                }
            }
            r = r + 1;
        }
        Precalculation { table }
    }

    /// The running sum of voice `using` up to sample `delay`; zero where
    /// the voice has no such sample.
    pub fn get(&self, using: CardVoiceIndex, delay: isize) -> (px: Pixel)
        requires
            using@ < self.sums().len(),
        ensures
            px.wf(),
            px@ == if 0 <= delay < self.sums()[using@].len() {
                self.sums()[using@][delay as int]
            } else {
                0
            },
    {
        let row = &self.table[using.index() as usize];
        match index_of(delay) {
            Some(k) => {
                if k < row.len() {
                    let px = row[k];
                    proof {
                        use_type_invariant(&px);
                    }
                    px
                } else {
                    Pixel::zero()
                }
            },
            None => Pixel::zero(),
        }
    }
}

} // verus!
