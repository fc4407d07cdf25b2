//! The loss between a problem recording and the reference voices, and the
//! search for the voices and delays that make it up.

pub mod card_voice;

use self::card_voice::{CardVoiceIndex, CARD_COUNT};
use crate::arith::{lemma_cong_add, lemma_cong_mod, lemma_cong_sub};
use crate::audio_vec::composite::{add_samples, clamp_sample, sub_samples, Delayed, Flipped};
use crate::audio_vec::owned::ntt::product::{at, conv_at, conv_sum};
use crate::audio_vec::owned::ntt::Ntt;
use crate::audio_vec::owned::pixel::{Pixel, M1M2};
use crate::audio_vec::owned::{sum_sq, Owned};
use crate::audio_vec::{sample_or_zero, AudioVec};
use crate::precalc::{running_sum, Precalculation};
use vstd::arithmetic::div_mod::*;
use vstd::prelude::*;

verus! {

/// A reference voice at a delay, with the loss that this placement leaves.
#[derive(Debug, Clone, Copy, PartialEq, Eq, PartialOrd, Ord, Hash)]
pub struct InspectPoint {
    /// The reference voice.
    pub using_voice: CardVoiceIndex,
    /// How much later than the problem recording the voice starts.
    pub delay: isize,
    /// The loss at this delay; nothing where the voice admits no delay.
    pub score: Option<u64>,
}

/// `s` read backwards.
pub open spec fn reversed(s: Seq<int>) -> Seq<int> {
    Seq::new(s.len(), |j: int| s[s.len() - 1 - j])
}

/// The sum of the squares of `s[0], .., s[k]`: nothing below index zero, all
/// of them from the last index on.
pub open spec fn energy_upto(s: Seq<int>, k: int) -> int {
    if k < 0 {
        0
    } else if k >= s.len() {
        sum_sq(s)
    } else {
        sum_sq(s.subrange(0, k + 1))
    }
}

/// The loss of placing the voice `s` at delay `w` against the problem `x`:
/// the squared norm of `x`, minus twice the correlation of `x` with `s`
/// shifted by `w`, plus the energy of the part of `s` that falls inside the
/// problem's window; reduced modulo `M1 * M2`. This is the squared distance
/// between `x` and the shifted `s` over the window.
pub open spec fn loss_at(x: Seq<int>, s: Seq<int>, w: int) -> int {
    (sum_sq(x) - 2 * conv_at(x, reversed(s), w + s.len() - 1) + energy_upto(s, x.len() - w - 1)
        - energy_upto(s, -w - 1)) % (M1M2 as int)
}

/// `p` is the best placement of the voice `s` against the problem `x`: the
/// least delay in `[-|x|, |s| - |x|)` that attains the least loss. An empty
/// voice admits no delay.
pub open spec fn is_best(x: Seq<int>, s: Seq<int>, p: InspectPoint) -> bool {
    if s.len() == 0 {
        p.score is None && p.delay == 0
    } else {
        &&& -x.len() <= p.delay < s.len() - x.len()
        &&& p.score == Some(loss_at(x, s, p.delay as int) as u64)
        &&& forall|w: int|
            -x.len() <= w < s.len() - x.len() ==> loss_at(x, s, p.delay as int) <= #[trigger] loss_at(
                x,
                s,
                w,
            )
        &&& forall|w: int|
            -x.len() <= w < p.delay ==> loss_at(x, s, p.delay as int) < #[trigger] loss_at(x, s, w)
    }
}

/// The sum, over the first `upto` samples of the problem `x`, of the squared
/// difference between `x` and the voice `s` shifted later by `w`.
pub open spec fn distance(x: Seq<int>, s: Seq<int>, w: int, upto: nat) -> int
    decreases upto,
{
    if upto == 0 {
        0
    } else {
        let t = upto - 1;
        distance(x, s, w, (upto - 1) as nat) + (x[t] - at(s, t - w)) * (x[t] - at(s, t - w))
    }
}

/// The energy up to an index grows by the square of the sample there.
pub proof fn lemma_energy_step(s: Seq<int>, k: int)
    ensures
        energy_upto(s, k) == energy_upto(s, k - 1) + at(s, k) * at(s, k),
{
    if k < 0 {
        assert(at(s, k) == 0);
        assert(0 * 0 == 0int);
    } else if k < s.len() {
        let head = s.subrange(0, k + 1);
        assert(head.len() == k + 1);
        assert(head.drop_last() =~= s.subrange(0, k));
        assert(head.last() == s[k]);
        assert(sum_sq(head) == sum_sq(head.drop_last()) + head.last() * head.last());
        assert(at(s, k) == s[k]);
        if k == 0 {
            assert(s.subrange(0, 0) =~= Seq::<int>::empty());
            assert(sum_sq(s.subrange(0, 0)) == 0);
        }
    } else {
        assert(at(s, k) == 0);
        assert(0 * 0 == 0int);
        if k == s.len() {
            assert(s.subrange(0, k) =~= s);
        }
    }
}

/// The three sums into which the squared distance splits: the energy of
/// the problem, the correlation with the shifted voice, and the energy of
/// the voice inside the window.
proof fn lemma_distance_parts(x: Seq<int>, s: Seq<int>, w: int, upto: nat)
    requires
        upto <= x.len(),
    ensures
        distance(x, s, w, upto) == sum_sq(x.subrange(0, upto as int)) - 2 * conv_sum(
            x,
            reversed(s),
            w + s.len() - 1,
            upto,
        ) + energy_upto(s, upto - w - 1) - energy_upto(s, -w - 1),
    decreases upto,
{
    if upto == 0 {
        assert(x.subrange(0, 0) =~= Seq::<int>::empty());
    } else {
        let t = upto - 1;
        lemma_distance_parts(x, s, w, t as nat);
        let head = x.subrange(0, upto as int);
        assert(head.drop_last() =~= x.subrange(0, t));
        assert(head.last() == x[t]);
        lemma_energy_step(s, t - w);
        let y = at(s, t - w);
        // the term of the correlation
        assert(at(x, upto - 1) == x[t]);
        assert(at(reversed(s), (w + s.len() - 1) - (upto - 1)) == y) by {
            let j = (w + s.len() - 1) - t;
            if 0 <= j < s.len() {
                assert(reversed(s)[j] == s[s.len() - 1 - j]);
            }
        }
        assert((x[t] - y) * (x[t] - y) == x[t] * x[t] - 2 * (x[t] * y) + y * y) by (nonlinear_arith);
    }
}

/// The loss is the squared distance between the problem and the shifted
/// voice, reduced modulo `M1 * M2`.
pub proof fn lemma_loss_is_distance(x: Seq<int>, s: Seq<int>, w: int)
    ensures
        loss_at(x, s, w) == distance(x, s, w, x.len()) % (M1M2 as int),
{
    lemma_distance_parts(x, s, w, x.len());
    assert(x.subrange(0, x.len() as int) =~= x);
}

/// Outside the range of the product's coefficients a convolution sum is
/// zero.
pub proof fn lemma_conv_outside(a: Seq<int>, b: Seq<int>, t: int, upto: nat)
    requires
        upto <= a.len(),
        t < 0 || t >= a.len() + b.len() - 1,
    ensures
        conv_sum(a, b, t, upto) == 0,
    decreases upto,
{
    if upto > 0 {
        lemma_conv_outside(a, b, t, (upto - 1) as nat);
        assert(at(b, t - (upto - 1)) == 0);
        assert(at(a, upto - 1) * 0 == 0);
    }
}

/// The number by which placements are ranked: the loss, or the largest
/// number where there is none.
pub open spec fn sort_key(p: InspectPoint) -> int {
    match p.score {
        Some(s) => s as int,
        None => u64::MAX as int,
    }
}

/// `a` ranks before `b`: by lesser loss, and among equal losses by lesser
/// voice index.
pub open spec fn ranks_before(a: InspectPoint, b: InspectPoint) -> bool {
    sort_key(a) < sort_key(b) || (sort_key(a) == sort_key(b) && a.using_voice@ < b.using_voice@)
}

/// Some placement in `points` is of voice `r`.
pub open spec fn has_voice(points: Seq<InspectPoint>, r: int) -> bool {
    exists|i: int| 0 <= i < points.len() && (#[trigger] points[i]).using_voice@ == r
}

/// `points` is the ranking of the voices against the problem `x`: the best
/// placement of every voice, once each, in rank order.
pub open spec fn is_ranking(x: Seq<int>, voices: Seq<Seq<int>>, points: Seq<InspectPoint>) -> bool {
    &&& points.len() == voices.len()
    &&& forall|i: int|
        0 <= i < points.len() ==> (#[trigger] points[i]).using_voice@ < voices.len() && is_best(
            x,
            voices[points[i].using_voice@],
            points[i],
        )
    &&& forall|r: int| 0 <= r < voices.len() ==> #[trigger] has_voice(points, r)
    &&& forall|i: int, j: int|
        0 <= i < j < points.len() ==> ranks_before(#[trigger] points[i], #[trigger] points[j])
}

/// `points` is the ranking of the first `r` voices against the problem `x`.
pub open spec fn is_partial_ranking(
    x: Seq<int>,
    voices: Seq<Seq<int>>,
    points: Seq<InspectPoint>,
    r: int,
) -> bool {
    &&& points.len() == r
    &&& forall|i: int|
        0 <= i < points.len() ==> (#[trigger] points[i]).using_voice@ < r && is_best(
            x,
            voices[points[i].using_voice@],
            points[i],
        )
    &&& forall|v: int| 0 <= v < r ==> #[trigger] has_voice(points, v)
    &&& forall|i: int, j: int|
        0 <= i < j < points.len() ==> ranks_before(#[trigger] points[i], #[trigger] points[j])
}

/// Putting the best placement of voice `r` behind the placements that do
/// not rank after it, and before the others, extends the ranking.
proof fn lemma_ranked_insert(
    x: Seq<int>,
    voices: Seq<Seq<int>>,
    before: Seq<InspectPoint>,
    p: InspectPoint,
    pos: int,
    r: int,
)
    requires
        is_partial_ranking(x, voices, before, r),
        p.using_voice@ == r,
        is_best(x, voices[r], p),
        0 <= pos <= before.len(),
        forall|i: int| 0 <= i < pos ==> sort_key(#[trigger] before[i]) <= sort_key(p),
        pos < before.len() ==> sort_key(before[pos]) > sort_key(p),
    ensures
        is_partial_ranking(x, voices, before.insert(pos, p), r + 1),
{
    let after = before.insert(pos, p);
    assert forall|i: int| 0 <= i < after.len() implies (#[trigger] after[i]).using_voice@ < r + 1
        && is_best(x, voices[after[i].using_voice@], after[i]) by {
        if i < pos {
            assert(after[i] == before[i]);
        } else if i > pos {
            assert(after[i] == before[i - 1]);
        }
    }
    assert forall|v: int| 0 <= v < r + 1 implies #[trigger] has_voice(after, v) by {
        if v == r {
            assert(after[pos].using_voice@ == v);
        } else {
            assert(has_voice(before, v));
            let i0 = choose|i: int| 0 <= i < before.len() && (#[trigger] before[i]).using_voice@ == v;
            if i0 < pos {
                assert(after[i0] == before[i0]);
                assert(after[i0].using_voice@ == v);
            } else {
                assert(after[i0 + 1] == before[i0]);
                assert(after[i0 + 1].using_voice@ == v);
            }
        }
    }
    assert forall|i: int, j: int| 0 <= i < j < after.len() implies ranks_before(
        #[trigger] after[i],
        #[trigger] after[j],
    ) by {
        if j == pos {
            // the one at i stood before the point of insertion
            assert(after[i] == before[i]);
            assert(sort_key(before[i]) <= sort_key(p));
            assert(before[i].using_voice@ < r);
        } else if i == pos {
            // the one at j stood at or after the point of insertion
            assert(after[j] == before[j - 1]);
            assert(sort_key(before[pos]) > sort_key(p));
            if j - 1 > pos {
                assert(ranks_before(before[pos], before[j - 1]));
            }
        } else {
            let i0 = if i < pos {
                i
            } else {
                i - 1
            };
            let j0 = if j < pos {
                j
            } else {
                j - 1
            };
            assert(after[i] == before[i0] && after[j] == before[j0]);
            assert(ranks_before(before[i0], before[j0]));
        }
    }
}

/// The sample of `s` at index `i`, if it has one.
pub open spec fn seq_sample(s: Seq<int>, i: int) -> Option<int> {
    if 0 <= i < s.len() {
        Some(s[i])
    } else {
        None
    }
}

/// The sample at index `i` of `s` shifted later by `d`.
pub open spec fn shifted_sample(s: Seq<int>, d: int, i: int) -> Option<int> {
    if isize::MIN <= i - d <= isize::MAX {
        seq_sample(s, i - d)
    } else {
        None
    }
}

/// The sum, over the first `len` samples, of the voices of the first `n`
/// placements of `answer`, each shifted by its delay. With no placement it
/// is empty.
pub open spec fn superposed(voices: Seq<Seq<int>>, answer: Seq<InspectPoint>, len: nat, n: nat) -> Seq<int>
    decreases n,
{
    if n == 0 {
        Seq::empty()
    } else {
        let prev = superposed(voices, answer, len, (n - 1) as nat);
        let p = answer[n - 1];
        Seq::new(
            len,
            |i: int|
                sample_or_zero(
                    add_samples(
                        seq_sample(prev, i),
                        shifted_sample(voices[p.using_voice@], p.delay as int, i),
                    ),
                ),
        )
    }
}

/// What is left of the problem `x` when the sum `c`, clamped to the range of
/// a sample, is taken away.
pub open spec fn residual(x: Seq<int>, c: Seq<int>) -> Seq<int> {
    Seq::new(
        x.len(),
        |i: int|
            sample_or_zero(
                sub_samples(
                    seq_sample(x, i),
                    match seq_sample(c, i) {
                        Some(v) => Some(clamp_sample(v)),
                        None => None,
                    },
                ),
            ),
    )
}

/// An answer is accepted when the squared norm of what it leaves is below
/// this much for each sample.
pub const THRESHOLD: u64 = 10;

/// The placements of `answer`, summed and clamped, leave of the problem `x`
/// a squared norm below the threshold for each sample.
pub open spec fn validates(x: Seq<int>, voices: Seq<Seq<int>>, answer: Seq<InspectPoint>) -> bool {
    (sum_sq(residual(x, superposed(voices, answer, x.len(), answer.len()))) % (M1M2 as int))
        / (x.len() as int) < THRESHOLD
}

/// The sum of squares of a sequence of zeros is zero.
proof fn lemma_sum_sq_of_zeros(s: Seq<int>)
    requires
        forall|i: int| 0 <= i < s.len() ==> #[trigger] s[i] == 0,
    ensures
        sum_sq(s) == 0,
    decreases s.len(),
{
    if s.len() > 0 {
        lemma_sum_sq_of_zeros(s.drop_last());
        assert(s.last() == 0);
        assert(0 * 0 == 0int);
    }
}

/// A problem that is, sample by sample, the clamped sum of the placements
/// of an answer validates that answer.
pub proof fn lemma_exact_mixture_validates(x: Seq<int>, voices: Seq<Seq<int>>, answer: Seq<InspectPoint>)
    requires
        x.len() >= 1,
        answer.len() >= 1,
        forall|i: int|
            0 <= i < x.len() ==> #[trigger] x[i] == clamp_sample(
                superposed(voices, answer, x.len(), answer.len())[i],
            ),
    ensures
        validates(x, voices, answer),
{
    let c = superposed(voices, answer, x.len(), answer.len());
    let rest = residual(x, c);
    assert(c.len() == x.len());
    assert forall|i: int| 0 <= i < rest.len() implies #[trigger] rest[i] == 0 by {
        assert(x[i] == clamp_sample(c[i]));
        lemma_small_mod(0, M1M2 as nat);
    }
    lemma_sum_sq_of_zeros(rest);
    lemma_small_mod(0, M1M2 as nat);
    lemma_div_basics_1(x.len() as int);
}

/// The first `k` placements of the ranking.
pub open spec fn base_answer(points: Seq<InspectPoint>, k: int) -> Seq<InspectPoint> {
    points.subrange(0, k)
}

/// The first `k` placements with the one in `slot` replaced by placement
/// `c` of the ranking.
pub open spec fn swapped_answer(points: Seq<InspectPoint>, k: int, c: int, slot: int) -> Seq<
    InspectPoint,
> {
    points.subrange(0, k).update(slot, points[c])
}

/// Why no answer can be given.
#[derive(Debug, Clone, Copy, PartialEq, Eq)]
pub enum SolveError {
    /// Neither the first `k` placements nor any single replacement among
    /// them validates.
    NoAnswer,
}

/// What the search over the ranking `points` yields: the first candidate
/// that validates, trying the first `k` placements, then every replacement
/// of one of them by a later placement, later placements in rank order and
/// slots from the first; or no answer where none validates.
pub open spec fn search_outcome(
    x: Seq<int>,
    voices: Seq<Seq<int>>,
    points: Seq<InspectPoint>,
    k: int,
    result: Result<Vec<InspectPoint>, SolveError>,
) -> bool {
    match result {
        Ok(answer) => {
            &&& validates(x, voices, answer@)
            &&& answer@ == base_answer(points, k) || {
                &&& !validates(x, voices, base_answer(points, k))
                &&& exists|c: int, slot: int|
                    {
                        &&& k <= c < points.len()
                        &&& 0 <= slot < k
                        &&& answer@ == #[trigger] swapped_answer(points, k, c, slot)
                        &&& forall|c2: int, slot2: int|
                            k <= c2 < points.len() && 0 <= slot2 < k && (c2 < c || (c2 == c && slot2
                                < slot)) ==> !validates(
                                x,
                                voices,
                                #[trigger] swapped_answer(points, k, c2, slot2),
                            )
                    }
            }
        },
        Err(_) => {
            &&& !validates(x, voices, base_answer(points, k))
            &&& forall|c: int, slot: int|
                k <= c < points.len() && 0 <= slot < k ==> !validates(
                    x,
                    voices,
                    #[trigger] swapped_answer(points, k, c, slot),
                )
        },
    }
}

/// Where the first `k` placements of the ranking validate, the search
/// yields them.
pub proof fn lemma_search_takes_first(
    x: Seq<int>,
    voices: Seq<Seq<int>>,
    points: Seq<InspectPoint>,
    k: int,
    result: Result<Vec<InspectPoint>, SolveError>,
)
    requires
        search_outcome(x, voices, points, k, result),
        validates(x, voices, base_answer(points, k)),
    ensures
        result matches Ok(answer) && answer@ == base_answer(points, k),
{
}

/// The loss function over a set of reference voices.
#[derive(Debug)]
pub struct Loss {
    /// The reference voices.
    card_voices: Vec<Owned>,
    /// The reference voices read backwards.
    flipped_card_voices: Vec<Owned>,
    /// The running sums of squares of each voice.
    precalc: Precalculation,
    /// The transform tables, one for each prime.
    ntt: (Ntt<924844033>, Ntt<998244353>),
}

impl Loss {
    /// The derived tables agree with the voices.
    #[verifier::type_invariant]
    closed spec fn inv(self) -> bool {
        &&& self.card_voices@.len() <= CARD_COUNT
        &&& self.flipped_card_voices@.len() == self.card_voices@.len()
        &&& self.precalc.sums().len() == self.card_voices@.len()
        &&& forall|r: int|
            0 <= r < self.card_voices@.len() ==> {
                &&& (#[trigger] self.card_voices@[r])@.len() <= isize::MAX / 2
                &&& self.flipped_card_voices@[r]@ == reversed(self.card_voices@[r]@)
                &&& self.precalc.sums()[r].len() == self.card_voices@[r]@.len()
            }
        &&& forall|r: int, k: int|
            0 <= r < self.card_voices@.len() && 0 <= k < self.card_voices@[r]@.len()
                ==> #[trigger] self.precalc.sums()[r][k] == running_sum(self.card_voices@[r]@, k)
    }

    /// The reference voices as sequences of integers modulo `M1 * M2`.
    pub closed spec fn voices(&self) -> Seq<Seq<int>> {
        Seq::new(self.card_voices@.len(), |r: int| self.card_voices@[r]@)
    }

    /// The number of reference voices.
    pub fn voice_count(&self) -> (n: usize)
        ensures
            n == self.voices().len(),
            n <= CARD_COUNT,
    {
        proof {
            use_type_invariant(self);
        }
        self.card_voices.len()
    }

    /// The voice read backwards, stored.
    fn backwards(voice: &Owned) -> (r: Owned)
        requires
            voice@.len() <= isize::MAX / 2,
        ensures
            r@ == reversed(voice@),
    {
        let len = voice.len();
        let shift = len as isize - 1;
        let view = Delayed { vec: Flipped { vec: voice.copy() }, delay: shift };
        let r = view.to_owned(len);
        proof {
            assert(r@ =~= reversed(voice@));
        }
        r
    }

    /// The loss function over the given reference voices, at most 88 of
    /// them: voice `i` is the one that `CardVoiceIndex` `i` names.
    pub fn new(card_voices: Vec<Owned>) -> (loss: Self)
        requires
            card_voices@.len() <= CARD_COUNT,
            forall|r: int|
                0 <= r < card_voices@.len() ==> (#[trigger] card_voices@[r])@.len() <= isize::MAX / 2,
        ensures
            loss.voices() == Seq::new(card_voices@.len(), |r: int| card_voices@[r]@),
    {
        let precalc = Precalculation::new(&card_voices);
        let mut flipped: Vec<Owned> = Vec::new();
        let mut r: usize = 0;
        while r < card_voices.len()
            invariant
                r <= card_voices.len(),
                flipped@.len() == r,
                forall|i: int|
                    0 <= i < card_voices@.len() ==> (#[trigger] card_voices@[i])@.len() <= isize::MAX
                        / 2,
                forall|i: int| 0 <= i < r ==> (#[trigger] flipped@[i])@ == reversed(card_voices@[i]@),
            decreases card_voices.len() - r,
        {
            let back = Self::backwards(&card_voices[r]);
            let ghost before = flipped@;
            flipped.push(back);
            proof {
                assert forall|i: int| 0 <= i < r + 1 implies (#[trigger] flipped@[i])@ == reversed(
                    card_voices@[i]@,
                ) by {
                    if i < r {
                        assert(flipped@[i] == before[i]);
                    }
                }
            }
            r = r + 1;
        }
        let ghost voices = card_voices@;
        Self { card_voices, flipped_card_voices: flipped, precalc, ntt: (Ntt::new(), Ntt::new()) }
    }

    /// The energy of the first `k + 1` samples of voice `using`.
    fn energy(&self, using: CardVoiceIndex, k: isize, total: Pixel) -> (e: Pixel)
        requires
            using@ < self.voices().len(),
            self.voices()[using@].len() >= 1,
            total.wf(),
            total@ == sum_sq(self.voices()[using@]) % (M1M2 as int),
        ensures
            e.wf(),
            e@ == energy_upto(self.voices()[using@], k as int) % (M1M2 as int),
    {
        proof {
            use_type_invariant(self);
            lemma_small_mod(0, M1M2 as nat);
        }
        let len = self.card_voices[using.index() as usize].len();
        if k >= 0 && k as usize >= len {
            total
        } else {
            let e = self.precalc.get(using, k);
            proof {
                let r = using@;
                assert(self.card_voices@[r]@.len() == self.voices()[r].len());
                if 0 <= k {
                    assert(self.precalc.sums()[r][k as int] == running_sum(self.card_voices@[r]@, k as int));
                }
            }
            e
        }
    }

    /// The loss of placing voice `using` at delay `w`.
    fn score_at(
        &self,
        using: CardVoiceIndex,
        w: isize,
        conv: &Vec<u64>,
        norm: Pixel,
        total: Pixel,
        Ghost(x): Ghost<Seq<int>>,
    ) -> (score: u64)
        requires
            using@ < self.voices().len(),
            self.voices()[using@].len() >= 1,
            x.len() <= isize::MAX / 2,
            -x.len() <= w < self.voices()[using@].len() - x.len(),
            conv@.len() == x.len() + self.voices()[using@].len() - 1 || (x.len() == 0 && conv@.len()
                == 0),
            forall|t: int|
                0 <= t < conv@.len() ==> #[trigger] conv@[t] == conv_at(
                    x,
                    reversed(self.voices()[using@]),
                    t,
                ) % (M1M2 as int),
            norm.wf(),
            norm@ == sum_sq(x) % (M1M2 as int),
            total.wf(),
            total@ == sum_sq(self.voices()[using@]) % (M1M2 as int),
        ensures
            score == loss_at(x, self.voices()[using@], w as int),
            score < M1M2,
    {
        proof {
            use_type_invariant(self);
        }
        let ghost s = self.voices()[using@];
        let ghost m = M1M2 as int;
        let len = self.card_voices[using.index() as usize].len();
        let t_len = if conv.len() == 0 {
            0
        } else {
            conv.len() + 1 - len
        };
        proof {
            assert(self.card_voices@[using@]@.len() == s.len());
            assert(t_len == x.len());
        }
        let k = w + (len as isize - 1);
        let c = if k >= 0 && (k as usize) < conv.len() {
            proof {
                lemma_mod_twice(conv_at(x, reversed(s), k as int), m);
            }
            Pixel::from_unsigned(conv[k as usize])
        } else {
            proof {
                lemma_conv_outside(x, reversed(s), k as int, x.len());
                lemma_small_mod(0, m as nat);
            }
            Pixel::zero()
        };
        let hi = self.energy(using, t_len as isize - w - 1, total);
        let lo = self.energy(using, -w - 1, total);
        let twice = c.add(c);
        let d1 = norm.sub(twice);
        let d2 = d1.add(hi);
        let d3 = d2.sub(lo);
        proof {
            let cv = conv_at(x, reversed(s), w + s.len() - 1);
            let eh = energy_upto(s, x.len() - w - 1);
            let el = energy_upto(s, -w - 1);
            lemma_cong_mod(cv, m);
            lemma_cong_add(c@, cv, c@, cv, m);
            lemma_cong_mod(c@ + c@, m);
            lemma_cong_mod(sum_sq(x), m);
            lemma_cong_sub(norm@, sum_sq(x), twice@, cv + cv, m);
            lemma_cong_mod(norm@ - twice@, m);
            lemma_cong_mod(eh, m);
            lemma_cong_add(d1@, sum_sq(x) - (cv + cv), hi@, eh, m);
            lemma_cong_mod(d1@ + hi@, m);
            lemma_cong_mod(el, m);
            lemma_cong_sub(d2@, sum_sq(x) - (cv + cv) + eh, lo@, el, m);
            lemma_cong_mod(d2@ - lo@, m);
            d3.lemma_view();
            lemma_small_mod(d3@ as nat, m as nat);
        }
        d3.as_u64()
    }

    /// The best placement of voice `using_voice` against the problem: the
    /// least delay in `[-T, L - T)` with the least loss, where `T` and `L`
    /// are the lengths of the problem and of the voice.
    pub fn evaluate(&self, problem_voice: &Owned, using_voice: CardVoiceIndex) -> (point: InspectPoint)
        requires
            using_voice@ < self.voices().len(),
            problem_voice@.len() <= isize::MAX / 2,
        ensures
            point.using_voice == using_voice,
            is_best(problem_voice@, self.voices()[using_voice@], point),
    {
        proof {
            use_type_invariant(self);
        }
        let ghost x = problem_voice@;
        let ghost s = self.voices()[using_voice@];
        let r = using_voice.index() as usize;
        let len = self.card_voices[r].len();
        proof {
            assert(self.card_voices@[r as int]@.len() == s.len());
        }
        if len == 0 {
            return InspectPoint { using_voice, delay: 0, score: None };
        }
        let conv = problem_voice.convolution(&self.flipped_card_voices[r], (&self.ntt.0, &self.ntt.1));
        let norm = Pixel::from_unsigned(problem_voice.squared_norm());
        let total = self.precalc.get(using_voice, len as isize - 1);
        proof {
            let m = M1M2 as int;
            lemma_mod_twice(sum_sq(x), m);
            assert(self.precalc.sums()[r as int][len - 1] == running_sum(self.card_voices@[r as int]@, len - 1));
            assert(s.subrange(0, len as int) =~= s);
            assert(self.flipped_card_voices@[r as int]@ == reversed(s));
        }
        let t = problem_voice.len() as isize;
        let end = len as isize - t;
        let mut w = -t;
        let mut best_delay = w;
        let mut best = self.score_at(using_voice, w, &conv, norm, total, Ghost(x));
        w = w + 1;
        while w < end
            invariant
                self.inv(),
                using_voice@ < self.voices().len(),
                s == self.voices()[using_voice@],
                x == problem_voice@,
                s.len() >= 1,
                x.len() <= isize::MAX / 2,
                s.len() <= isize::MAX / 2,
                t == x.len(),
                end == s.len() - x.len(),
                -t < w <= end,
                -t <= best_delay < w,
                conv@.len() == x.len() + s.len() - 1 || (x.len() == 0 && conv@.len() == 0),
                forall|i: int|
                    0 <= i < conv@.len() ==> #[trigger] conv@[i] == conv_at(x, reversed(s), i) % (
                    M1M2 as int),
                norm.wf(),
                norm@ == sum_sq(x) % (M1M2 as int),
                total.wf(),
                total@ == sum_sq(s) % (M1M2 as int),
                best == loss_at(x, s, best_delay as int),
                forall|v: int| -t <= v < w ==> best <= #[trigger] loss_at(x, s, v),
                forall|v: int| -t <= v < best_delay ==> best < #[trigger] loss_at(x, s, v),
            decreases end - w,
        {
            let score = self.score_at(using_voice, w, &conv, norm, total, Ghost(x));
            if score < best {
                best = score;
                best_delay = w;
            }
            w = w + 1;
        }
        InspectPoint { using_voice, delay: best_delay, score: Some(best) }
    }

    /// The number by which a placement is ranked.
    fn key_of(p: &InspectPoint) -> (k: u64)
        ensures
            k == sort_key(*p),
    {
        match p.score {
            Some(s) => s,
            None => u64::MAX,
        }
    }

    /// The best placement of every voice, ranked by loss; among equal
    /// losses by voice index.
    pub fn rank(&self, problem_voice: &Owned) -> (points: Vec<InspectPoint>)
        requires
            problem_voice@.len() <= isize::MAX / 2,
        ensures
            is_ranking(problem_voice@, self.voices(), points@),
    {
        let ghost x = problem_voice@;
        let ghost voices = self.voices();
        let n = self.voice_count();
        let mut points: Vec<InspectPoint> = Vec::new();
        let mut r: u8 = 0;
        while (r as usize) < n
            invariant
                r <= n,
                n == voices.len(),
                n <= CARD_COUNT,
                voices == self.voices(),
                x == problem_voice@,
                x.len() <= isize::MAX / 2,
                is_partial_ranking(x, voices, points@, r as int),
            decreases n - r,
        {
            let p = self.evaluate(problem_voice, CardVoiceIndex::new(r));
            let key = Self::key_of(&p);
            let mut pos: usize = 0;
            while pos < points.len() && Self::key_of(&points[pos]) <= key
                invariant
                    pos <= points.len(),
                    key == sort_key(p),
                    forall|i: int| 0 <= i < pos ==> sort_key(#[trigger] points@[i]) <= key,
                decreases points.len() - pos,
            {
                pos = pos + 1;
            }
            proof {
                lemma_ranked_insert(x, voices, points@, p, pos as int, r as int);
            }
            points.insert(pos, p);
            r = r + 1;
        }
        points
    }

    /// Whether the placements of `answer`, summed and clamped, leave of the
    /// problem a squared norm below the threshold for each sample.
    pub fn validate(&self, problem_voice: &Owned, answer: &Vec<InspectPoint>) -> (accepted: bool)
        requires
            1 <= problem_voice@.len() <= isize::MAX / 2,
            forall|i: int| 0 <= i < answer@.len() ==> (#[trigger] answer@[i]).using_voice@ < self.voices().len(),
        ensures
            accepted == validates(problem_voice@, self.voices(), answer@),
    {
        proof {
            use_type_invariant(self);
        }
        let ghost x = problem_voice@;
        let ghost voices = self.voices();
        let len = problem_voice.len();
        let mut composed = Owned::new();
        let mut n: usize = 0;
        proof {
            assert(composed@ =~= superposed(voices, answer@, len as nat, 0));
        }
        while n < answer.len()
            invariant
                self.inv(),
                voices == self.voices(),
                n <= answer.len(),
                len <= isize::MAX / 2,
                forall|i: int| 0 <= i < answer@.len() ==> (#[trigger] answer@[i]).using_voice@ < voices.len(),
                composed@ == superposed(voices, answer@, len as nat, n as nat),
            decreases answer.len() - n,
        {
            let p = answer[n];
            let voice = self.card_voices[p.using_voice.index() as usize].copy();
            let ghost prev = composed@;
            let ghost vs = voice@;
            let sum = composed.add(Delayed { vec: voice, delay: p.delay });
            composed = sum.to_owned(len);
            proof {
                assert(vs == voices[p.using_voice@]);
                assert(composed@ =~= superposed(voices, answer@, len as nat, (n + 1) as nat));
            }
            n = n + 1;
        }
        let ghost c = composed@;
        let rest = problem_voice.copy().sub(composed.clamp_exact(len)).to_owned(len);
        proof {
            assert(rest@ =~= residual(x, c));
        }
        let norm = rest.squared_norm();
        norm / (len as u64) < THRESHOLD
    }

    /// The first `k` placements of `points`, with the one in `slot`
    /// replaced by placement `c` where `c` is given.
    fn candidate(points: &Vec<InspectPoint>, k: usize, replace: Option<(usize, usize)>) -> (list: Vec<
        InspectPoint,
    >)
        requires
            k <= points@.len(),
            replace matches Some((c, slot)) ==> c < points@.len() && slot < k,
        ensures
            list@ == match replace {
                Some((c, slot)) => swapped_answer(points@, k as int, c as int, slot as int),
                None => base_answer(points@, k as int),
            },
    {
        let mut list: Vec<InspectPoint> = Vec::new();
        let mut i: usize = 0;
        while i < k
            invariant
                i <= k,
                k <= points@.len(),
                list@.len() == i,
                forall|j: int| 0 <= j < i ==> #[trigger] list@[j] == points@[j],
            decreases k - i,
        {
            list.push(points[i]);
            i = i + 1;
        }
        proof {
            assert(list@ =~= base_answer(points@, k as int));
        }
        match replace {
            Some((c, slot)) => {
                list.set(slot, points[c]);
            },
            None => {},
        }
        list
    }

    /// Searches the ranking `points` for an answer of `k` placements: the
    /// first `k`, or failing that the first single replacement that
    /// validates.
    pub fn choose_answer(&self, problem_voice: &Owned, points: &Vec<InspectPoint>, k: usize) -> (result:
        Result<Vec<InspectPoint>, SolveError>)
        requires
            1 <= problem_voice@.len() <= isize::MAX / 2,
            k <= points@.len(),
            forall|i: int| 0 <= i < points@.len() ==> (#[trigger] points@[i]).using_voice@ < self.voices().len(),
        ensures
            search_outcome(problem_voice@, self.voices(), points@, k as int, result),
    {
        let ghost x = problem_voice@;
        let ghost voices = self.voices();
        let first = Self::candidate(points, k, None);
        if self.validate(problem_voice, &first) {
            return Ok(first);
        }
        let mut c: usize = k;
        while c < points.len()
            invariant
                k <= c <= points@.len(),
                x == problem_voice@,
                voices == self.voices(),
                1 <= x.len() <= isize::MAX / 2,
                forall|i: int| 0 <= i < points@.len() ==> (#[trigger] points@[i]).using_voice@ < voices.len(),
                !validates(x, voices, base_answer(points@, k as int)),
                forall|c2: int, slot2: int|
                    k <= c2 < c && 0 <= slot2 < k ==> !validates(
                        x,
                        voices,
                        #[trigger] swapped_answer(points@, k as int, c2, slot2),
                    ),
            decreases points.len() - c,
        {
            let mut slot: usize = 0;
            while slot < k
                invariant
                    k <= c < points@.len(),
                    slot <= k,
                    x == problem_voice@,
                    voices == self.voices(),
                    1 <= x.len() <= isize::MAX / 2,
                    forall|i: int| 0 <= i < points@.len() ==> (#[trigger] points@[i]).using_voice@ < voices.len(),
                    !validates(x, voices, base_answer(points@, k as int)),
                    forall|c2: int, slot2: int|
                        k <= c2 < points@.len() && 0 <= slot2 < k && (c2 < c || (c2 == c && slot2
                            < slot)) ==> !validates(
                            x,
                            voices,
                            #[trigger] swapped_answer(points@, k as int, c2, slot2),
                        ),
                decreases k - slot,
            {
                let next = Self::candidate(points, k, Some((c, slot)));
                if self.validate(problem_voice, &next) {
                    proof {
                        assert(next@ == swapped_answer(points@, k as int, c as int, slot as int));
                    }
                    return Ok(next);
                }
                slot = slot + 1;
            }
            c = c + 1;
        }
        Err(SolveError::NoAnswer)
    }

    /// Finds the `k` voices that make up the problem, with their delays:
    /// ranks the best placement of every voice and searches the ranking for
    /// an answer that validates.
    pub fn find_points(&self, problem_voice: &Owned, k: usize) -> (result: Result<
        Vec<InspectPoint>,
        SolveError,
    >)
        requires
            1 <= problem_voice@.len() <= isize::MAX / 2,
            k <= self.voices().len(),
        ensures
            exists|points: Seq<InspectPoint>| #[trigger]
                is_ranking(problem_voice@, self.voices(), points) && search_outcome(
                    problem_voice@,
                    self.voices(),
                    points,
                    k as int,
                    result,
                ),
    {
        let points = self.rank(problem_voice);
        let result = self.choose_answer(problem_voice, &points, k);
        proof {
            assert(is_ranking(problem_voice@, self.voices(), points@));
        }
        result
    }
}

} // verus!
