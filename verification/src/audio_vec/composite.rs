//! Lazy views: sums, differences, delays, mirror images, and clipped or
//! clamped windows of audio vectors, computed sample by sample on demand.

use super::owned::index_of;
use super::owned::mod_int::{clamp_int, signed_residue};
use super::owned::pixel::{clip_value, Pixel, M1M2};
use super::AudioVec;
use vstd::prelude::*;

verus! {

/// The sum of two vectors.
#[derive(Debug)]
pub struct Add<A, B> {
    pub left: A,
    pub right: B,
}

/// The sum of two samples, a missing one counting as zero; missing where
/// both are.
pub open spec fn add_samples(a: Option<int>, b: Option<int>) -> Option<int> {
    match (a, b) {
        (None, None) => None,
        (Some(x), None) => Some(x),
        (None, Some(y)) => Some(y),
        (Some(x), Some(y)) => Some((x + y) % (M1M2 as int)),
    }
}

/// The difference of two samples, a missing one counting as zero; missing
/// where both are.
pub open spec fn sub_samples(a: Option<int>, b: Option<int>) -> Option<int> {
    match (a, b) {
        (None, None) => None,
        (Some(x), None) => Some(x),
        (None, Some(y)) => Some((0 - y) % (M1M2 as int)),
        (Some(x), Some(y)) => Some((x - y) % (M1M2 as int)),
    }
}

impl<A: AudioVec, B: AudioVec> AudioVec for Add<A, B> {
    open spec fn sample(&self, index: int) -> Option<int> {
        add_samples(self.left.sample(index), self.right.sample(index))
    }

    fn get(&self, index: isize) -> (r: Option<Pixel>) {
        match (self.left.get(index), self.right.get(index)) {
            (None, None) => None,
            (Some(x), None) => Some(x),
            (None, Some(y)) => Some(y),
            (Some(x), Some(y)) => Some(x.add(y)),
        }
    }
}

/// The difference of two vectors.
#[derive(Debug)]
pub struct Sub<A, B> {
    pub left: A,
    pub right: B,
}

impl<A: AudioVec, B: AudioVec> AudioVec for Sub<A, B> {
    open spec fn sample(&self, index: int) -> Option<int> {
        sub_samples(self.left.sample(index), self.right.sample(index))
    }

    fn get(&self, index: isize) -> (r: Option<Pixel>) {
        match (self.left.get(index), self.right.get(index)) {
            (None, None) => None,
            (Some(x), None) => Some(x),
            (None, Some(y)) => Some(Pixel::zero().sub(y)),
            (Some(x), Some(y)) => Some(x.sub(y)),
        }
    }
}

/// A vector shifted later by `delay`: its sample at `index` is the inner
/// vector's at `index - delay`.
#[derive(Debug)]
pub struct Delayed<T> {
    pub vec: T,
    pub delay: isize,
}

impl<T: AudioVec> AudioVec for Delayed<T> {
    open spec fn sample(&self, index: int) -> Option<int> {
        if isize::MIN <= index - self.delay <= isize::MAX {
            self.vec.sample(index - self.delay)
        } else {
            None
        }
    }

    fn get(&self, index: isize) -> (r: Option<Pixel>) {
        match index.checked_sub(self.delay) {
            Some(inner) => self.vec.get(inner),
            None => None,
        }
    }
}

/// A vector mirrored about time zero: its sample at `index` is the inner
/// vector's at `-index`.
#[derive(Debug)]
pub struct Flipped<T> {
    pub vec: T,
}

impl<T: AudioVec> AudioVec for Flipped<T> {
    open spec fn sample(&self, index: int) -> Option<int> {
        if isize::MIN <= -index <= isize::MAX {
            self.vec.sample(-index)
        } else {
            None
        }
    }

    fn get(&self, index: isize) -> (r: Option<Pixel>) {
        let zero: isize = 0;
        match zero.checked_sub(index) {
            Some(inner) => self.vec.get(inner),
            None => None,
        }
    }
}

/// The lowest value of a signed 16-bit sample.
pub const SAMPLE_MIN: i64 = -32768;

/// The highest value of a signed 16-bit sample.
pub const SAMPLE_MAX: i64 = 32767;

/// The first `len` samples of a vector, each clipped: either residue capped
/// at the greatest unsigned 16-bit number. This is the cheap stand-in for
/// `Clamped`.
#[derive(Debug)]
pub struct Clipped<T> {
    pub vec: T,
    pub len: usize,
}

impl<T: AudioVec> AudioVec for Clipped<T> {
    open spec fn sample(&self, index: int) -> Option<int> {
        if 0 <= index < self.len {
            match self.vec.sample(index) {
                Some(x) => Some(clip_value(x)),
                None => None,
            }
        } else {
            None
        }
    }

    fn get(&self, index: isize) -> (r: Option<Pixel>) {
        let inside = match index_of(index) {
            Some(i) => i < self.len,
            None => false,
        };
        if !inside {
            return None;
        }
        match self.vec.get(index) {
            Some(p) => Some(p.clip()),
            None => None,
        }
    }
}

/// The first `len` samples of a vector, each read as a signed number, by
/// reconstruction, and brought into the range of a signed 16-bit sample.
#[derive(Debug)]
pub struct Clamped<T> {
    pub vec: T,
    pub len: usize,
}

/// A sample read as a signed number, brought into the 16-bit range and
/// folded back.
pub open spec fn clamp_sample(x: int) -> int {
    clamp_int(signed_residue(x, M1M2 as int), SAMPLE_MIN as int, SAMPLE_MAX as int) % (M1M2 as int)
}

impl<T: AudioVec> AudioVec for Clamped<T> {
    open spec fn sample(&self, index: int) -> Option<int> {
        if 0 <= index < self.len {
            match self.vec.sample(index) {
                Some(x) => Some(clamp_sample(x)),
                None => None,
            }
        } else {
            None
        }
    }

    fn get(&self, index: isize) -> (r: Option<Pixel>) {
        let inside = match index_of(index) {
            Some(i) => i < self.len,
            None => false,
        };
        if !inside {
            return None;
        }
        match self.vec.get(index) {
            Some(p) => Some(p.clamp_exact(SAMPLE_MIN, SAMPLE_MAX)),
            None => None,
        }
    }
}

/// Mirroring twice gives the vector back, at every index whose negative is
/// an index too.
pub proof fn lemma_flip_flip<T: AudioVec>(v: T, index: int)
    requires
        isize::MIN < index <= isize::MAX,
    ensures
        (Flipped { vec: Flipped { vec: v } }).sample(index) == v.sample(index),
{
}

/// Delaying by `a` and then by `b` is delaying by `a + b`, at every index
/// that stays an index when moved back by `b`.
pub proof fn lemma_delay_delay<T: AudioVec>(v: T, a: isize, b: isize, index: int)
    requires
        isize::MIN <= a + b <= isize::MAX,
        isize::MIN <= index - b <= isize::MAX,
    ensures
        (Delayed { vec: Delayed { vec: v, delay: a }, delay: b }).sample(index) == (Delayed {
            vec: v,
            delay: (a + b) as isize,
        }).sample(index),
{
}

} // verus!
