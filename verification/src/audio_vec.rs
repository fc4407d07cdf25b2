//! Audio vectors: sequences of samples indexed by signed time, owned or
//! seen through lazy views.

pub mod composite;
pub mod owned;

use self::composite::{Add, Clamped, Clipped, Delayed, Flipped, Sub};
use self::owned::pixel::Pixel;
use self::owned::{offset_of, Owned};
use vstd::prelude::*;

verus! {

/// The sample that stands where a vector has none.
pub open spec fn sample_or_zero(s: Option<int>) -> int {
    match s {
        Some(x) => x,
        None => 0,
    }
}

/// A sequence of samples indexed by signed time.
pub trait AudioVec: Sized {
    /// The sample at `index` as an integer modulo `M1 * M2`; nothing outside
    /// the vector's domain.
    spec fn sample(&self, index: int) -> Option<int>;

    /// The sample at `index`, if the vector has one there.
    fn get(&self, index: isize) -> (r: Option<Pixel>)
        ensures
            r matches Some(p) ==> self.sample(index as int) == Some(p@) && p.wf(),
            r is None ==> self.sample(index as int) is None,
    ;

    /// The sum of this vector and `other`, sample by sample.
    fn add<B>(self, other: B) -> (r: Add<Self, B>)
        ensures
            r.left == self,
            r.right == other,
    {
        Add { left: self, right: other }
    }

    /// The difference of this vector and `other`, sample by sample.
    fn sub<B>(self, other: B) -> (r: Sub<Self, B>)
        ensures
            r.left == self,
            r.right == other,
    {
        Sub { left: self, right: other }
    }

    /// This vector shifted later by `delay`.
    fn delay(self, delay: isize) -> (r: Delayed<Self>)
        ensures
            r.vec == self,
            r.delay == delay,
    {
        Delayed { vec: self, delay }
    }

    /// This vector mirrored about time zero.
    fn flip(self) -> (r: Flipped<Self>)
        ensures
            r.vec == self,
    {
        Flipped { vec: self }
    }

    /// The first `len` samples of this vector, each clipped: either residue
    /// capped at the greatest unsigned 16-bit number.
    fn clip(self, len: usize) -> (r: Clipped<Self>)
        ensures
            r.vec == self,
            r.len == len,
    {
        Clipped { vec: self, len }
    }

    /// The first `len` samples of this vector, each read as a signed number
    /// and brought into the range of a signed 16-bit sample.
    fn clamp_exact(self, len: usize) -> (r: Clamped<Self>)
        ensures
            r.vec == self,
            r.len == len,
    {
        Clamped { vec: self, len }
    }

    /// The samples at the indices `0 .. len`, stored; zero where the vector
    /// has none.
    fn to_owned(&self, len: usize) -> (r: Owned)
        requires
            len <= isize::MAX,
        ensures
            r@ == Seq::new(len as nat, |i: int| sample_or_zero(self.sample(i))),
    {
        let mut pixels: Vec<Pixel> = Vec::new();
        let mut i: usize = 0;
        while i < len
            invariant
                i <= len,
                len <= isize::MAX,
                pixels.len() == i,
                forall|k: int|
                    0 <= k < i ==> (#[trigger] pixels@[k])@ == sample_or_zero(self.sample(k)),
            decreases len - i,
        {
            let index = match offset_of(i) {
                Some(index) => index,
                None => 0,
            };
            let pixel = match self.get(index) {
                Some(p) => p,
                None => Pixel::zero(),
            };
            pixels.push(pixel);
            i = i + 1;
        }
        let r = Owned::from_pixels(pixels);
        proof {
            assert(r@ =~= Seq::new(len as nat, |i: int| sample_or_zero(self.sample(i))));
        }
        r
    }
}

} // verus!
