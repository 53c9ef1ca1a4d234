//! The abstract hash interface.
//!
//! The node consumes cryptographic hash functions that follow the sponge
//! construction and absorb and return trit strings.  The primitives
//! themselves live outside the library; implementors supply `absorb`,
//! `reset` and `squeeze_into`, and get `squeeze` and `digest` for free.
//! Nothing is assumed about the digests: the pipeline treats them as
//! opaque values, so no contract is placed on implementors.

use vstd::prelude::*;

verus! {

/// The common interface of sponge hash functions over trit strings.
pub trait Sponge: Sized {
    /// The length of the hash squeezed from the sponge, in trits.
    fn out_len(&self) -> (r: usize)
        ensures
            r >= 1,
    ;

    /// Absorbs `input` into the sponge state.
    fn absorb(&mut self, input: &Vec<i8>) -> Result<(), ()>;

    /// Resets the inner state.
    fn reset(&mut self);

    /// Squeezes the sponge into `buf`.
    fn squeeze_into(&mut self, buf: &mut Vec<i8>) -> Result<(), ()>;

    /// Squeezes the sponge into a fresh buffer of `out_len` trits.
    fn squeeze(&mut self) -> Result<Vec<i8>, ()> {
        let n = self.out_len();
        let mut output: Vec<i8> = Vec::new();
        let mut i: usize = 0;
        while i < n
            invariant
                i <= n,
            decreases n - i,
        {
            output.push(0i8);
            i += 1;
        }
        match self.squeeze_into(&mut output) {
            Ok(_) => Ok(output),
            Err(e) => Err(e),
        }
    }

    /// Absorbs `input`, squeezes one hash, and resets, in one go.
    fn digest(&mut self, input: &Vec<i8>) -> Result<Vec<i8>, ()> {
        match self.absorb(input) {
            Ok(_) => {},
            Err(e) => {
                return Err(e);
            },
        }
        let output = match self.squeeze() {
            Ok(o) => o,
            Err(e) => {
                return Err(e);
            },
        };
        self.reset();
        Ok(output)
    }

    /// Absorbs `input`, squeezes into `buf`, and resets, in one go.
    fn digest_into(&mut self, input: &Vec<i8>, buf: &mut Vec<i8>) -> Result<(), ()> {
        match self.absorb(input) {
            Ok(_) => {},
            Err(e) => {
                return Err(e);
            },
        }
        match self.squeeze_into(buf) {
            Ok(_) => {},
            Err(e) => {
                return Err(e);
            },
        }
        self.reset();
        Ok(())
    }
}

} // verus!
