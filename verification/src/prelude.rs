//! Measure once, allocate once, encode once: turning a value into an
//! exactly-sized byte vector.
use vstd::prelude::*;

use crate::Encode;
use crate::EncodeError;
use crate::Encoder;
use crate::Measure;
use crate::Measurer;

verus! {

/// Encoding a self-encoding value into a freshly allocated vector holding
/// exactly its wire bytes.
pub trait EncodeToVec: Measure {
    fn encode_to_vec(&self) -> (r: Result<Vec<u8>, EncodeError>)
        ensures
            match Self::encoded_of(self.deep_view()) {
                Some(s) => r matches Ok(v) && v@ == s,
                None => r matches Err(e) && Self::enc_fail_of(self.deep_view(), e),
            },
    ;
}

impl<T: Encode> EncodeToVec for T {
    fn encode_to_vec(&self) -> (r: Result<Vec<u8>, EncodeError>) {
        let size = self.measure()?;
        let mut out: Vec<u8> = vec![0u8; size];
        let mut offset: usize = 0;
        match self.encode(&mut out, &mut offset) {
            Ok(()) => {
                proof {
                    let s = Self::encoded_of(self.deep_view()).unwrap();
                    assert(out@ =~= s);
                }
                Ok(out)
            },
            Err(e) => Err(e),
        }
    }
}

/// Encoding a value through a codec into a freshly allocated vector
/// holding exactly its wire bytes.
pub trait EncoderToVec: Measurer {
    fn encode_to_vec(&self, decoded: &Self::Decoded) -> (r: Result<Vec<u8>, EncodeError>)
        ensures
            match self.spec_enc(decoded.deep_view()) {
                Some(s) => r matches Ok(v) && v@ == s,
                None => r matches Err(e) && self.spec_enc_fail(decoded.deep_view(), e),
            },
    ;
}

impl<C: Encoder> EncoderToVec for C {
    fn encode_to_vec(&self, decoded: &C::Decoded) -> (r: Result<Vec<u8>, EncodeError>) {
        let size = self.measure(decoded)?;
        let mut out: Vec<u8> = vec![0u8; size];
        let mut offset: usize = 0;
        match self.encode(decoded, &mut out, &mut offset) {
            Ok(()) => {
                proof {
                    let s = self.spec_enc(decoded.deep_view()).unwrap();
                    assert(out@ =~= s);
                }
                Ok(out)
            },
            Err(e) => Err(e),
        }
    }
}

} // verus!
