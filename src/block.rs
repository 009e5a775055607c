use vstd::prelude::*;

verus! {

/// Which of the two equivalent bootstrap / keyswitch pipelines a block's accounting assumes.
#[derive(Clone, Copy, Debug, PartialEq, Eq, Structural)]
pub enum PBSOrder {
    KeyswitchBootstrap,
    BootstrapKeyswitch,
}

/// One encrypted digit of a radix integer, with the metadata that tracks its headroom.
///
/// `ct` is the LWE container of the block: the mask coefficients followed by the body.
/// Blocks built by this crate are trivial encryptions: the mask is zero and the body
/// holds the block's plaintext.
#[derive(Clone, Debug)]
pub struct Ciphertext {
    pub ct: Vec<u64>,
    pub degree: u64,
    pub noise_level: u64,
    pub message_modulus: u64,
    pub carry_modulus: u64,
    pub pbs_order: PBSOrder,
}

/// Noise level of a trivial (noiseless) encryption.
pub const NOISE_LEVEL_ZERO: u64 = 0;

/// Noise level of a block fresh out of a bootstrap.
pub const NOISE_LEVEL_NOMINAL: u64 = 1;

impl Ciphertext {
    /// The plaintext the block holds: the body, the last coefficient of the container.
    pub open spec fn body(&self) -> int {
        self.ct@.last() as int
    }

    /// The block's metadata and shape agree with the given key parameters, and the
    /// plaintext stays within the bound that `degree` announces.
    pub open spec fn wf_with(
        &self,
        lwe_size: usize,
        message_modulus: u64,
        carry_modulus: u64,
        max_noise_level: u64,
        pbs_order: PBSOrder,
    ) -> bool {
        &&& self.ct@.len() == lwe_size
        &&& lwe_size >= 1
        &&& self.message_modulus == message_modulus
        &&& self.carry_modulus == carry_modulus
        &&& self.pbs_order == pbs_order
        &&& 0 <= self.body() <= self.degree
        &&& self.degree < message_modulus * carry_modulus
        &&& self.noise_level <= max_noise_level
    }

    /// The block is propagated: no carry, and noise at or below one bootstrap's worth.
    pub open spec fn is_clean(&self) -> bool {
        &&& self.degree < self.message_modulus
        &&& self.noise_level <= NOISE_LEVEL_NOMINAL
    }

    /// A copy of the block with the same container and metadata.
    pub fn duplicate(&self) -> (r: Ciphertext)
        ensures
            r.ct@ == self.ct@,
            r.degree == self.degree,
            r.noise_level == self.noise_level,
            r.message_modulus == self.message_modulus,
            r.carry_modulus == self.carry_modulus,
            r.pbs_order == self.pbs_order,
    {
        let mut ct: Vec<u64> = Vec::new();
        let mut i: usize = 0;
        while i < self.ct.len()
            invariant
                i <= self.ct@.len(),
                ct@ == self.ct@.subrange(0, i as int),
            decreases self.ct@.len() - i,
        {
            ct.push(self.ct[i]);
            i = i + 1;
        }
        assert(ct@ == self.ct@);
        Ciphertext {
            ct,
            degree: self.degree,
            noise_level: self.noise_level,
            message_modulus: self.message_modulus,
            carry_modulus: self.carry_modulus,
            pbs_order: self.pbs_order,
        }
    }
}

} // verus!
