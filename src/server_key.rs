use vstd::prelude::*;
use vstd::arithmetic::div_mod::*;
use vstd::arithmetic::mul::*;

use crate::block::{Ciphertext, PBSOrder, NOISE_LEVEL_NOMINAL, NOISE_LEVEL_ZERO};
use crate::radix::{
    base_pow, digits_below, digits_value, lemma_base_pow_pos, lemma_digits_add,
    lemma_digits_bound, lemma_digits_push, lemma_digits_update, RadixCiphertext,
};

verus! {

/// The evaluation key: the parameters every block it operates on shares.
///
/// The key material of the underlying scheme is not held here: blocks are trivial
/// encryptions, on which the bootstrap that extracts a message or a carry evaluates
/// its function on the plaintext.
#[derive(Clone, Copy, Debug)]
pub struct ServerKey {
    pub lwe_size: usize,
    pub message_modulus: u64,
    pub carry_modulus: u64,
    pub max_noise_level: u64,
    pub pbs_order: PBSOrder,
}

impl ServerKey {
    /// Parameters this key can work with: a block holds at least one spare carry bit, two
    /// nominal blocks may be added, and a block's plaintext space fits in 32 bits.
    pub open spec fn wf(&self) -> bool {
        &&& self.lwe_size >= 1
        &&& self.message_modulus >= 2
        &&& self.carry_modulus >= 2
        &&& self.message_modulus * self.carry_modulus <= 0x1_0000_0000
        &&& self.max_noise_level >= 2 * NOISE_LEVEL_NOMINAL
    }

    /// The largest plaintext a block can hold: message and carry space together.
    pub open spec fn max_degree(&self) -> int {
        self.message_modulus * self.carry_modulus - 1
    }

    pub open spec fn block_wf(&self, b: Ciphertext) -> bool {
        b.wf_with(
            self.lwe_size,
            self.message_modulus,
            self.carry_modulus,
            self.max_noise_level,
            self.pbs_order,
        )
    }

    /// A radix ciphertext of at least one block, every block of it shaped for this key.
    pub open spec fn radix_wf(&self, c: RadixCiphertext) -> bool {
        &&& c.blocks@.len() >= 1
        &&& forall|i: int| 0 <= i < c.blocks@.len() ==> self.block_wf(#[trigger] c.blocks@[i])
    }

    /// Adding `a` and `b` block by block overflows no block and exhausts no noise budget.
    pub open spec fn add_possible(&self, a: RadixCiphertext, b: RadixCiphertext) -> bool {
        forall|i: int|
            0 <= i < a.blocks@.len() ==> {
                let x = #[trigger] a.blocks@[i];
                let y = b.blocks@[i];
                &&& x.degree + y.degree <= self.max_degree()
                &&& x.noise_level + y.noise_level <= self.max_noise_level
            }
    }

    /// A block as the bootstrap that extracts a message leaves it: a zero mask, degree
    /// `message_modulus - 1` and nominal noise.
    pub open spec fn fresh_message_block(&self, b: Ciphertext) -> bool {
        &&& b.degree == self.message_modulus - 1
        &&& b.noise_level == NOISE_LEVEL_NOMINAL
        &&& forall|k: int| 0 <= k < b.ct@.len() - 1 ==> #[trigger] b.ct@[k] == 0
    }

    /// `new` is `old` after a full carry propagation: same length, same decrypted value,
    /// every block clean and fresh out of a message extraction.
    pub open spec fn propagated(&self, old: RadixCiphertext, new: RadixCiphertext) -> bool {
        &&& self.radix_wf(new)
        &&& new.blocks@.len() == old.blocks@.len()
        &&& new.decrypted() == old.decrypted()
        &&& new.is_clean()
        &&& forall|i: int|
            0 <= i < new.blocks@.len() ==> self.fresh_message_block(#[trigger] new.blocks@[i])
    }

    pub fn new(
        lwe_size: usize,
        message_modulus: u64,
        carry_modulus: u64,
        max_noise_level: u64,
        pbs_order: PBSOrder,
    ) -> (r: ServerKey)
        requires
            lwe_size >= 1,
            message_modulus >= 2,
            carry_modulus >= 2,
            message_modulus * carry_modulus <= 0x1_0000_0000,
            max_noise_level >= 2 * NOISE_LEVEL_NOMINAL,
        ensures
            r.wf(),
            r.lwe_size == lwe_size,
            r.message_modulus == message_modulus,
            r.carry_modulus == carry_modulus,
            r.max_noise_level == max_noise_level,
            r.pbs_order == pbs_order,
    {
        ServerKey { lwe_size, message_modulus, carry_modulus, max_noise_level, pbs_order }
    }

    /// A block whose mask is zero and whose body is `value`.
    fn trivial_block(&self, value: u64, degree: u64, noise_level: u64) -> (r: Ciphertext)
        requires
            self.wf(),
            value <= degree,
            degree <= self.max_degree(),
            noise_level <= self.max_noise_level,
        ensures
            self.block_wf(r),
            r.body() == value,
            r.degree == degree,
            r.noise_level == noise_level,
            forall|k: int| 0 <= k < r.ct@.len() - 1 ==> #[trigger] r.ct@[k] == 0,
    {
        let mut ct: Vec<u64> = Vec::new();
        let mut i: usize = 1;
        while i < self.lwe_size
            invariant
                1 <= i <= self.lwe_size,
                ct@.len() == i - 1,
                forall|k: int| 0 <= k < ct@.len() ==> #[trigger] ct@[k] == 0,
            decreases self.lwe_size - i,
        {
            ct.push(0);
            i = i + 1;
        }
        ct.push(value);
        Ciphertext {
            ct,
            degree,
            noise_level,
            message_modulus: self.message_modulus,
            carry_modulus: self.carry_modulus,
            pbs_order: self.pbs_order,
        }
    }

    /// Encrypts `value` trivially over `num_blocks` blocks, one digit in base
    /// `message_modulus` per block, least significant first.
    pub fn create_trivial_radix(&self, value: u64, num_blocks: usize) -> (r: RadixCiphertext)
        requires
            self.wf(),
            num_blocks >= 1,
        ensures
            self.radix_wf(r),
            r.blocks@.len() == num_blocks,
            r.base() == self.message_modulus,
            r.is_clean(),
            r.decrypted() == value as int % base_pow(self.message_modulus as int, num_blocks as nat),
    {
        let m = self.message_modulus;
        let ghost base = m as int;
        let mut blocks: Vec<Ciphertext> = Vec::new();
        let mut rem: u64 = value;
        let mut i: usize = 0;
        while i < num_blocks
            invariant
                self.wf(),
                m == self.message_modulus,
                base == m as int,
                i <= num_blocks,
                blocks@.len() == i,
                forall|j: int| 0 <= j < i ==> self.block_wf(#[trigger] blocks@[j]),
                forall|j: int| 0 <= j < i ==> (#[trigger] blocks@[j]).is_clean(),
                digits_value((RadixCiphertext { blocks }).bodies(), base) + rem * base_pow(
                    base,
                    i as nat,
                ) == value,
            decreases num_blocks - i,
        {
            let digit = rem % m;
            let ghost old_rem = rem;
            let ghost old_bodies = (RadixCiphertext { blocks }).bodies();
            proof {
                assert(self.max_degree() >= m as int) by (nonlinear_arith)
                    requires
                        self.max_degree() == m * self.carry_modulus - 1,
                        self.carry_modulus >= 2,
                        m >= 2,
                ;
            }
            let blk = self.trivial_block(digit, digit, NOISE_LEVEL_ZERO);
            blocks.push(blk);
            rem = rem / m;
            proof {
                let nb = (RadixCiphertext { blocks }).bodies();
                assert(nb =~= old_bodies.push(digit as int));
                lemma_digits_push(old_bodies, digit as int, base);
                let w = base_pow(base, i as nat);
                lemma_fundamental_div_mod(old_rem as int, base);
                assert(base_pow(base, (i + 1) as nat) == base * w);
                assert(digit * w + rem * (base * w) == old_rem * w) by (nonlinear_arith)
                    requires
                        old_rem == base * rem + digit,
                ;
            }
            i = i + 1;
        }
        let r = RadixCiphertext { blocks };
        proof {
            let ds = r.bodies();
            let mm = base_pow(base, num_blocks as nat);
            assert(digits_below(ds, base)) by {
                assert forall|j: int| 0 <= j < ds.len() implies 0 <= #[trigger] ds[j] < base by {
                    assert(r.blocks@[j].is_clean());
                }
            }
            lemma_digits_bound(ds, base);
            lemma_base_pow_pos(base, num_blocks as nat);
            lemma_mod_multiples_vanish(rem as int, digits_value(ds, base), mm);
            lemma_small_mod(digits_value(ds, base) as nat, mm as nat);
            lemma_mul_is_commutative(rem as int, mm);
        }
        r
    }

    /// Whether `a` and `b` may be added block by block with no renormalization: every
    /// aligned pair of degrees stays within the block's plaintext space, and every aligned
    /// pair of noise levels within the noise budget.
    pub fn is_add_possible(&self, a: &RadixCiphertext, b: &RadixCiphertext) -> (r: bool)
        requires
            self.wf(),
            self.radix_wf(*a),
            self.radix_wf(*b),
            a.blocks@.len() == b.blocks@.len(),
        ensures
            r == self.add_possible(*a, *b),
    {
        assert(4 <= self.message_modulus * self.carry_modulus) by (nonlinear_arith)
            requires
                self.message_modulus >= 2,
                self.carry_modulus >= 2,
        ;
        let max_degree = self.message_modulus * self.carry_modulus - 1;
        let mut i: usize = 0;
        while i < a.blocks.len()
            invariant
                self.wf(),
                self.radix_wf(*a),
                self.radix_wf(*b),
                a.blocks@.len() == b.blocks@.len(),
                max_degree == self.max_degree(),
                i <= a.blocks@.len(),
                forall|j: int|
                    0 <= j < i ==> {
                        let x = #[trigger] a.blocks@[j];
                        let y = b.blocks@[j];
                        &&& x.degree + y.degree <= self.max_degree()
                        &&& x.noise_level + y.noise_level <= self.max_noise_level
                    },
            decreases a.blocks@.len() - i,
        {
            let x = &a.blocks[i];
            let y = &b.blocks[i];
            assert(self.block_wf(a.blocks@[i as int]));
            assert(self.block_wf(b.blocks@[i as int]));
            if x.degree + y.degree > max_degree {
                return false;
            }
            if x.noise_level > self.max_noise_level - y.noise_level {
                return false;
            }
            i = i + 1;
        }
        true
    }

    /// Adds two blocks coefficient by coefficient.
    fn unchecked_add_block(&self, x: &Ciphertext, y: &Ciphertext) -> (r: Ciphertext)
        requires
            self.wf(),
            self.block_wf(*x),
            self.block_wf(*y),
            x.degree + y.degree <= self.max_degree(),
            x.noise_level + y.noise_level <= self.max_noise_level,
        ensures
            self.block_wf(r),
            r.body() == x.body() + y.body(),
            r.degree == x.degree + y.degree,
            r.noise_level == x.noise_level + y.noise_level,
    {
        let mut ct: Vec<u64> = Vec::new();
        let n = x.ct.len();
        let mut i: usize = 0;
        while i < n
            invariant
                n == x.ct@.len(),
                n == y.ct@.len(),
                i <= n,
                ct@.len() == i,
                forall|j: int| 0 <= j < i ==> #[trigger] ct@[j] == x.ct@[j].wrapping_add(y.ct@[j]),
            decreases n - i,
        {
            ct.push(x.ct[i].wrapping_add(y.ct[i]));
            i = i + 1;
        }
        Ciphertext {
            ct,
            degree: x.degree + y.degree,
            noise_level: x.noise_level + y.noise_level,
            message_modulus: x.message_modulus,
            carry_modulus: x.carry_modulus,
            pbs_order: x.pbs_order,
        }
    }

    /// Adds `a` and `b` block by block without any headroom check; the caller has
    /// established that the addition is possible.
    pub fn unchecked_add(&self, a: &RadixCiphertext, b: &RadixCiphertext) -> (r: RadixCiphertext)
        requires
            self.wf(),
            self.radix_wf(*a),
            self.radix_wf(*b),
            a.blocks@.len() == b.blocks@.len(),
            self.add_possible(*a, *b),
        ensures
            self.radix_wf(r),
            r.blocks@.len() == a.blocks@.len(),
            r.decrypted() == (a.decrypted() + b.decrypted()) % a.modulus(),
            forall|i: int|
                0 <= i < r.blocks@.len() ==> {
                    &&& (#[trigger] r.blocks@[i]).degree == a.blocks@[i].degree
                        + b.blocks@[i].degree
                    &&& r.blocks@[i].noise_level == a.blocks@[i].noise_level
                        + b.blocks@[i].noise_level
                },
    {
        let mut blocks: Vec<Ciphertext> = Vec::new();
        let n = a.blocks.len();
        let mut i: usize = 0;
        while i < n
            invariant
                self.wf(),
                self.radix_wf(*a),
                self.radix_wf(*b),
                n == a.blocks@.len(),
                n == b.blocks@.len(),
                self.add_possible(*a, *b),
                i <= n,
                blocks@.len() == i,
                forall|j: int|
                    0 <= j < i ==> {
                        &&& self.block_wf(#[trigger] blocks@[j])
                        &&& blocks@[j].body() == a.blocks@[j].body() + b.blocks@[j].body()
                        &&& blocks@[j].degree == a.blocks@[j].degree + b.blocks@[j].degree
                        &&& blocks@[j].noise_level == a.blocks@[j].noise_level
                            + b.blocks@[j].noise_level
                    },
            decreases n - i,
        {
            assert(self.block_wf(a.blocks@[i as int]));
            assert(self.block_wf(b.blocks@[i as int]));
            let blk = self.unchecked_add_block(&a.blocks[i], &b.blocks[i]);
            blocks.push(blk);
            i = i + 1;
        }
        let r = RadixCiphertext { blocks };
        proof {
            let base = a.base();
            assert(self.block_wf(a.blocks@[0]));
            assert(self.block_wf(b.blocks@[0]));
            assert(self.block_wf(r.blocks@[0]));
            assert(r.base() == base && b.base() == base);
            lemma_digits_add(a.bodies(), b.bodies(), r.bodies(), base);
            lemma_base_pow_pos(base, n as nat);
            lemma_add_mod_noop(
                digits_value(a.bodies(), base),
                digits_value(b.bodies(), base),
                a.modulus(),
            );
        }
        r
    }

    /// Adds `b` into `a` block by block without any headroom check; the caller has
    /// established that the addition is possible.
    pub fn unchecked_add_assign(&self, a: &mut RadixCiphertext, b: &RadixCiphertext)
        requires
            self.wf(),
            self.radix_wf(*old(a)),
            self.radix_wf(*b),
            old(a).blocks@.len() == b.blocks@.len(),
            self.add_possible(*old(a), *b),
        ensures
            self.radix_wf(*final(a)),
            final(a).blocks@.len() == old(a).blocks@.len(),
            final(a).decrypted() == (old(a).decrypted() + b.decrypted()) % old(a).modulus(),
            forall|i: int|
                0 <= i < final(a).blocks@.len() ==> {
                    &&& (#[trigger] final(a).blocks@[i]).degree == old(a).blocks@[i].degree
                        + b.blocks@[i].degree
                    &&& final(a).blocks@[i].noise_level == old(a).blocks@[i].noise_level
                        + b.blocks@[i].noise_level
                },
    {
        let r = self.unchecked_add(a, b);
        *a = r;
    }

    /// Pushes the carries of `c` through its blocks, least significant first, leaving every
    /// block with a message-sized plaintext and nominal noise; the carry out of the last
    /// block is dropped, as the value is taken modulo the radix modulus.
    pub fn full_propagate_parallelized(&self, c: &mut RadixCiphertext)
        requires
            self.wf(),
            self.radix_wf(*old(c)),
        ensures
            self.propagated(*old(c), *final(c)),
    {
        let m = self.message_modulus;
        let ghost base = m as int;
        let ghost orig = c.bodies();
        let ghost big = self.message_modulus * self.carry_modulus;
        let n = c.blocks.len();
        let mut carry: u64 = 0;
        let mut i: usize = 0;
        proof {
            assert(self.block_wf(c.blocks@[0]));
            assert(self.max_degree() >= m as int) by (nonlinear_arith)
                requires
                    self.max_degree() == m * self.carry_modulus - 1,
                    self.carry_modulus >= 2,
                    m >= 2,
            ;
            assert(2 * big <= u64::MAX);
        }
        while i < n
            invariant
                self.wf(),
                m == self.message_modulus,
                base == m as int,
                big == self.message_modulus * self.carry_modulus,
                self.max_degree() >= m as int,
                n == c.blocks@.len(),
                n == orig.len(),
                self.radix_wf(*c),
                c.base() == base,
                i <= n,
                0 <= carry < big,
                forall|j: int| 0 <= j < i ==> (#[trigger] c.blocks@[j]).is_clean(),
                forall|j: int| 0 <= j < i ==> self.fresh_message_block(#[trigger] c.blocks@[j]),
                forall|j: int| i <= j < n ==> #[trigger] c.bodies()[j] == orig[j],
                digits_value(c.bodies(), base) + carry * base_pow(base, i as nat) == digits_value(
                    orig,
                    base,
                ),
            decreases n - i,
        {
            let ghost cur = c.bodies();
            assert(self.block_wf(c.blocks@[i as int]));
            let len = c.blocks[i].ct.len();
            let body = c.blocks[i].ct[len - 1];
            assert(cur[i as int] == body as int);
            let v = body + carry;
            let digit = v % m;
            let out = v / m;
            proof {
                lemma_fundamental_div_mod(v as int, base);
                lemma_mod_bound(v as int, base);
                assert(v < 2 * big);
                assert(2 * big == base * (2 * self.carry_modulus)) by (nonlinear_arith)
                    requires
                        big == m * self.carry_modulus,
                        base == m,
                ;
                lemma_multiply_divide_lt(v as int, base, 2 * self.carry_modulus);
                assert(2 * self.carry_modulus <= big) by (nonlinear_arith)
                    requires
                        big == m * self.carry_modulus,
                        m >= 2,
                ;
            }
            let nb = self.trivial_block(digit, m - 1, NOISE_LEVEL_NOMINAL);
            c.blocks[i] = nb;
            proof {
                let upd = c.bodies();
                assert(upd =~= cur.update(i as int, digit as int));
                lemma_digits_update(cur, i as int, digit as int, base);
                let w = base_pow(base, i as nat);
                assert(base_pow(base, (i + 1) as nat) == base * w);
                assert((digit - body) * w + out * (base * w) == carry * w) by (nonlinear_arith)
                    requires
                        v == body + carry,
                        v == base * out + digit,
                ;
                assert(self.block_wf(c.blocks@[0]));
            }
            carry = out;
            i = i + 1;
        }
        proof {
            let ds = c.bodies();
            let mm = base_pow(base, n as nat);
            assert(digits_below(ds, base)) by {
                assert forall|j: int| 0 <= j < ds.len() implies 0 <= #[trigger] ds[j] < base by {
                    assert(c.blocks@[j].is_clean());
                    assert(self.block_wf(c.blocks@[j]));
                }
            }
            lemma_digits_bound(ds, base);
            lemma_base_pow_pos(base, n as nat);
            lemma_mul_is_commutative(carry as int, mm);
            lemma_mod_multiples_vanish(carry as int, digits_value(ds, base), mm);
            assert(old(c).base() == base) by {
                assert(self.block_wf(old(c).blocks@[0]));
            }
        }
    }

    /// Propagates the carries of `a` and of `b` concurrently.
    ///
    /// Relies on rayon::join: both closures run to completion before it returns.
    #[verifier::external_body]
    fn full_propagate_both(&self, a: &mut RadixCiphertext, b: &mut RadixCiphertext)
        requires
            self.wf(),
            self.radix_wf(*old(a)),
            self.radix_wf(*old(b)),
        ensures
            self.propagated(*old(a), *final(a)),
            self.propagated(*old(b), *final(b)),
    {
        rayon::join(|| self.full_propagate_parallelized(a), || self.full_propagate_parallelized(b));
    }

    /// Two clean operands of this key can always be added.
    proof fn lemma_clean_add_possible(&self, a: RadixCiphertext, b: RadixCiphertext)
        requires
            self.wf(),
            self.radix_wf(a),
            self.radix_wf(b),
            a.blocks@.len() == b.blocks@.len(),
            a.is_clean(),
            b.is_clean(),
        ensures
            self.add_possible(a, b),
    {
        assert forall|i: int| 0 <= i < a.blocks@.len() implies {
            let x = #[trigger] a.blocks@[i];
            let y = b.blocks@[i];
            &&& x.degree + y.degree <= self.max_degree()
            &&& x.noise_level + y.noise_level <= self.max_noise_level
        } by {
            let x = a.blocks@[i];
            let y = b.blocks@[i];
            assert(self.block_wf(x) && x.is_clean());
            assert(self.block_wf(y) && y.is_clean());
            let m = self.message_modulus as int;
            let k = self.carry_modulus as int;
            assert(2 * m - 2 <= m * k - 1) by (nonlinear_arith)
                requires
                    k >= 2,
                    m >= 2,
            ;
        }
    }

    /// Adds `a` and `b`, first propagating the carries of both, concurrently, when their
    /// headroom does not allow the addition. The operands keep their decrypted values; when
    /// they were propagated they end clean, and otherwise they are left untouched. The sum's
    /// blocks carry the degrees and noise levels of the operands it was taken from, added.
    pub fn smart_add_parallelized(
        &self,
        ct_left: &mut RadixCiphertext,
        ct_right: &mut RadixCiphertext,
    ) -> (r: RadixCiphertext)
        requires
            self.wf(),
            self.radix_wf(*old(ct_left)),
            self.radix_wf(*old(ct_right)),
            old(ct_left).blocks@.len() == old(ct_right).blocks@.len(),
        ensures
            self.radix_wf(r),
            self.radix_wf(*final(ct_left)),
            self.radix_wf(*final(ct_right)),
            r.blocks@.len() == old(ct_left).blocks@.len(),
            final(ct_left).blocks@.len() == old(ct_left).blocks@.len(),
            final(ct_right).blocks@.len() == old(ct_right).blocks@.len(),
            r.decrypted() == (old(ct_left).decrypted() + old(ct_right).decrypted()) % old(
                ct_left,
            ).modulus(),
            final(ct_left).decrypted() == old(ct_left).decrypted(),
            final(ct_right).decrypted() == old(ct_right).decrypted(),
            self.add_possible(*old(ct_left), *old(ct_right)) ==> *final(ct_left) == *old(ct_left)
                && *final(ct_right) == *old(ct_right),
            !self.add_possible(*old(ct_left), *old(ct_right)) ==> final(ct_left).is_clean()
                && final(ct_right).is_clean(),
            !self.add_possible(*old(ct_left), *old(ct_right)) ==> self.propagated(
                *old(ct_left),
                *final(ct_left),
            ) && self.propagated(*old(ct_right), *final(ct_right)),
            forall|i: int|
                0 <= i < r.blocks@.len() ==> {
                    &&& (#[trigger] r.blocks@[i]).degree == final(ct_left).blocks@[i].degree
                        + final(ct_right).blocks@[i].degree
                    &&& r.blocks@[i].noise_level == final(ct_left).blocks@[i].noise_level
                        + final(ct_right).blocks@[i].noise_level
                },
    {
        if !self.is_add_possible(ct_left, ct_right) {
            self.full_propagate_both(ct_left, ct_right);
            proof {
                self.lemma_clean_add_possible(*ct_left, *ct_right);
            }
        }
        proof {
            assert(self.block_wf(ct_left.blocks@[0]) && self.block_wf(old(ct_left).blocks@[0]));
        }
        self.unchecked_add(ct_left, ct_right)
    }

    /// As `smart_add_parallelized`, with the sum written into `ct_left`: its blocks carry
    /// the operands' degrees and noise levels added, those of the propagated operands when
    /// the headroom did not allow the addition.
    pub fn smart_add_assign_parallelized(
        &self,
        ct_left: &mut RadixCiphertext,
        ct_right: &mut RadixCiphertext,
    )
        requires
            self.wf(),
            self.radix_wf(*old(ct_left)),
            self.radix_wf(*old(ct_right)),
            old(ct_left).blocks@.len() == old(ct_right).blocks@.len(),
        ensures
            self.radix_wf(*final(ct_left)),
            self.radix_wf(*final(ct_right)),
            final(ct_left).blocks@.len() == old(ct_left).blocks@.len(),
            final(ct_right).blocks@.len() == old(ct_right).blocks@.len(),
            final(ct_left).decrypted() == (old(ct_left).decrypted() + old(ct_right).decrypted())
                % old(ct_left).modulus(),
            final(ct_right).decrypted() == old(ct_right).decrypted(),
            self.add_possible(*old(ct_left), *old(ct_right)) ==> *final(ct_right) == *old(
                ct_right,
            ),
            !self.add_possible(*old(ct_left), *old(ct_right)) ==> final(ct_right).is_clean(),
            !self.add_possible(*old(ct_left), *old(ct_right)) ==> self.propagated(
                *old(ct_right),
                *final(ct_right),
            ),
            self.add_possible(*old(ct_left), *old(ct_right)) ==> forall|i: int|
                0 <= i < final(ct_left).blocks@.len() ==> {
                    &&& (#[trigger] final(ct_left).blocks@[i]).degree
                        == old(ct_left).blocks@[i].degree + old(ct_right).blocks@[i].degree
                    &&& final(ct_left).blocks@[i].noise_level == old(ct_left).blocks@[i].noise_level
                        + old(ct_right).blocks@[i].noise_level
                },
            !self.add_possible(*old(ct_left), *old(ct_right)) ==> forall|i: int|
                0 <= i < final(ct_left).blocks@.len() ==> {
                    &&& (#[trigger] final(ct_left).blocks@[i]).degree == 2 * (
                    self.message_modulus - 1)
                    &&& final(ct_left).blocks@[i].noise_level == 2 * NOISE_LEVEL_NOMINAL
                },
    {
        if !self.is_add_possible(ct_left, ct_right) {
            self.full_propagate_both(ct_left, ct_right);
            proof {
                self.lemma_clean_add_possible(*ct_left, *ct_right);
            }
        }
        proof {
            assert(self.block_wf(ct_left.blocks@[0]) && self.block_wf(old(ct_left).blocks@[0]));
        }
        self.unchecked_add_assign(ct_left, ct_right);
    }
}

/// When the add predicate holds, the plaintexts of every aligned pair of blocks sum to a
/// value that the block's plaintext space still holds, and the summed noise stays within
/// budget: the unchecked addition loses nothing.
pub proof fn lemma_add_possible_sound(sks: ServerKey, a: RadixCiphertext, b: RadixCiphertext)
    requires
        sks.wf(),
        sks.radix_wf(a),
        sks.radix_wf(b),
        a.blocks@.len() == b.blocks@.len(),
        sks.add_possible(a, b),
    ensures
        forall|i: int|
            0 <= i < a.blocks@.len() ==> {
                &&& 0 <= #[trigger] a.bodies()[i] + b.bodies()[i] <= sks.max_degree()
                &&& a.blocks@[i].noise_level + b.blocks@[i].noise_level <= sks.max_noise_level
            },
{
    assert forall|i: int| 0 <= i < a.blocks@.len() implies {
        &&& 0 <= #[trigger] a.bodies()[i] + b.bodies()[i] <= sks.max_degree()
        &&& a.blocks@[i].noise_level + b.blocks@[i].noise_level <= sks.max_noise_level
    } by {
        assert(sks.block_wf(a.blocks@[i]));
        assert(sks.block_wf(b.blocks@[i]));
    }
}

} // verus!
