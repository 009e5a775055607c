use vstd::prelude::*;
use vstd::arithmetic::div_mod::*;
use vstd::arithmetic::mul::*;

use crate::block::Ciphertext;

verus! {

/// `base` raised to the power `n`.
pub open spec fn base_pow(base: int, n: nat) -> int
    decreases n,
{
    if n == 0 {
        1
    } else {
        base * base_pow(base, (n - 1) as nat)
    }
}

/// The integer that the digits `s` (least significant first) spell in base `base`,
/// without any reduction.
pub open spec fn digits_value(s: Seq<int>, base: int) -> int
    decreases s.len(),
{
    if s.len() == 0 {
        0
    } else {
        s[0] + base * digits_value(s.drop_first(), base)
    }
}

/// Every digit of `s` lies in `[0, bound)`.
pub open spec fn digits_below(s: Seq<int>, bound: int) -> bool {
    forall|i: int| 0 <= i < s.len() ==> 0 <= #[trigger] s[i] < bound
}

pub proof fn lemma_base_pow_pos(base: int, n: nat)
    requires
        base >= 1,
    ensures
        base_pow(base, n) >= 1,
    decreases n,
{
    if n > 0 {
        lemma_base_pow_pos(base, (n - 1) as nat);
        lemma_mul_increases(base_pow(base, (n - 1) as nat), base);
        lemma_mul_is_commutative(base_pow(base, (n - 1) as nat), base);
    }
}

pub proof fn lemma_base_pow_monotone(base: int, a: nat, b: nat)
    requires
        base >= 1,
        a <= b,
    ensures
        base_pow(base, a) <= base_pow(base, b),
    decreases b,
{
    if a < b {
        lemma_base_pow_monotone(base, a, (b - 1) as nat);
        lemma_base_pow_pos(base, (b - 1) as nat);
        lemma_mul_increases(base, base_pow(base, (b - 1) as nat));
    }
}

/// Appending a most significant digit adds it at its weight.
pub proof fn lemma_digits_push(s: Seq<int>, x: int, base: int)
    ensures
        digits_value(s.push(x), base) == digits_value(s, base) + x * base_pow(base, s.len()),
    decreases s.len(),
{
    if s.len() == 0 {
        assert(s.push(x).drop_first() =~= Seq::<int>::empty());
        assert(digits_value(Seq::<int>::empty(), base) == 0);
    } else {
        assert(s.push(x).drop_first() =~= s.drop_first().push(x));
        lemma_digits_push(s.drop_first(), x, base);
        let r = digits_value(s.drop_first(), base);
        let w = base_pow(base, s.drop_first().len());
        assert(base * (r + x * w) == base * r + x * (base * w)) by (nonlinear_arith);
    }
}

/// Replacing digit `i` shifts the value by the difference at that digit's weight.
pub proof fn lemma_digits_update(s: Seq<int>, i: int, x: int, base: int)
    requires
        0 <= i < s.len(),
    ensures
        digits_value(s.update(i, x), base) == digits_value(s, base) + (x - s[i]) * base_pow(
            base,
            i as nat,
        ),
    decreases s.len(),
{
    if i == 0 {
        assert(s.update(0, x).drop_first() =~= s.drop_first());
    } else {
        assert(s.update(i, x).drop_first() =~= s.drop_first().update(i - 1, x));
        lemma_digits_update(s.drop_first(), i - 1, x, base);
        let d = x - s[i];
        let w = base_pow(base, (i - 1) as nat);
        let r = digits_value(s.drop_first(), base);
        assert(base * (r + d * w) == base * r + d * (base * w)) by (nonlinear_arith);
    }
}

/// Digits below the base spell a value below the base to the number of digits.
pub proof fn lemma_digits_bound(s: Seq<int>, base: int)
    requires
        base >= 1,
        digits_below(s, base),
    ensures
        0 <= digits_value(s, base) < base_pow(base, s.len()),
    decreases s.len(),
{
    if s.len() > 0 {
        let t = s.drop_first();
        assert(digits_below(t, base)) by {
            assert forall|i: int| 0 <= i < t.len() implies 0 <= #[trigger] t[i] < base by {
                assert(t[i] == s[i + 1]);
            }
        }
        lemma_digits_bound(t, base);
        let r = digits_value(t, base);
        let w = base_pow(base, t.len());
        assert(s[0] < base);
        assert(0 <= s[0] + base * r < base * w) by (nonlinear_arith)
            requires
                0 <= s[0] < base,
                0 <= r < w,
        ;
    }
}

/// Adding two digit strings position by position adds their values.
pub proof fn lemma_digits_add(a: Seq<int>, b: Seq<int>, c: Seq<int>, base: int)
    requires
        a.len() == b.len(),
        c.len() == a.len(),
        forall|i: int| 0 <= i < a.len() ==> #[trigger] c[i] == a[i] + b[i],
    ensures
        digits_value(c, base) == digits_value(a, base) + digits_value(b, base),
    decreases a.len(),
{
    if a.len() > 0 {
        lemma_digits_add(a.drop_first(), b.drop_first(), c.drop_first(), base);
        let ra = digits_value(a.drop_first(), base);
        let rb = digits_value(b.drop_first(), base);
        assert(base * (ra + rb) == base * ra + base * rb) by (nonlinear_arith);
    }
}

/// An integer made of an ordered sequence of blocks, least significant first, in base
/// `message_modulus`.
#[derive(Clone, Debug)]
pub struct RadixCiphertext {
    pub blocks: Vec<Ciphertext>,
}

impl RadixCiphertext {
    /// The plaintexts of the blocks, least significant first.
    pub open spec fn bodies(&self) -> Seq<int> {
        self.blocks@.map_values(|b: Ciphertext| b.body())
    }

    /// The base of the radix representation, read from the first block.
    pub open spec fn base(&self) -> int {
        self.blocks@[0].message_modulus as int
    }

    /// The modulus of the represented integer: the base to the number of blocks.
    pub open spec fn modulus(&self) -> int {
        base_pow(self.base(), self.blocks@.len())
    }

    /// The integer the ciphertext decrypts to.
    pub open spec fn decrypted(&self) -> int {
        digits_value(self.bodies(), self.base()) % self.modulus()
    }

    /// Every block carries no carry and at most nominal noise.
    pub open spec fn is_clean(&self) -> bool {
        forall|i: int| 0 <= i < self.blocks@.len() ==> (#[trigger] self.blocks@[i]).is_clean()
    }

    /// Every block of `self` is a copy of the block of `other` at the same position.
    pub open spec fn same_blocks(&self, other: &RadixCiphertext) -> bool {
        &&& self.blocks@.len() == other.blocks@.len()
        &&& forall|i: int|
            0 <= i < self.blocks@.len() ==> {
                let a = #[trigger] self.blocks@[i];
                let b = other.blocks@[i];
                &&& a.ct@ == b.ct@
                &&& a.degree == b.degree
                &&& a.noise_level == b.noise_level
                &&& a.message_modulus == b.message_modulus
                &&& a.carry_modulus == b.carry_modulus
                &&& a.pbs_order == b.pbs_order
            }
    }

    /// A copy of the ciphertext, block for block.
    pub fn duplicate(&self) -> (r: RadixCiphertext)
        ensures
            r.same_blocks(self),
    {
        let mut blocks: Vec<Ciphertext> = Vec::new();
        let mut i: usize = 0;
        while i < self.blocks.len()
            invariant
                i <= self.blocks@.len(),
                blocks@.len() == i,
                forall|j: int|
                    0 <= j < i ==> {
                        let a = #[trigger] blocks@[j];
                        let b = self.blocks@[j];
                        &&& a.ct@ == b.ct@
                        &&& a.degree == b.degree
                        &&& a.noise_level == b.noise_level
                        &&& a.message_modulus == b.message_modulus
                        &&& a.carry_modulus == b.carry_modulus
                        &&& a.pbs_order == b.pbs_order
                    },
            decreases self.blocks@.len() - i,
        {
            blocks.push(self.blocks[i].duplicate());
            i = i + 1;
        }
        RadixCiphertext { blocks }
    }

    /// Every block's container is non-empty, and its plaintext fits in 32 bits.
    pub open spec fn bodies_in_range(&self) -> bool {
        forall|i: int|
            0 <= i < self.blocks@.len() ==> {
                let b = #[trigger] self.blocks@[i];
                &&& b.ct@.len() >= 1
                &&& 0 <= b.body() < 0x1_0000_0000
            }
    }

    /// Reads the integer a trivially encrypted ciphertext holds.
    pub fn decrypt_trivial(&self) -> (r: u64)
        requires
            self.blocks@.len() >= 1,
            2 <= self.base() <= 0x1_0000_0000,
            self.modulus() <= u64::MAX,
            self.bodies_in_range(),
        ensures
            r == self.decrypted(),
    {
        let m = self.blocks[0].message_modulus as u128;
        let ghost base = self.base();
        let ghost ds = self.bodies();
        let n = self.blocks.len();
        let mut modulus: u128 = 1;
        let mut k: usize = 0;
        while k < n
            invariant
                k <= n,
                n == self.blocks@.len(),
                m == base,
                2 <= base <= 0x1_0000_0000,
                modulus == base_pow(base, k as nat),
                base_pow(base, n as nat) <= u64::MAX,
            decreases n - k,
        {
            proof {
                lemma_base_pow_monotone(base, (k + 1) as nat, n as nat);
                lemma_mul_is_commutative(modulus as int, base);
                assert(base_pow(base, (k + 1) as nat) == base * base_pow(base, k as nat));
            }
            modulus = modulus * m;
            k = k + 1;
        }
        let mut acc: u128 = 0;
        let mut i: usize = n;
        proof {
            assert(ds.subrange(n as int, n as int) =~= Seq::<int>::empty());
            lemma_base_pow_pos(base, n as nat);
            lemma_small_mod(0, modulus as nat);
        }
        while i > 0
            invariant
                i <= n,
                n == self.blocks@.len(),
                ds == self.bodies(),
                m == base,
                2 <= base <= 0x1_0000_0000,
                modulus == self.modulus(),
                1 <= modulus <= u64::MAX,
                self.bodies_in_range(),
                acc < modulus,
                acc == digits_value(ds.subrange(i as int, n as int), base) % (modulus as int),
            decreases i,
        {
            let blk = &self.blocks[i - 1];
            let body = blk.ct[blk.ct.len() - 1];
            proof {
                let j = (i - 1) as int;
                assert(ds[j] == body as int);
                let t = ds.subrange(j, n as int);
                assert(t.drop_first() =~= ds.subrange(i as int, n as int));
                let v = digits_value(ds.subrange(i as int, n as int), base);
                let mm = modulus as int;
                lemma_mul_mod_noop_right(base, v, mm);
                lemma_add_mod_noop_right(body as int, base * v, mm);
                lemma_add_mod_noop_right(body as int, base * (v % mm), mm);
                assert(digits_value(t, base) == body as int + base * v);
                lemma_mul_is_commutative(acc as int, base);
                assert(acc * m <= (u64::MAX as u128) * 0x1_0000_0000) by (nonlinear_arith)
                    requires
                        acc < modulus,
                        modulus <= u64::MAX,
                        m <= 0x1_0000_0000,
                ;
            }
            acc = (acc * m + body as u128) % modulus;
            i = i - 1;
        }
        assert(ds.subrange(0, n as int) =~= ds);
        acc as u64
    }
}

} // verus!
