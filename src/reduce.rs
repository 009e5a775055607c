use vstd::prelude::*;
use vstd::arithmetic::div_mod::*;

use rayon::iter::IndexedParallelIterator;
use rayon::iter::ParallelIterator;
use rayon::slice::ParallelSliceMut;

use crate::radix::{lemma_base_pow_pos, RadixCiphertext};
use crate::server_key::ServerKey;

verus! {

/// A binary operator on radix ciphertexts that computes an associative operation on the
/// decrypted values. It may normalize its operands in place, keeping their values.
pub trait RadixBinaryOp {
    /// The operation on decrypted values, each below `modulus`.
    spec fn value_op(&self, modulus: int, x: int, y: int) -> int;

    proof fn lemma_value_op_range(&self, modulus: int, x: int, y: int)
        requires
            modulus >= 1,
            0 <= x < modulus,
            0 <= y < modulus,
        ensures
            0 <= self.value_op(modulus, x, y) < modulus,
    ;

    proof fn lemma_value_op_associative(&self, modulus: int, x: int, y: int, z: int)
        requires
            modulus >= 1,
            0 <= x < modulus,
            0 <= y < modulus,
            0 <= z < modulus,
        ensures
            self.value_op(modulus, self.value_op(modulus, x, y), z) == self.value_op(
                modulus,
                x,
                self.value_op(modulus, y, z),
            ),
    ;

    fn apply(&self, sks: &ServerKey, a: &mut RadixCiphertext, b: &mut RadixCiphertext) -> (r:
        RadixCiphertext)
        requires
            sks.wf(),
            sks.radix_wf(*old(a)),
            sks.radix_wf(*old(b)),
            old(a).blocks@.len() == old(b).blocks@.len(),
        ensures
            sks.radix_wf(*final(a)),
            sks.radix_wf(*final(b)),
            sks.radix_wf(r),
            final(a).blocks@.len() == old(a).blocks@.len(),
            final(b).blocks@.len() == old(a).blocks@.len(),
            r.blocks@.len() == old(a).blocks@.len(),
            final(a).decrypted() == old(a).decrypted(),
            final(b).decrypted() == old(b).decrypted(),
            r.decrypted() == self.value_op(old(a).modulus(), old(a).decrypted(), old(b).decrypted()),
    ;
}

/// Addition through `smart_add_parallelized`.
pub struct SmartAdd;

impl RadixBinaryOp for SmartAdd {
    open spec fn value_op(&self, modulus: int, x: int, y: int) -> int {
        (x + y) % modulus
    }

    proof fn lemma_value_op_range(&self, modulus: int, x: int, y: int) {
        lemma_mod_bound(x + y, modulus);
    }

    proof fn lemma_value_op_associative(&self, modulus: int, x: int, y: int, z: int) {
        lemma_add_mod_noop(x + y, z, modulus);
        lemma_add_mod_noop(x, y + z, modulus);
        lemma_mod_twice(x + y, modulus);
        lemma_mod_twice(y + z, modulus);
        lemma_mod_twice(z, modulus);
        lemma_mod_twice(x, modulus);
        lemma_small_mod(x as nat, modulus as nat);
        lemma_small_mod(z as nat, modulus as nat);
    }

    fn apply(&self, sks: &ServerKey, a: &mut RadixCiphertext, b: &mut RadixCiphertext) -> (r:
        RadixCiphertext) {
        sks.smart_add_parallelized(a, b)
    }
}

/// Folds the non-empty sequence `s` from left to right with `op`.
pub open spec fn fold_values<O: RadixBinaryOp>(op: &O, modulus: int, s: Seq<int>) -> int
    decreases s.len(),
{
    if s.len() <= 1 {
        s[0]
    } else {
        op.value_op(modulus, fold_values(op, modulus, s.drop_last()), s.last())
    }
}

/// Every value of `s` lies in `[0, modulus)`.
pub open spec fn values_below(s: Seq<int>, modulus: int) -> bool {
    forall|i: int| 0 <= i < s.len() ==> 0 <= #[trigger] s[i] < modulus
}

/// The decrypted values of a sequence of ciphertexts.
pub open spec fn decrypted_values(s: Seq<RadixCiphertext>) -> Seq<int> {
    s.map_values(|c: RadixCiphertext| c.decrypted())
}

/// `op` on each consecutive pair of the even-length sequence `s`, in order.
pub open spec fn pair_values<O: RadixBinaryOp>(op: &O, modulus: int, s: Seq<int>) -> Seq<int> {
    Seq::new((s.len() / 2) as nat, |k: int| op.value_op(modulus, s[2 * k], s[2 * k + 1]))
}

/// Every ciphertext of `s` is shaped for `sks` and has `num_blocks` blocks.
pub open spec fn uniform_operands(sks: ServerKey, s: Seq<RadixCiphertext>, num_blocks: int) -> bool {
    forall|i: int|
        0 <= i < s.len() ==> sks.radix_wf(#[trigger] s[i]) && s[i].blocks@.len() == num_blocks
}

pub proof fn lemma_fold_range<O: RadixBinaryOp>(op: &O, modulus: int, s: Seq<int>)
    requires
        modulus >= 1,
        s.len() >= 1,
        values_below(s, modulus),
    ensures
        0 <= fold_values(op, modulus, s) < modulus,
    decreases s.len(),
{
    if s.len() > 1 {
        lemma_fold_range(op, modulus, s.drop_last());
        op.lemma_value_op_range(modulus, fold_values(op, modulus, s.drop_last()), s.last());
    }
}

/// Folding a sequence that starts with `x` applies `op` to `x` and the fold of the rest.
pub proof fn lemma_fold_cons<O: RadixBinaryOp>(op: &O, modulus: int, x: int, t: Seq<int>)
    requires
        modulus >= 1,
        t.len() >= 1,
        0 <= x < modulus,
        values_below(t, modulus),
    ensures
        fold_values(op, modulus, seq![x] + t) == op.value_op(modulus, x, fold_values(op, modulus, t)),
    decreases t.len(),
{
    let s = seq![x] + t;
    assert(s.last() == t.last());
    if t.len() == 1 {
        assert(s.drop_last() =~= seq![x]);
        assert(fold_values(op, modulus, seq![x]) == x);
        assert(fold_values(op, modulus, t) == t[0]);
    } else {
        let t1 = t.drop_last();
        assert(s.drop_last() =~= seq![x] + t1);
        assert(values_below(t1, modulus));
        lemma_fold_cons(op, modulus, x, t1);
        lemma_fold_range(op, modulus, t1);
        op.lemma_value_op_associative(modulus, x, fold_values(op, modulus, t1), t.last());
        assert(fold_values(op, modulus, t) == op.value_op(
            modulus,
            fold_values(op, modulus, t1),
            t.last(),
        ));
    }
}

/// Combining consecutive pairs first, then folding, folds the whole sequence.
pub proof fn lemma_fold_pairs<O: RadixBinaryOp>(op: &O, modulus: int, s: Seq<int>)
    requires
        modulus >= 1,
        s.len() >= 2,
        s.len() % 2 == 0,
        values_below(s, modulus),
    ensures
        fold_values(op, modulus, pair_values(op, modulus, s)) == fold_values(op, modulus, s),
    decreases s.len(),
{
    let p = pair_values(op, modulus, s);
    let n = s.len();
    let a = s[n - 2];
    let b = s[n - 1];
    assert(p.last() == op.value_op(modulus, a, b));
    if n == 2 {
        assert(s.drop_last() =~= seq![a]);
        assert(fold_values(op, modulus, seq![a]) == a);
        assert(p.len() == 1);
        assert(fold_values(op, modulus, p) == p[0]);
    } else {
        let s2 = s.subrange(0, n - 2);
        assert(values_below(s2, modulus));
        lemma_fold_pairs(op, modulus, s2);
        assert(p.drop_last() =~= pair_values(op, modulus, s2));
        assert(s.drop_last() =~= s2.push(a));
        assert(s2.push(a).drop_last() =~= s2);
        assert(s2.push(a).last() == a);
        lemma_fold_range(op, modulus, s2);
        op.lemma_value_op_associative(modulus, fold_values(op, modulus, s2), a, b);
        assert(fold_values(op, modulus, s2.push(a)) == op.value_op(
            modulus,
            fold_values(op, modulus, s2),
            a,
        ));
        assert(fold_values(op, modulus, p) == op.value_op(
            modulus,
            fold_values(op, modulus, p.drop_last()),
            p.last(),
        ));
    }
}

/// One round of the tournament: the first value carried over when the count is odd, the
/// others combined pairwise.
pub open spec fn round_values<O: RadixBinaryOp>(op: &O, modulus: int, s: Seq<int>) -> Seq<int> {
    let p = (s.len() % 2) as int;
    s.subrange(0, p) + pair_values(op, modulus, s.subrange(p, s.len() as int))
}

/// A round of the tournament keeps the fold of the sequence.
pub proof fn lemma_fold_round<O: RadixBinaryOp>(op: &O, modulus: int, s: Seq<int>)
    requires
        modulus >= 1,
        s.len() >= 2,
        values_below(s, modulus),
    ensures
        fold_values(op, modulus, round_values(op, modulus, s)) == fold_values(op, modulus, s),
{
    let p = (s.len() % 2) as int;
    let rest = s.subrange(p, s.len() as int);
    lemma_fold_pairs(op, modulus, rest);
    if p == 0 {
        assert(round_values(op, modulus, s) =~= pair_values(op, modulus, rest));
        assert(rest =~= s);
    } else {
        let pr = pair_values(op, modulus, rest);
        assert(round_values(op, modulus, s) =~= seq![s[0]] + pr);
        assert(s =~= seq![s[0]] + rest);
        assert(values_below(pr, modulus)) by {
            assert forall|k: int| 0 <= k < pr.len() implies 0 <= #[trigger] pr[k] < modulus by {
                op.lemma_value_op_range(modulus, rest[2 * k], rest[2 * k + 1]);
            }
        }
        lemma_fold_cons(op, modulus, s[0], pr);
        lemma_fold_cons(op, modulus, s[0], rest);
    }
}

/// `new` and `r` are what applying `op` to each pair of consecutive slots of `old` from
/// `start` on leaves: slots before `start` untouched, every slot keeping its value and
/// shape, and `r` holding the result of pair `k` at index `k`.
pub open spec fn pairs_applied<O: RadixBinaryOp>(
    op: &O,
    sks: ServerKey,
    old: Seq<RadixCiphertext>,
    new: Seq<RadixCiphertext>,
    start: int,
    r: Seq<RadixCiphertext>,
) -> bool {
    &&& new.len() == old.len()
    &&& forall|i: int| 0 <= i < start ==> #[trigger] new[i] == old[i]
    &&& r.len() == (old.len() - start) / 2
    &&& forall|k: int|
        0 <= k < r.len() ==> {
            let i = start + 2 * k;
            let j = start + 2 * k + 1;
            &&& sks.radix_wf(#[trigger] r[k])
            &&& sks.radix_wf(new[i])
            &&& sks.radix_wf(new[j])
            &&& r[k].blocks@.len() == old[i].blocks@.len()
            &&& new[i].blocks@.len() == old[i].blocks@.len()
            &&& new[j].blocks@.len() == old[i].blocks@.len()
            &&& new[i].decrypted() == old[i].decrypted()
            &&& new[j].decrypted() == old[j].decrypted()
            &&& r[k].decrypted() == op.value_op(old[i].modulus(), old[i].decrypted(), old[j].decrypted())
        }
}

/// Combines every pair of consecutive slots from `start` on with `op`, the pairs in
/// parallel.
///
/// Relies on rayon's `par_chunks_mut(2)`, which hands out disjoint chunks of two slots
/// (the count from `start` on is even), and on `collect_into_vec` of an indexed parallel
/// iterator, which stores the result of chunk `k` at index `k`.
#[verifier::external_body]
fn combine_pairs<O: RadixBinaryOp + Sync>(
    sks: &ServerKey,
    op: &O,
    slots: &mut Vec<RadixCiphertext>,
    start: usize,
) -> (r: Vec<RadixCiphertext>)
    requires
        sks.wf(),
        start < old(slots)@.len(),
        (old(slots)@.len() - start) % 2 == 0,
        uniform_operands(*sks, old(slots)@, old(slots)@[0].blocks@.len() as int),
    ensures
        pairs_applied(op, *sks, old(slots)@, final(slots)@, start as int, r@),
{
    let mut out: Vec<RadixCiphertext> = Vec::new();
    slots[start..].par_chunks_mut(2).map(|pair| {
        let (x, y) = pair.split_at_mut(1);
        op.apply(sks, &mut x[0], &mut y[0])
    }).collect_into_vec(&mut out);
    out
}

/// Ciphertexts with the same blocks decrypt alike and are shaped alike.
pub proof fn lemma_same_blocks(sks: ServerKey, a: RadixCiphertext, b: RadixCiphertext)
    requires
        a.same_blocks(&b),
    ensures
        a.decrypted() == b.decrypted(),
        a.blocks@.len() >= 1 ==> a.base() == b.base(),
        sks.radix_wf(b) ==> sks.radix_wf(a),
{
    assert(a.bodies() =~= b.bodies());
    if sks.radix_wf(b) {
        assert forall|i: int| 0 <= i < a.blocks@.len() implies sks.block_wf(#[trigger] a.blocks@[i]) by {
            assert(sks.block_wf(b.blocks@[i]));
        }
    }
}

/// Operands shaped for `sks` with `num_blocks` blocks share one modulus, and their values
/// lie below it.
pub proof fn lemma_uniform_values(sks: ServerKey, s: Seq<RadixCiphertext>, num_blocks: int)
    requires
        sks.wf(),
        num_blocks >= 1,
        uniform_operands(sks, s, num_blocks),
    ensures
        forall|i: int|
            0 <= i < s.len() ==> (#[trigger] s[i]).modulus() == crate::radix::base_pow(
                sks.message_modulus as int,
                num_blocks as nat,
            ),
        values_below(
            decrypted_values(s),
            crate::radix::base_pow(sks.message_modulus as int, num_blocks as nat),
        ),
{
    let m = crate::radix::base_pow(sks.message_modulus as int, num_blocks as nat);
    lemma_base_pow_pos(sks.message_modulus as int, num_blocks as nat);
    assert forall|i: int| 0 <= i < s.len() implies (#[trigger] s[i]).modulus() == m by {
        assert(sks.block_wf(s[i].blocks@[0]));
    }
    let v = decrypted_values(s);
    assert forall|i: int| 0 <= i < v.len() implies 0 <= #[trigger] v[i] < m by {
        assert(s[i].modulus() == m);
        lemma_mod_bound(crate::radix::digits_value(s[i].bodies(), s[i].base()), m);
    }
}

/// One round of the tournament, read on values: the carried prefix followed by the
/// pairs' results spells `round_values` of the old values.
proof fn lemma_round_result<O: RadixBinaryOp>(
    op: &O,
    sks: ServerKey,
    old: Seq<RadixCiphertext>,
    new: Seq<RadixCiphertext>,
    r: Seq<RadixCiphertext>,
    prefix: Seq<RadixCiphertext>,
    num_blocks: int,
)
    requires
        sks.wf(),
        num_blocks >= 1,
        old.len() >= 2,
        uniform_operands(sks, old, num_blocks),
        pairs_applied(op, sks, old, new, (old.len() % 2) as int, r),
        prefix.len() == old.len() % 2,
        prefix.len() == 1 ==> prefix[0].same_blocks(&old[0]),
    ensures
        uniform_operands(sks, new, num_blocks),
        decrypted_values(new) == decrypted_values(old),
        uniform_operands(sks, prefix + r, num_blocks),
        decrypted_values(prefix + r) == round_values(
            op,
            crate::radix::base_pow(sks.message_modulus as int, num_blocks as nat),
            decrypted_values(old),
        ),
        (prefix + r).len() < old.len(),
{
    let m = crate::radix::base_pow(sks.message_modulus as int, num_blocks as nat);
    let p = (old.len() % 2) as int;
    lemma_uniform_values(sks, old, num_blocks);
    let vo = decrypted_values(old);
    assert forall|i: int| 0 <= i < new.len() implies sks.radix_wf(#[trigger] new[i])
        && new[i].blocks@.len() == num_blocks && new[i].decrypted() == old[i].decrypted() by {
        if i >= p {
            let k = (i - p) / 2;
            assert(0 <= k < r.len());
            assert(sks.radix_wf(r[k]));
        }
    }
    assert(decrypted_values(new) =~= decrypted_values(old));
    let nx = prefix + r;
    if p == 1 {
        lemma_same_blocks(sks, prefix[0], old[0]);
    }
    assert forall|i: int| 0 <= i < nx.len() implies sks.radix_wf(#[trigger] nx[i])
        && nx[i].blocks@.len() == num_blocks by {
        if i >= p {
            assert(nx[i] == r[i - p]);
        } else {
            assert(nx[i] == prefix[0]);
        }
    }
    let rest = vo.subrange(p, vo.len() as int);
    assert(decrypted_values(nx) =~= vo.subrange(0, p) + pair_values(op, m, rest)) by {
        assert forall|k: int| 0 <= k < r.len() implies (#[trigger] r[k]).decrypted() == op.value_op(
            m,
            rest[2 * k],
            rest[2 * k + 1],
        ) by {
            assert(old[p + 2 * k].modulus() == m);
        }
    }
}

impl ServerKey {
    /// Folds `ct_seq` with `op` as a balanced tournament: in each round the first slot is
    /// carried over when the count is odd, and the other slots are combined pairwise, the
    /// pairs in parallel. `op` must compute an associative operation on the decrypted
    /// values; it may normalize the caller's ciphertexts in place, keeping their values.
    ///
    /// Returns `None` for an empty sequence and a copy of the element for a single one.
    pub fn smart_binary_op_seq_parallelized<O: RadixBinaryOp + Sync>(
        &self,
        ct_seq: &mut Vec<RadixCiphertext>,
        op: &O,
    ) -> (r: Option<RadixCiphertext>)
        requires
            self.wf(),
            old(ct_seq)@.len() >= 1 ==> uniform_operands(
                *self,
                old(ct_seq)@,
                old(ct_seq)@[0].blocks@.len() as int,
            ),
        ensures
            final(ct_seq)@.len() == old(ct_seq)@.len(),
            old(ct_seq)@.len() >= 1 ==> uniform_operands(
                *self,
                final(ct_seq)@,
                old(ct_seq)@[0].blocks@.len() as int,
            ),
            decrypted_values(final(ct_seq)@) == decrypted_values(old(ct_seq)@),
            r is None <==> old(ct_seq)@.len() == 0,
            old(ct_seq)@.len() == 1 ==> r is Some && r->0.same_blocks(&old(ct_seq)@[0])
                && final(ct_seq)@ == old(ct_seq)@,
            r matches Some(c) ==> {
                &&& self.radix_wf(c)
                &&& c.blocks@.len() == old(ct_seq)@[0].blocks@.len()
                &&& c.decrypted() == fold_values(
                    op,
                    old(ct_seq)@[0].modulus(),
                    decrypted_values(old(ct_seq)@),
                )
            },
    {
        let n = ct_seq.len();
        if n == 0 {
            assert(decrypted_values(ct_seq@) =~= decrypted_values(old(ct_seq)@));
            return None;
        }
        if n == 1 {
            let only = ct_seq[0].duplicate();
            proof {
                assert(self.radix_wf(ct_seq@[0]));
                lemma_same_blocks(*self, only, ct_seq@[0]);
                assert(decrypted_values(ct_seq@).drop_last().len() == 0);
            }
            return Some(only);
        }
        let ghost nb = ct_seq@[0].blocks@.len() as int;
        let ghost m = crate::radix::base_pow(self.message_modulus as int, nb as nat);
        let ghost vals = decrypted_values(ct_seq@);
        let ghost before = ct_seq@;
        proof {
            assert(self.radix_wf(ct_seq@[0]));
            lemma_base_pow_pos(self.message_modulus as int, nb as nat);
            lemma_uniform_values(*self, ct_seq@, nb);
            lemma_fold_round(op, m, vals);
        }
        let start = n % 2;
        let mut results = combine_pairs(self, op, ct_seq, start);
        let mut slots: Vec<RadixCiphertext> = Vec::new();
        if start == 1 {
            let first = ct_seq[0].duplicate();
            slots.push(first);
        }
        let ghost prefix = slots@;
        let ghost res = results@;
        slots.append(&mut results);
        proof {
            if start == 1 {
                assert(prefix[0].same_blocks(&before[0]));
            }
            lemma_round_result(op, *self, before, ct_seq@, res, prefix, nb);
        }
        while slots.len() > 1
            invariant
                self.wf(),
                nb >= 1,
                m == crate::radix::base_pow(self.message_modulus as int, nb as nat),
                slots@.len() >= 1,
                uniform_operands(*self, slots@, nb),
                values_below(vals, m),
                vals.len() >= 1,
                fold_values(op, m, decrypted_values(slots@)) == fold_values(op, m, vals),
            decreases slots@.len(),
        {
            let ghost cur = slots@;
            let ghost cv = decrypted_values(cur);
            proof {
                lemma_uniform_values(*self, cur, nb);
                lemma_fold_round(op, m, cv);
            }
            let start = slots.len() % 2;
            let mut results = combine_pairs(self, op, &mut slots, start);
            let ghost mutated = slots@;
            slots.truncate(start);
            let ghost prefix = slots@;
            proof {
                assert forall|i: int| 0 <= i < prefix.len() implies #[trigger] prefix[i] == cur[i] by {}
                if start == 1 {
                    assert(prefix[0] == cur[0]);
                    assert(prefix[0].same_blocks(&cur[0]));
                }
                lemma_round_result(op, *self, cur, mutated, results@, prefix, nb);
            }
            slots.append(&mut results);
        }
        let ghost single = slots@;
        let last = slots.pop();
        proof {
            assert(decrypted_values(single).drop_last().len() == 0);
            assert(fold_values(op, m, decrypted_values(single)) == single[0].decrypted());
            assert(self.radix_wf(single[0]));
            assert(before[0].modulus() == m) by {
                lemma_uniform_values(*self, before, nb);
            }
        }
        last
    }
}

} // verus!
