use vstd::prelude::*;

use crate::block::{Ciphertext, PBSOrder};
use crate::radix::RadixCiphertext;

verus! {

/// An execution stream of an accelerator. Work submitted to one stream runs in order.
#[derive(Clone, Copy, Debug)]
pub struct CudaStream {
    pub gpu_index: u32,
}

impl CudaStream {
    pub fn new(gpu_index: u32) -> (r: CudaStream)
        ensures
            r.gpu_index == gpu_index,
    {
        CudaStream { gpu_index }
    }

    /// Waits until all the work submitted to the stream has finished. Transfers in this
    /// crate complete before they return, so there is nothing left to wait for.
    pub fn synchronize(&self) {
    }
}

/// A buffer of words in the memory of the accelerator a stream belongs to.
#[derive(Debug)]
pub struct CudaVec {
    pub data: Vec<u64>,
    pub gpu_index: u32,
}

impl CudaVec {
    pub fn len(&self) -> (r: usize)
        ensures
            r == self.data@.len(),
    {
        self.data.len()
    }
}

/// A list of LWE ciphertexts of `lwe_size` words each, stored one after the other in
/// one device buffer.
#[derive(Debug)]
pub struct CudaLweCiphertextList {
    pub d_vec: CudaVec,
    pub lwe_size: usize,
    pub lwe_ciphertext_count: usize,
}

/// The metadata of one block, kept beside the device buffer.
#[derive(Clone, Copy, Debug, PartialEq, Eq, Structural)]
pub struct CudaBlockInfo {
    pub degree: u64,
    pub message_modulus: u64,
    pub carry_modulus: u64,
    pub pbs_order: PBSOrder,
    pub noise_level: u64,
}

impl CudaBlockInfo {
    /// The block holds no carry: its degree stays below the message modulus.
    pub fn carry_is_empty(&self) -> (r: bool)
        ensures
            r == (self.degree < self.message_modulus),
    {
        self.degree < self.message_modulus
    }

    /// The metadata of `b`.
    pub open spec fn describes(&self, b: Ciphertext) -> bool {
        &&& self.degree == b.degree
        &&& self.message_modulus == b.message_modulus
        &&& self.carry_modulus == b.carry_modulus
        &&& self.pbs_order == b.pbs_order
        &&& self.noise_level == b.noise_level
    }
}

/// The per-block metadata of a device ciphertext, block `i` at index `i`.
#[derive(Clone, Debug)]
pub struct CudaRadixCiphertextInfo {
    pub blocks: Vec<CudaBlockInfo>,
}

/// The containers of `cts`, one after the other.
pub open spec fn flatten(cts: Seq<Seq<u64>>) -> Seq<u64>
    decreases cts.len(),
{
    if cts.len() == 0 {
        Seq::empty()
    } else {
        flatten(cts.drop_last()) + cts.last()
    }
}

/// The containers of the blocks of `c`, in order.
pub open spec fn containers(c: RadixCiphertext) -> Seq<Seq<u64>> {
    c.blocks@.map_values(|b: Ciphertext| b.ct@)
}

/// Every block of `c` has a container of `stride` words, `stride >= 1`.
pub open spec fn uniform_stride(c: RadixCiphertext, stride: int) -> bool {
    &&& stride >= 1
    &&& forall|i: int| 0 <= i < c.blocks@.len() ==> (#[trigger] c.blocks@[i]).ct@.len() == stride
}

/// Containers of `stride` words each, concatenated: container `i` sits at `i * stride`.
pub proof fn lemma_flatten_uniform(cts: Seq<Seq<u64>>, stride: int)
    requires
        stride >= 1,
        forall|i: int| 0 <= i < cts.len() ==> (#[trigger] cts[i]).len() == stride,
    ensures
        flatten(cts).len() == cts.len() * stride,
        forall|i: int|
            0 <= i < cts.len() ==> flatten(cts).subrange(i * stride, i * stride + stride)
                == #[trigger] cts[i],
    decreases cts.len(),
{
    if cts.len() > 0 {
        let init = cts.drop_last();
        lemma_flatten_uniform(init, stride);
        let n = cts.len();
        let f = flatten(cts);
        assert(f == flatten(init) + cts.last());
        assert((n - 1) * stride + stride == n * stride) by (nonlinear_arith);
        assert forall|i: int| 0 <= i < cts.len() implies flatten(cts).subrange(
            i * stride,
            i * stride + stride,
        ) == #[trigger] cts[i] by {
            if i < n - 1 {
                assert(i * stride + stride <= (n - 1) * stride) by (nonlinear_arith)
                    requires
                        i < n - 1,
                        stride >= 1,
                ;
                assert(0 <= i * stride) by (nonlinear_arith)
                    requires
                        i >= 0,
                        stride >= 1,
                ;
                assert(f.subrange(i * stride, i * stride + stride) =~= flatten(init).subrange(
                    i * stride,
                    i * stride + stride,
                ));
                assert(init[i] == cts[i]);
            } else {
                assert(i == n - 1);
                assert(i * stride == (n - 1) * stride);
                assert(f.subrange(i * stride, i * stride + stride) =~= cts.last());
            }
        }
    }
}

/// A radix ciphertext whose blocks live in device memory: the block containers
/// concatenated in one buffer, and the blocks' metadata beside it.
#[derive(Debug)]
pub struct CudaRadixCiphertext {
    pub d_blocks: CudaLweCiphertextList,
    pub info: CudaRadixCiphertextInfo,
}

impl CudaRadixCiphertext {
    /// The buffer holds `lwe_ciphertext_count` containers of `lwe_size` words, and there
    /// is one metadata entry per block.
    pub open spec fn wf(&self) -> bool {
        &&& self.d_blocks.lwe_size >= 1
        &&& self.d_blocks.d_vec.data@.len() == self.d_blocks.lwe_size
            * self.d_blocks.lwe_ciphertext_count
        &&& self.info.blocks@.len() == self.d_blocks.lwe_ciphertext_count
    }

    /// `self` holds `c`: the buffer is the blocks' containers one after the other, and
    /// metadata entry `i` is that of block `i`.
    pub open spec fn holds(&self, c: RadixCiphertext) -> bool {
        &&& self.wf()
        &&& c.blocks@.len() == self.d_blocks.lwe_ciphertext_count
        &&& uniform_stride(c, self.d_blocks.lwe_size as int)
        &&& self.d_blocks.d_vec.data@ == flatten(containers(c))
        &&& forall|i: int|
            0 <= i < c.blocks@.len() ==> (#[trigger] self.info.blocks@[i]).describes(c.blocks@[i])
    }

    /// `c` is what `self` reads back as on the host: block `i` takes the `i`-th stretch of
    /// `lwe_size` words of the buffer and metadata entry `i`.
    pub open spec fn reads_back_as(&self, c: RadixCiphertext) -> bool {
        &&& c.blocks@.len() == self.d_blocks.lwe_ciphertext_count
        &&& forall|i: int|
            0 <= i < c.blocks@.len() ==> {
                let s = self.d_blocks.lwe_size as int;
                &&& (#[trigger] c.blocks@[i]).ct@ == self.d_blocks.d_vec.data@.subrange(
                    i * s,
                    i * s + s,
                )
                &&& self.info.blocks@[i].describes(c.blocks@[i])
            }
    }

    /// `self` and `other` have the same buffer, shape and metadata.
    pub open spec fn same_content(&self, other: &CudaRadixCiphertext) -> bool {
        &&& self.d_blocks.d_vec.data@ == other.d_blocks.d_vec.data@
        &&& self.d_blocks.lwe_size == other.d_blocks.lwe_size
        &&& self.d_blocks.lwe_ciphertext_count == other.d_blocks.lwe_ciphertext_count
        &&& self.info.blocks@ == other.info.blocks@
    }

    pub fn new(d_blocks: CudaLweCiphertextList, info: CudaRadixCiphertextInfo) -> (r: Self)
        ensures
            r.d_blocks == d_blocks,
            r.info == info,
    {
        Self { d_blocks, info }
    }

    /// Copies `radix` to device memory: the block containers into one buffer, in block
    /// order, and the blocks' metadata unchanged.
    pub fn from_radix_ciphertext(radix: &RadixCiphertext, stream: &CudaStream) -> (r: Self)
        requires
            radix.blocks@.len() >= 1,
            uniform_stride(*radix, radix.blocks@[0].ct@.len() as int),
        ensures
            r.holds(*radix),
            r.d_blocks.d_vec.gpu_index == stream.gpu_index,
    {
        let lwe_size = radix.blocks[0].ct.len();
        let h_radix_ciphertext = flatten_containers(radix);
        let info = CudaRadixCiphertextInfo { blocks: block_infos(radix) };
        let count = radix.blocks.len();
        proof {
            lemma_flatten_uniform(containers(*radix), lwe_size as int);
            vstd::arithmetic::mul::lemma_mul_is_commutative(count as int, lwe_size as int);
        }
        let d_vec = CudaVec { data: h_radix_ciphertext, gpu_index: stream.gpu_index };
        let d_blocks = CudaLweCiphertextList { d_vec, lwe_size, lwe_ciphertext_count: count };
        Self { d_blocks, info }
    }

    /// Overwrites the buffer and the metadata with those of `radix`, in place: `radix`
    /// has as many blocks, of the same container size, as the ciphertext held so far.
    pub fn copy_from_radix_ciphertext(&mut self, radix: &RadixCiphertext, stream: &CudaStream)
        requires
            old(self).wf(),
            radix.blocks@.len() == old(self).d_blocks.lwe_ciphertext_count,
            uniform_stride(*radix, old(self).d_blocks.lwe_size as int),
        ensures
            final(self).holds(*radix),
            final(self).d_blocks.lwe_size == old(self).d_blocks.lwe_size,
            final(self).d_blocks.lwe_ciphertext_count == old(self).d_blocks.lwe_ciphertext_count,
            final(self).d_blocks.d_vec.gpu_index == old(self).d_blocks.d_vec.gpu_index,
    {
        let h_radix_ciphertext = flatten_containers(radix);
        proof {
            lemma_flatten_uniform(containers(*radix), self.d_blocks.lwe_size as int);
            vstd::arithmetic::mul::lemma_mul_is_commutative(
                radix.blocks@.len() as int,
                self.d_blocks.lwe_size as int,
            );
        }
        let n = h_radix_ciphertext.len();
        let mut k: usize = 0;
        while k < n
            invariant
                n == h_radix_ciphertext@.len(),
                n == self.d_blocks.d_vec.data@.len(),
                k <= n,
                self.d_blocks.lwe_size == old(self).d_blocks.lwe_size,
                self.d_blocks.lwe_ciphertext_count == old(self).d_blocks.lwe_ciphertext_count,
                self.d_blocks.d_vec.gpu_index == old(self).d_blocks.d_vec.gpu_index,
                self.info == old(self).info,
                forall|j: int| 0 <= j < k ==> #[trigger] self.d_blocks.d_vec.data@[j]
                    == h_radix_ciphertext@[j],
            decreases n - k,
        {
            self.d_blocks.d_vec.data[k] = h_radix_ciphertext[k];
            k = k + 1;
        }
        assert(self.d_blocks.d_vec.data@ =~= h_radix_ciphertext@);
        stream.synchronize();
        self.info = CudaRadixCiphertextInfo { blocks: block_infos(radix) };
    }

    /// Copies the ciphertext back to the host: block `i` takes the `i`-th stretch of
    /// `lwe_size` words of the buffer and metadata entry `i`.
    pub fn to_radix_ciphertext(&self, stream: &CudaStream) -> (r: RadixCiphertext)
        requires
            self.wf(),
        ensures
            self.reads_back_as(r),
    {
        let s = self.d_blocks.lwe_size;
        let count = self.d_blocks.lwe_ciphertext_count;
        let data = &self.d_blocks.d_vec.data;
        let total = data.len();
        let mut blocks: Vec<Ciphertext> = Vec::new();
        let mut i: usize = 0;
        while i < count
            invariant
                self.wf(),
                s == self.d_blocks.lwe_size,
                count == self.d_blocks.lwe_ciphertext_count,
                data == &self.d_blocks.d_vec.data,
                total == data@.len(),
                i <= count,
                blocks@.len() == i,
                forall|j: int|
                    0 <= j < i ==> {
                        &&& (#[trigger] blocks@[j]).ct@ == data@.subrange(
                            j * s,
                            j * s + s,
                        )
                        &&& self.info.blocks@[j].describes(blocks@[j])
                    },
            decreases count - i,
        {
            proof {
                assert(i * s + s <= count * s) by (nonlinear_arith)
                    requires
                        i < count,
                        s >= 1,
                ;
                assert(0 <= i * s) by (nonlinear_arith)
                    requires
                        s >= 1,
                ;
            }
            let start = i * s;
            let mut ct: Vec<u64> = Vec::new();
            let mut k: usize = 0;
            while k < s
                invariant
                    start + s <= total,
                    total == data@.len(),
                    k <= s,
                    ct@ == data@.subrange(start as int, start + k),
                decreases s - k,
            {
                ct.push(data[start + k]);
                k = k + 1;
            }
            let info = self.info.blocks[i];
            blocks.push(
                Ciphertext {
                    ct,
                    degree: info.degree,
                    noise_level: info.noise_level,
                    message_modulus: info.message_modulus,
                    carry_modulus: info.carry_modulus,
                    pbs_order: info.pbs_order,
                },
            );
            i = i + 1;
        }
        RadixCiphertext { blocks }
    }

    /// Starts a device-to-device copy into a new buffer on `stream`; the copy is done
    /// once the stream is synchronized, and the source must be kept until then.
    pub fn duplicate_async(&self, stream: &CudaStream) -> (r: Self)
        ensures
            r.same_content(self),
            r.d_blocks.d_vec.gpu_index == stream.gpu_index,
    {
        let src = &self.d_blocks.d_vec.data;
        let mut data: Vec<u64> = Vec::new();
        let mut k: usize = 0;
        while k < src.len()
            invariant
                k <= src@.len(),
                data@ == src@.subrange(0, k as int),
            decreases src@.len() - k,
        {
            data.push(src[k]);
            k = k + 1;
        }
        assert(data@ =~= src@);
        let mut infos: Vec<CudaBlockInfo> = Vec::new();
        let mut i: usize = 0;
        while i < self.info.blocks.len()
            invariant
                i <= self.info.blocks@.len(),
                infos@ == self.info.blocks@.subrange(0, i as int),
            decreases self.info.blocks@.len() - i,
        {
            infos.push(self.info.blocks[i]);
            i = i + 1;
        }
        assert(infos@ =~= self.info.blocks@);
        let d_vec = CudaVec { data, gpu_index: stream.gpu_index };
        let d_blocks = CudaLweCiphertextList {
            d_vec,
            lwe_size: self.d_blocks.lwe_size,
            lwe_ciphertext_count: self.d_blocks.lwe_ciphertext_count,
        };
        Self { d_blocks, info: CudaRadixCiphertextInfo { blocks: infos } }
    }

    /// A copy of the ciphertext in a new buffer of its own, synchronized before it is
    /// handed out.
    pub fn duplicate(&self, stream: &CudaStream) -> (r: Self)
        ensures
            r.same_content(self),
            r.d_blocks.d_vec.gpu_index == stream.gpu_index,
    {
        let ct = self.duplicate_async(stream);
        stream.synchronize();
        ct
    }

    /// Whether the two buffers hold exactly the same words. This compares ciphertext bit
    /// patterns, not plaintexts.
    pub fn is_equal(&self, other: &Self, stream: &CudaStream) -> (r: bool)
        ensures
            r == (self.d_blocks.d_vec.data@ == other.d_blocks.d_vec.data@),
    {
        let a = &self.d_blocks.d_vec.data;
        let b = &other.d_blocks.d_vec.data;
        stream.synchronize();
        if a.len() != b.len() {
            return false;
        }
        let mut k: usize = 0;
        while k < a.len()
            invariant
                a@ == self.d_blocks.d_vec.data@,
                b@ == other.d_blocks.d_vec.data@,
                a@.len() == b@.len(),
                k <= a@.len(),
                forall|j: int| 0 <= j < k ==> a@[j] == b@[j],
            decreases a@.len() - k,
        {
            if a[k] != b[k] {
                assert(a@[k as int] != b@[k as int]);
                assert(a@ != b@);
                return false;
            }
            k = k + 1;
        }
        assert(a@ =~= b@);
        true
    }

    /// Every block's metadata announces an empty carry.
    pub fn block_carries_are_empty(&self) -> (r: bool)
        ensures
            r == (forall|i: int|
                0 <= i < self.info.blocks@.len() ==> (#[trigger] self.info.blocks@[i]).degree
                    < self.info.blocks@[i].message_modulus),
    {
        let mut i: usize = 0;
        while i < self.info.blocks.len()
            invariant
                i <= self.info.blocks@.len(),
                forall|j: int|
                    0 <= j < i ==> (#[trigger] self.info.blocks@[j]).degree
                        < self.info.blocks@[j].message_modulus,
            decreases self.info.blocks@.len() - i,
        {
            if !self.info.blocks[i].carry_is_empty() {
                return false;
            }
            i = i + 1;
        }
        true
    }
}

/// The containers of the blocks of `radix`, one after the other.
fn flatten_containers(radix: &RadixCiphertext) -> (r: Vec<u64>)
    ensures
        r@ == flatten(containers(*radix)),
{
    let ghost cts = containers(*radix);
    let mut out: Vec<u64> = Vec::new();
    let mut i: usize = 0;
    while i < radix.blocks.len()
        invariant
            cts == containers(*radix),
            i <= radix.blocks@.len(),
            out@ == flatten(cts.subrange(0, i as int)),
        decreases radix.blocks@.len() - i,
    {
        let ct = &radix.blocks[i].ct;
        let ghost before = out@;
        let mut k: usize = 0;
        while k < ct.len()
            invariant
                k <= ct@.len(),
                out@ == before + ct@.subrange(0, k as int),
            decreases ct@.len() - k,
        {
            out.push(ct[k]);
            k = k + 1;
        }
        proof {
            let t = cts.subrange(0, i + 1);
            assert(t.drop_last() =~= cts.subrange(0, i as int));
            assert(t.last() == ct@);
            assert(ct@.subrange(0, ct@.len() as int) =~= ct@);
        }
        i = i + 1;
    }
    assert(cts.subrange(0, radix.blocks@.len() as int) =~= cts);
    out
}

/// The metadata of the blocks of `radix`, in order.
fn block_infos(radix: &RadixCiphertext) -> (r: Vec<CudaBlockInfo>)
    ensures
        r@.len() == radix.blocks@.len(),
        forall|i: int| 0 <= i < r@.len() ==> (#[trigger] r@[i]).describes(radix.blocks@[i]),
{
    let mut out: Vec<CudaBlockInfo> = Vec::new();
    let mut i: usize = 0;
    while i < radix.blocks.len()
        invariant
            i <= radix.blocks@.len(),
            out@.len() == i,
            forall|j: int| 0 <= j < i ==> (#[trigger] out@[j]).describes(radix.blocks@[j]),
        decreases radix.blocks@.len() - i,
    {
        let b = &radix.blocks[i];
        out.push(
            CudaBlockInfo {
                degree: b.degree,
                message_modulus: b.message_modulus,
                carry_modulus: b.carry_modulus,
                pbs_order: b.pbs_order,
                noise_level: b.noise_level,
            },
        );
        i = i + 1;
    }
    out
}

/// Copying a ciphertext to the device and back gives its blocks back unchanged, so it
/// decrypts as before.
pub proof fn lemma_device_round_trip(c: RadixCiphertext, d: CudaRadixCiphertext, h: RadixCiphertext)
    requires
        d.holds(c),
        d.reads_back_as(h),
    ensures
        h.same_blocks(&c),
        h.decrypted() == c.decrypted(),
{
    let s = d.d_blocks.lwe_size as int;
    lemma_flatten_uniform(containers(c), s);
    assert forall|i: int| 0 <= i < h.blocks@.len() implies (#[trigger] h.blocks@[i]).ct@
        == c.blocks@[i].ct@ by {
        assert(containers(c)[i] == c.blocks@[i].ct@);
    }
    assert(h.bodies() =~= c.bodies());
}

/// A duplicate reads back as the ciphertext its source held when it was made. It owns a
/// buffer of its own, so what is written to the source afterwards does not reach it.
pub proof fn lemma_duplicate_isolation(
    c: RadixCiphertext,
    source: CudaRadixCiphertext,
    dup: CudaRadixCiphertext,
    h: RadixCiphertext,
)
    requires
        source.holds(c),
        dup.same_content(&source),
        dup.reads_back_as(h),
    ensures
        h.same_blocks(&c),
        h.decrypted() == c.decrypted(),
{
    assert(dup.holds(c)) by {
        assert forall|i: int| 0 <= i < c.blocks@.len() implies (#[trigger] dup.info.blocks@[i]).describes(
            c.blocks@[i],
        ) by {
            assert(source.info.blocks@[i].describes(c.blocks@[i]));
        }
    }
    lemma_device_round_trip(c, dup, h);
}

} // verus!
