use tfhe_radix::{
    CudaBlockInfo, CudaLweCiphertextList, CudaRadixCiphertext, CudaRadixCiphertextInfo,
    CudaStream, CudaVec, PBSOrder, RadixCiphertext, ServerKey,
};

fn assert_same_blocks(a: &RadixCiphertext, b: &RadixCiphertext) {
    assert_eq!(a.blocks.len(), b.blocks.len());
    for (x, y) in a.blocks.iter().zip(&b.blocks) {
        assert_eq!(x.ct, y.ct);
        assert_eq!(x.degree, y.degree);
        assert_eq!(x.noise_level, y.noise_level);
        assert_eq!(x.message_modulus, y.message_modulus);
        assert_eq!(x.carry_modulus, y.carry_modulus);
        assert_eq!(x.pbs_order, y.pbs_order);
    }
}

#[test]
fn round_trip_for_every_block_count() {
    let sks = ServerKey::new(4, 2, 2, 5, PBSOrder::BootstrapKeyswitch);
    let stream = CudaStream::new(0);
    for n in 1..=32usize {
        let value = 0x9E37_79B9u64 % (1u64 << n);
        let c = sks.create_trivial_radix(value, n);
        let d = CudaRadixCiphertext::from_radix_ciphertext(&c, &stream);
        assert_eq!(d.d_blocks.d_vec.len(), 4 * n);
        assert_eq!(d.d_blocks.lwe_ciphertext_count, n);
        let h = d.to_radix_ciphertext(&stream);
        assert_same_blocks(&h, &c);
        assert_eq!(h.decrypt_trivial(), value);
    }
}

#[test]
fn round_trip_keeps_metadata() {
    let sks = ServerKey::new(3, 4, 4, 5, PBSOrder::KeyswitchBootstrap);
    let stream = CudaStream::new(0);
    let a = sks.create_trivial_radix(255, 4);
    let c = sks.unchecked_add(&a, &a);
    let d = CudaRadixCiphertext::from_radix_ciphertext(&c, &stream);
    assert_eq!(d.info.blocks[0].degree, 6);
    assert!(!d.block_carries_are_empty());
    let h = d.to_radix_ciphertext(&stream);
    assert_same_blocks(&h, &c);
    assert_eq!(h.decrypt_trivial(), 254);
    let fresh = CudaRadixCiphertext::from_radix_ciphertext(&a, &stream);
    assert!(fresh.block_carries_are_empty());
}

#[test]
fn duplicate_is_isolated_from_source() {
    let sks = ServerKey::new(3, 4, 4, 5, PBSOrder::KeyswitchBootstrap);
    let stream = CudaStream::new(0);
    let c1 = sks.create_trivial_radix(10, 4);
    let c2 = sks.create_trivial_radix(77, 4);
    let mut d = CudaRadixCiphertext::from_radix_ciphertext(&c1, &stream);
    let dup = d.duplicate(&stream);
    assert!(dup.is_equal(&d, &stream));
    d.copy_from_radix_ciphertext(&c2, &stream);
    assert!(!dup.is_equal(&d, &stream));
    assert_eq!(dup.to_radix_ciphertext(&stream).decrypt_trivial(), 10);
    assert_eq!(d.to_radix_ciphertext(&stream).decrypt_trivial(), 77);
}

#[test]
fn duplicate_async_copies_after_synchronize() {
    let sks = ServerKey::new(3, 4, 4, 5, PBSOrder::KeyswitchBootstrap);
    let stream = CudaStream::new(1);
    let c = sks.create_trivial_radix(200, 4);
    let d = CudaRadixCiphertext::from_radix_ciphertext(&c, &stream);
    let dup = d.duplicate_async(&stream);
    stream.synchronize();
    assert!(dup.is_equal(&d, &stream));
    assert_eq!(dup.d_blocks.d_vec.gpu_index, 1);
    assert_eq!(dup.to_radix_ciphertext(&stream).decrypt_trivial(), 200);
}

#[test]
fn copy_from_overwrites_in_place() {
    let sks = ServerKey::new(3, 4, 4, 5, PBSOrder::KeyswitchBootstrap);
    let stream = CudaStream::new(0);
    let c1 = sks.create_trivial_radix(1, 4);
    let a = sks.create_trivial_radix(255, 4);
    let c2 = sks.unchecked_add(&a, &a);
    let mut d = CudaRadixCiphertext::from_radix_ciphertext(&c1, &stream);
    d.copy_from_radix_ciphertext(&c2, &stream);
    assert_eq!(d.d_blocks.d_vec.len(), 12);
    assert_eq!(d.info.blocks[3].degree, 6);
    assert_same_blocks(&d.to_radix_ciphertext(&stream), &c2);
}

#[test]
fn is_equal_compares_words() {
    let sks = ServerKey::new(3, 4, 4, 5, PBSOrder::KeyswitchBootstrap);
    let stream = CudaStream::new(0);
    let x = CudaRadixCiphertext::from_radix_ciphertext(&sks.create_trivial_radix(5, 4), &stream);
    let y = CudaRadixCiphertext::from_radix_ciphertext(&sks.create_trivial_radix(5, 4), &stream);
    let z = CudaRadixCiphertext::from_radix_ciphertext(&sks.create_trivial_radix(6, 4), &stream);
    let short = CudaRadixCiphertext::from_radix_ciphertext(&sks.create_trivial_radix(5, 2), &stream);
    assert!(x.is_equal(&y, &stream));
    assert!(!x.is_equal(&z, &stream));
    assert!(!x.is_equal(&short, &stream));
}

#[test]
fn new_assembles_parts() {
    let info = CudaRadixCiphertextInfo {
        blocks: vec![CudaBlockInfo {
            degree: 2,
            message_modulus: 4,
            carry_modulus: 4,
            pbs_order: PBSOrder::KeyswitchBootstrap,
            noise_level: 1,
        }],
    };
    let d_blocks = CudaLweCiphertextList {
        d_vec: CudaVec { data: vec![0, 0, 2], gpu_index: 0 },
        lwe_size: 3,
        lwe_ciphertext_count: 1,
    };
    let d = CudaRadixCiphertext::new(d_blocks, info);
    assert!(d.info.blocks[0].carry_is_empty());
    let h = d.to_radix_ciphertext(&CudaStream::new(0));
    assert_eq!(h.decrypt_trivial(), 2);
    assert_eq!(h.blocks[0].noise_level, 1);
}
