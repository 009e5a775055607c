use tfhe_radix::{Ciphertext, PBSOrder, RadixCiphertext, ServerKey};

fn key() -> ServerKey {
    ServerKey::new(5, 4, 4, 5, PBSOrder::KeyswitchBootstrap)
}

fn assert_clean(c: &RadixCiphertext) {
    for b in &c.blocks {
        assert!(b.degree < b.message_modulus);
        assert!(b.noise_level <= 1);
    }
}

#[test]
fn smart_add_fourteen_and_ninety_seven() {
    let sks = key();
    let mut ct1 = sks.create_trivial_radix(14, 4);
    let mut ct2 = sks.create_trivial_radix(97, 4);
    let res = sks.smart_add_parallelized(&mut ct1, &mut ct2);
    assert_eq!(res.decrypt_trivial(), 111);
    assert_eq!(ct1.decrypt_trivial(), 14);
    assert_eq!(ct2.decrypt_trivial(), 97);
    assert_clean(&ct1);
    assert_clean(&ct2);
}

#[test]
fn trivial_encryption_splits_digits() {
    let sks = key();
    let ct = sks.create_trivial_radix(14, 4);
    let digits: Vec<u64> = ct.blocks.iter().map(|b| *b.ct.last().unwrap()).collect();
    assert_eq!(digits, vec![2, 3, 0, 0]);
    assert!(ct.blocks.iter().all(|b| b.ct.len() == 5));
    assert_eq!(ct.decrypt_trivial(), 14);
}

#[test]
fn trivial_encryption_wraps_modulo_radix() {
    let sks = key();
    assert_eq!(sks.create_trivial_radix(300, 4).decrypt_trivial(), 44);
    assert_eq!(sks.create_trivial_radix(255, 4).decrypt_trivial(), 255);
    assert_eq!(sks.create_trivial_radix(256, 4).decrypt_trivial(), 0);
}

#[test]
fn unchecked_add_sums_modulo_radix() {
    let sks = key();
    let a = sks.create_trivial_radix(200, 4);
    let b = sks.create_trivial_radix(100, 4);
    assert!(sks.is_add_possible(&a, &b));
    let r = sks.unchecked_add(&a, &b);
    assert_eq!(r.decrypt_trivial(), 44);
    for i in 0..4 {
        assert_eq!(r.blocks[i].degree, a.blocks[i].degree + b.blocks[i].degree);
        assert_eq!(r.blocks[i].noise_level, 0);
    }
}

#[test]
fn unchecked_add_assign_writes_into_left() {
    let sks = key();
    let mut a = sks.create_trivial_radix(21, 4);
    let b = sks.create_trivial_radix(34, 4);
    sks.unchecked_add_assign(&mut a, &b);
    assert_eq!(a.decrypt_trivial(), 55);
    assert_eq!(b.decrypt_trivial(), 34);
}

#[test]
fn add_possible_rejects_degree_overflow() {
    let sks = key();
    let a = sks.create_trivial_radix(255, 4);
    let a2 = sks.unchecked_add(&a, &a);
    let a4 = sks.unchecked_add(&a2, &a2);
    assert_eq!(a4.blocks[0].degree, 12);
    assert!(sks.is_add_possible(&a, &a4));
    assert!(!sks.is_add_possible(&a4, &a4));
}

fn noisy_block(sks: &ServerKey, noise_level: u64) -> Ciphertext {
    let mut b = sks.create_trivial_radix(1, 1).blocks[0].clone();
    b.noise_level = noise_level;
    b
}

#[test]
fn add_possible_rejects_noise_overflow() {
    let sks = key();
    let a = RadixCiphertext { blocks: vec![noisy_block(&sks, 3)] };
    let b = RadixCiphertext { blocks: vec![noisy_block(&sks, 2)] };
    let c = RadixCiphertext { blocks: vec![noisy_block(&sks, 3)] };
    assert!(sks.is_add_possible(&a, &b));
    assert!(!sks.is_add_possible(&a, &c));
}

#[test]
fn full_propagate_keeps_value_and_cleans() {
    let sks = key();
    let a = sks.create_trivial_radix(255, 4);
    let a2 = sks.unchecked_add(&a, &a);
    let mut a4 = sks.unchecked_add(&a2, &a2);
    assert_eq!(a4.decrypt_trivial(), 252);
    sks.full_propagate_parallelized(&mut a4);
    assert_eq!(a4.decrypt_trivial(), 252);
    assert_clean(&a4);
    assert!(a4.blocks.iter().all(|b| b.noise_level == 1 && b.degree == 3));
    let digits: Vec<u64> = a4.blocks.iter().map(|b| *b.ct.last().unwrap()).collect();
    assert_eq!(digits, vec![0, 3, 3, 3]);
}

#[test]
fn smart_add_propagates_when_headroom_is_gone() {
    let sks = key();
    let a = sks.create_trivial_radix(255, 4);
    let a2 = sks.unchecked_add(&a, &a);
    let mut x = sks.unchecked_add(&a2, &a2);
    let mut y = sks.unchecked_add(&a2, &a2);
    assert!(!sks.is_add_possible(&x, &y));
    let r = sks.smart_add_parallelized(&mut x, &mut y);
    assert_eq!(r.decrypt_trivial(), (4 * 255 + 4 * 255) % 256);
    assert!(r.blocks.iter().all(|b| b.degree == 6 && b.noise_level == 2));
    assert_eq!(x.decrypt_trivial(), 252);
    assert_eq!(y.decrypt_trivial(), 252);
    assert_clean(&x);
    assert_clean(&y);
}

#[test]
fn smart_add_leaves_operands_alone_when_possible() {
    let sks = key();
    let a = sks.create_trivial_radix(255, 4);
    let mut x = sks.unchecked_add(&a, &a);
    let mut y = sks.create_trivial_radix(1, 4);
    let r = sks.smart_add_parallelized(&mut x, &mut y);
    assert_eq!(r.decrypt_trivial(), (510 + 1) % 256);
    assert_eq!(x.blocks[0].degree, 6);
    let degrees: Vec<u64> = r.blocks.iter().map(|b| b.degree).collect();
    assert_eq!(degrees, vec![7, 6, 6, 6]);
}

#[test]
fn smart_add_assign_propagates_both() {
    let sks = key();
    let a = sks.create_trivial_radix(255, 4);
    let a2 = sks.unchecked_add(&a, &a);
    let mut x = sks.unchecked_add(&a2, &a2);
    let mut y = sks.unchecked_add(&a2, &a2);
    sks.smart_add_assign_parallelized(&mut x, &mut y);
    assert_eq!(x.decrypt_trivial(), (252 + 252) % 256);
    assert_eq!(y.decrypt_trivial(), 252);
    assert_clean(&y);
    assert!(x.blocks.iter().all(|b| b.degree == 6 && b.noise_level == 2));
    assert!(y.blocks.iter().all(|b| b.degree == 3 && b.noise_level == 1));
}

#[test]
fn smart_add_assign_without_propagation_sums_metadata() {
    let sks = key();
    let a = sks.create_trivial_radix(255, 4);
    let mut x = sks.unchecked_add(&a, &a);
    let mut y = sks.create_trivial_radix(1, 4);
    sks.smart_add_assign_parallelized(&mut x, &mut y);
    assert_eq!(x.decrypt_trivial(), (510 + 1) % 256);
    let degrees: Vec<u64> = x.blocks.iter().map(|b| b.degree).collect();
    assert_eq!(degrees, vec![7, 6, 6, 6]);
    assert_eq!(y.blocks[0].degree, 1);
}

#[test]
fn smart_add_and_assign_leave_the_same_state() {
    let sks = key();
    let a = sks.create_trivial_radix(255, 4);
    let a2 = sks.unchecked_add(&a, &a);
    let mut x1 = sks.unchecked_add(&a2, &a2);
    let mut y1 = sks.unchecked_add(&a2, &a2);
    let mut x2 = x1.clone();
    let mut y2 = y1.clone();
    let r = sks.smart_add_parallelized(&mut x1, &mut y1);
    sks.smart_add_assign_parallelized(&mut x2, &mut y2);
    assert_eq!(r.decrypt_trivial(), x2.decrypt_trivial());
    for i in 0..4 {
        assert_eq!(r.blocks[i].ct, x2.blocks[i].ct);
        assert_eq!(r.blocks[i].degree, x2.blocks[i].degree);
        assert_eq!(r.blocks[i].noise_level, x2.blocks[i].noise_level);
        assert_eq!(y1.blocks[i].ct, y2.blocks[i].ct);
        assert_eq!(y1.blocks[i].degree, y2.blocks[i].degree);
    }
}

#[test]
fn duplicate_copies_every_block() {
    let sks = key();
    let a = sks.create_trivial_radix(123, 4);
    let d = a.duplicate();
    assert_eq!(d.blocks.len(), 4);
    for i in 0..4 {
        assert_eq!(d.blocks[i].ct, a.blocks[i].ct);
        assert_eq!(d.blocks[i].degree, a.blocks[i].degree);
    }
    assert_eq!(d.decrypt_trivial(), 123);
}
