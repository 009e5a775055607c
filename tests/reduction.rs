use tfhe_radix::{PBSOrder, RadixCiphertext, ServerKey, SmartAdd};

fn key() -> ServerKey {
    ServerKey::new(3, 4, 4, 5, PBSOrder::KeyswitchBootstrap)
}

fn encrypt_all(sks: &ServerKey, values: &[u64], num_blocks: usize) -> Vec<RadixCiphertext> {
    values.iter().map(|v| sks.create_trivial_radix(*v, num_blocks)).collect()
}

#[test]
fn reduce_five_values_with_add() {
    let sks = key();
    let mut cts = encrypt_all(&sks, &[3, 1, 4, 1, 5], 4);
    let r = sks.smart_binary_op_seq_parallelized(&mut cts, &SmartAdd).unwrap();
    assert_eq!(r.decrypt_trivial(), 14);
    let values: Vec<u64> = cts.iter().map(|c| c.decrypt_trivial()).collect();
    assert_eq!(values, vec![3, 1, 4, 1, 5]);
}

#[test]
fn reduce_empty_gives_nothing() {
    let sks = key();
    let mut cts: Vec<RadixCiphertext> = Vec::new();
    assert!(sks.smart_binary_op_seq_parallelized(&mut cts, &SmartAdd).is_none());
}

#[test]
fn reduce_single_gives_a_copy() {
    let sks = key();
    let mut cts = encrypt_all(&sks, &[42], 4);
    let r = sks.smart_binary_op_seq_parallelized(&mut cts, &SmartAdd).unwrap();
    assert_eq!(r.decrypt_trivial(), 42);
    assert_eq!(r.blocks.len(), 4);
    for i in 0..4 {
        assert_eq!(r.blocks[i].ct, cts[0].blocks[i].ct);
        assert_eq!(r.blocks[i].degree, cts[0].blocks[i].degree);
    }
}

#[test]
fn reduce_two_and_three_values() {
    let sks = key();
    let mut two = encrypt_all(&sks, &[200, 100], 4);
    assert_eq!(sks.smart_binary_op_seq_parallelized(&mut two, &SmartAdd).unwrap().decrypt_trivial(), 44);
    let mut three = encrypt_all(&sks, &[7, 8, 9], 4);
    assert_eq!(sks.smart_binary_op_seq_parallelized(&mut three, &SmartAdd).unwrap().decrypt_trivial(), 24);
}

#[test]
fn reduce_hundred_values() {
    let sks = key();
    let values: Vec<u64> = (0..100).collect();
    let mut cts = encrypt_all(&sks, &values, 8);
    let r = sks.smart_binary_op_seq_parallelized(&mut cts, &SmartAdd).unwrap();
    assert_eq!(r.decrypt_trivial(), 4950);
}

#[test]
fn reduce_many_maximal_values_wraps() {
    let sks = key();
    let values: Vec<u64> = vec![255; 37];
    let mut cts = encrypt_all(&sks, &values, 4);
    let r = sks.smart_binary_op_seq_parallelized(&mut cts, &SmartAdd).unwrap();
    assert_eq!(r.decrypt_trivial(), (255 * 37) % 256);
}

#[test]
fn reduce_matches_left_fold_for_each_length() {
    let sks = key();
    for k in 1..=20u64 {
        let values: Vec<u64> = (0..k).map(|i| (i * 37 + 11) % 256).collect();
        let expected = values.iter().sum::<u64>() % 256;
        let mut cts = encrypt_all(&sks, &values, 4);
        let r = sks.smart_binary_op_seq_parallelized(&mut cts, &SmartAdd).unwrap();
        assert_eq!(r.decrypt_trivial(), expected);
    }
}
