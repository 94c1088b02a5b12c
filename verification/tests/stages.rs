use block_id::add_mod::add_mod;
use block_id::add_mod::sub_mod;
use block_id::BaseConversion;
use block_id::BlockIdError;
use block_id::Cascade;
use block_id::Permutation;
use block_id::Permute;
use block_id::Rotate;

#[test]
fn test_add_mod() {
    assert_eq!(1, add_mod(4, 5, 8));

    assert_eq!(4, add_mod(200, 58, 254));
    assert_eq!(5, add_mod(200, 58, 253));

    assert_eq!(8, add_mod(200, 58, 250));

    assert_eq!(222, add_mod(233, 233, 244));
}

#[test]
fn test_sub_mod() {
    assert_eq!(1, sub_mod(6, 5, 10));
    assert_eq!(9, sub_mod(5, 6, 10));
}

#[test]
fn test_rotate() {
    let rot: Rotate<u8> = Rotate::new();
    let before = vec![4, 5, 6, 7, 8];
    let after = vec![5, 6, 7, 8, 4];

    assert_eq!(after.clone(), rot.forward(before.clone()));
    assert_eq!(before, rot.backward(after));
}

#[test]
fn test_rotate_short() {
    let rot: Rotate<u8> = Rotate::new();
    assert_eq!(Vec::<u8>::new(), rot.forward(Vec::new()));
    assert_eq!(Vec::<u8>::new(), rot.backward(Vec::new()));
    assert_eq!(vec![9], rot.forward(vec![9]));
    assert_eq!(vec![9], rot.backward(vec![9]));
}

#[test]
fn test_cascade() {
    {
        let cascade = Cascade::new(26);
        let input = vec![16, 16, 25];
        let expected = vec![16, 6, 5];

        assert_eq!(expected, cascade.forward(input).unwrap());
    }

    {
        let cascade = Cascade::new(123);
        let input = vec![5, 9, 120, 5, 7, 15];
        let expected = vec![5, 14, 11, 16, 23, 38];

        assert_eq!(expected, cascade.forward(input).unwrap());
    }
}

#[test]
fn test_inverse() {
    let cascade = Cascade::new(123);
    let input = vec![5, 9, 120, 5, 7, 15];
    let expected = vec![5, 14, 11, 16, 23, 38];

    assert_eq!(input, cascade.backward(expected).unwrap());
}

#[test]
fn cascade_test_round_trip() {
    let cascade = Cascade::new(26);
    let input = vec![16, 16, 25];

    let output = cascade.forward(input.clone()).unwrap();
    assert_eq!(input, cascade.backward(output).unwrap());
}

#[test]
fn test_cascade_out_of_range() {
    let cascade = Cascade::new(26);
    assert_eq!(
        Err(BlockIdError::OutOfRange),
        cascade.forward(vec![3, 30, 5])
    );
    assert_eq!(
        Err(BlockIdError::OutOfRange),
        cascade.backward(vec![3, 30, 5])
    );
}

#[test]
fn test_base_convert() {
    assert_eq!(vec![5], BaseConversion::new(128).forward(5));

    assert_eq!(vec![1, 0, 1, 0], BaseConversion::new(2).forward(10));

    assert_eq!(vec![1, 0, 1], BaseConversion::new(3).forward(10));
    assert_eq!(vec![1, 0, 2], BaseConversion::new(3).forward(11));
    assert_eq!(vec![1, 1, 0], BaseConversion::new(3).forward(12));
    assert_eq!(vec![1, 0, 0, 0], BaseConversion::new(3).forward(27));
}

#[test]
fn test_base_invert() {
    assert_eq!(5, BaseConversion::new(128).backward(vec![5]).unwrap());

    assert_eq!(10, BaseConversion::new(2).backward(vec![1, 0, 1, 0]).unwrap());

    assert_eq!(10, BaseConversion::new(3).backward(vec![1, 0, 1]).unwrap());
    assert_eq!(11, BaseConversion::new(3).backward(vec![1, 0, 2]).unwrap());
    assert_eq!(12, BaseConversion::new(3).backward(vec![1, 1, 0]).unwrap());
    assert_eq!(27, BaseConversion::new(3).backward(vec![1, 0, 0, 0]).unwrap());
}

#[test]
fn test_grind() {
    for base in 2..125 {
        for num in 88..99 {
            let conv = BaseConversion::new(base);
            let digits = conv.forward(num);
            assert_eq!(num, conv.backward(digits).unwrap());
        }
    }
}

#[test]
fn test_base_overflow() {
    let conv = BaseConversion::new(10);
    let digits: Vec<u8> = vec![9; 21];
    assert_eq!(Err(BlockIdError::Overflow), conv.backward(digits));
}

#[test]
fn test_base_min_length_padding() {
    let conv = BaseConversion::new_with_min_length(10, 6);
    assert_eq!(vec![0, 0, 0, 1, 2, 3], conv.forward(123));
    assert_eq!(123, conv.backward(vec![0, 0, 0, 1, 2, 3]).unwrap());
}

#[test]
fn test_permutation() {
    let perm = Permutation::new(vec![3, 1, 0, 2]).unwrap();

    assert_eq!(3, perm.forward(0).unwrap());
    assert_eq!(1, perm.forward(1).unwrap());
    assert_eq!(0, perm.forward(2).unwrap());
    assert_eq!(2, perm.forward(3).unwrap());

    assert_eq!(1, perm.backward(1).unwrap());
    assert_eq!(0, perm.backward(3).unwrap());
    assert_eq!(2, perm.backward(0).unwrap());
    assert_eq!(3, perm.backward(2).unwrap());
}

#[test]
fn test_permutation_duplicate_error() {
    assert_eq!(
        Err(BlockIdError::DuplicateValue),
        Permutation::new(vec![3, 0, 1, 3]).map(|_| ())
    );
}

#[test]
fn test_permutation_bound_error() {
    assert_eq!(
        Err(BlockIdError::ValueOutOfRange),
        Permutation::new(vec![3, 1]).map(|_| ())
    );
}

#[test]
fn test_permutation_out_of_range_digit() {
    let perm = Permutation::new(vec![1, 0]).unwrap();
    assert_eq!(Err(BlockIdError::OutOfRange), perm.forward(2));
    assert_eq!(Err(BlockIdError::OutOfRange), perm.backward(5));
}

#[test]
fn test_random_permutation() {
    for seed in 0..100 {
        for length in 1..30 {
            Permutation::new_from_seed(seed, length);
        }
    }
}

#[test]
fn test_permutation_seed_determinism() {
    for seed in [0u128, 1, 118, 987654321] {
        let p1 = Permutation::new_from_seed(26, seed);
        let p2 = Permutation::new_from_seed(26, seed);
        assert_eq!(p1.table, p2.table);
        assert_eq!(p1.inverse, p2.inverse);
    }
}

#[test]
fn test_seeded_permutation_not_identity() {
    let identity: Vec<u8> = (0..26).collect();
    let mut shuffled_somewhere = false;
    for seed in 0..8u128 {
        if Permutation::new_from_seed(26, seed).table != identity {
            shuffled_somewhere = true;
        }
    }
    assert!(shuffled_somewhere);
}

#[test]
fn test_random() {
    let perm = Permute::new_from_seed(26, 118);

    let input = vec![24, 14];

    let output = perm.forward(input.clone()).unwrap();
    assert_eq!(input, perm.backward(output).unwrap());
}
