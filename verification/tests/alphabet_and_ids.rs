use block_id::Alphabet;
use block_id::BlockId;
use block_id::BlockIdError;

#[test]
fn test_duplicate() {
    assert_eq!(
        Err(BlockIdError::DuplicateSymbol),
        Alphabet::new(&['b', 'l', 'a', 'h', 'b', 'c']).map(|_| ())
    );
}

#[test]
fn test_too_long() {
    let chars: Vec<u16> = (0..30000).collect();
    assert_eq!(
        Err(BlockIdError::AlphabetTooLarge),
        Alphabet::new(&chars).map(|_| ())
    );
}

#[test]
fn test_invalid_character() {
    let chars = Alphabet::lowercase_alpha();
    assert_eq!(Err(BlockIdError::UnknownSymbol), chars.backward('!'));

    assert_eq!(Err(BlockIdError::OutOfRange), chars.forward(26));
}

#[test]
fn test_forward() {
    let chars: Vec<char> = "abcdefghijklmnopqrstuvwxyz".chars().collect();
    let alpha = Alphabet::new(&chars).unwrap();

    assert_eq!(26, alpha.len());

    assert_eq!('a', alpha.forward(0).unwrap());
    assert_eq!('z', alpha.forward(25).unwrap());
}

#[test]
fn test_backward() {
    let chars: Vec<char> = "abcdefghijklmnopqrstuvwxyz".chars().collect();
    let alpha = Alphabet::new(&chars).unwrap();

    assert_eq!(0, alpha.backward('a').unwrap());
    assert_eq!(25, alpha.backward('z').unwrap());
}

#[test]
fn alphabet_test_round_trip() {
    let chars: Vec<char> = "abcdefghijklmnopqrstuvwxyzABCDEFGHIJKLMNOPQRSTUVWXYZ"
        .chars()
        .collect();
    let alpha = Alphabet::new(&chars).unwrap();

    assert_eq!(52, alpha.len());

    for i in 0..chars.len() as u8 {
        let c = alpha.forward(i).unwrap();
        let v = alpha.backward(c).unwrap();

        assert_eq!(i, v);
    }
}

#[test]
fn test_generic_symbol_alphabet() {
    let alpha: Alphabet<u32> = Alphabet::new(&[1234, 5678, 2345]).unwrap();
    assert_eq!(3, alpha.len());
    assert_eq!(5678, alpha.forward(1).unwrap());
    assert_eq!(2, alpha.backward(2345).unwrap());

    let id = BlockId::new(alpha, 7, 3);
    for n in 0..50 {
        let code = id.encode(n).unwrap();
        assert_eq!(n, id.decode(code).unwrap());
    }
}

#[test]
fn test_builtin_alphabets() {
    assert_eq!(62, Alphabet::alphanumeric().len());
    assert_eq!(36, Alphabet::lowercase_alphanumeric().len());
    assert_eq!(26, Alphabet::lowercase_alpha().len());

    assert_eq!('0', Alphabet::alphanumeric().forward(0).unwrap());
    assert_eq!('a', Alphabet::alphanumeric().forward(10).unwrap());
    assert_eq!('Z', Alphabet::alphanumeric().forward(61).unwrap());
    assert_eq!('z', Alphabet::lowercase_alphanumeric().forward(35).unwrap());
    assert_eq!('a', Alphabet::lowercase_alpha().forward(0).unwrap());
}

#[test]
fn test_round_trip() {
    let permuter = BlockId::new(Alphabet::lowercase_alpha(), 118, 4);

    for i in 600..800 {
        let code = permuter.encode(i).unwrap();
        assert_eq!(i, permuter.decode(code).unwrap());
    }
}

#[test]
fn test_debug() {
    let block1 = BlockId::new(Alphabet::lowercase_alpha(), 118, 4);
    assert_eq!("BlockId with alphabet size 26", block1.description());

    let block2 = BlockId::new(Alphabet::alphanumeric(), 118, 4);
    assert_eq!("BlockId with alphabet size 62", block2.description());
}

#[test]
fn test_encode_decode_strings() {
    let permuter = BlockId::new(Alphabet::alphanumeric(), 19, 6);
    for n in [0u64, 1, 42, 600, u64::MAX] {
        let code = permuter.encode_string(n);
        assert!(code.chars().count() >= 6);
        assert_eq!(n, permuter.decode_string(&code).unwrap());
    }
}

#[test]
fn test_unknown_symbol_string() {
    let permuter = BlockId::new(Alphabet::lowercase_alpha(), 118, 4);
    assert_eq!(
        Err(BlockIdError::UnknownSymbol),
        permuter.decode_string("ab!d")
    );
}

#[test]
fn test_avalanche_sampled() {
    let permuter = BlockId::new(Alphabet::lowercase_alpha(), 118, 4);
    let mut multi_position_changes: u32 = 0;
    let samples: u64 = 200;
    for n in 0..samples {
        let a = permuter.encode(n).unwrap();
        let b = permuter.encode(n + 1).unwrap();
        assert_eq!(a.len(), b.len());
        let differing = a.iter().zip(b.iter()).filter(|(x, y)| x != y).count();
        if differing > 1 {
            multi_position_changes += 1;
        }
    }
    // Diffusion regression check: adjacent inputs should almost always
    // change more than one output position.
    assert!(multi_position_changes as u64 * 10 >= samples * 8);
}
