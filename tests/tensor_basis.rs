use std::cmp::Ordering;
use tensor_algebra::bits::make_mask;
use tensor_algebra::tensor_basis::{TensorBasis, TensorBasisIterator};
use tensor_algebra::tensor_key::{TensorKey, TensorKeyIterator};
use tensor_algebra::LetterType;

type Key = TensorKey<3>;
type Basis = TensorBasis<3>;
type IterT = TensorBasisIterator<3>;

#[test]
fn tensor_basis_test_make_mask_3_0() {
        assert_eq!(make_mask(3, 0), 0b111);
    }

#[test]
fn tensor_basis_test_make_mask_3_5() {
        assert_eq!(make_mask(3, 5), 0b11100000);
    }

#[test]
fn tensor_basis_test_make_mask_12_52() {
        assert_eq!(make_mask(12, 52), 0xFFF0000000000000);
    }

#[test]
fn tensor_basis_test_size_bits_common() {
        assert_eq!(TensorKey::<2>::size_bits(), 4);
        assert_eq!(TensorKey::<5>::size_bits(), 4);
        assert_eq!(TensorKey::<9>::size_bits(), 3);
        assert_eq!(TensorKey::<17>::size_bits(), 3);
        assert_eq!(TensorKey::<33>::size_bits(), 3);
    }

#[test]
fn tensor_basis_test_size_bits() {
        assert_eq!(Key::size_bits(), 4);
    }

#[test]
fn tensor_basis_test_size_mask() {
        let mask = Key::size_mask();

        assert_eq!(mask, 0xF000000000000000)
    }

#[test]
fn tensor_basis_test_letter_mask() {
        assert_eq!(Key::letter_mask(), 0b11);
    }

#[test]
fn tensor_basis_test_bits_per_letter_correct() {
        assert_eq!(Key::bits_per_letter(), 2);
    }

#[test]
fn tensor_basis_test_from_letter_each_letter() {
        assert_eq!(Key::from_letter(1).data(), 0u64);
        assert_eq!(Key::from_letter(2).data(), 1u64);
        assert_eq!(Key::from_letter(3).data(), 2u64);
    }

#[test]
fn tensor_basis_test_from_array() {
        let array: [LetterType; 3] = [1, 2, 1];

        let key = Key::from_letters(&array).unwrap();

        assert_eq!(key.data(), 0b000100)
    }

#[test]
fn tensor_basis_test_concatenate() {
        let key1 = Key::from_letter(3);
        let key2 = Key::from_letter(1);

        let result = key1.concatenate(&key2);

        assert_eq!(result.data(), (2u64 << 2) + 0u64)
    }

#[test]
fn tensor_basis_test_to_letters() {
        let key = Key::from_letters(&[1, 2, 1, 2, 3]).unwrap();
        assert_eq!(key.size(), 5);
        assert_eq!(key.to_letters(), vec![3,2,1,2,1]);
    }

#[test]
fn tensor_basis_test_equal_empty_key() {
        let key1 = Key::new();
        let key2 = Key::new();

        assert_eq!(key1, key2);
    }

#[test]
fn tensor_basis_test_not_equal_empty_vs_1_key() {
        let key1 = Key::new();
        let key2 = Key::from_letter(1);

        assert_ne!(key1, key2);
    }

#[test]
fn tensor_basis_test_not_equal_1_key_vs_2_key() {
        let key1 = Key::from_letter(1);
        let key2 = Key::from_letter(2);

        assert_ne!(key1, key2);
    }

#[test]
fn tensor_basis_test_key_to_index_empty_key() {
        let key = Key::new();

        assert_eq!(Basis::key_to_index(&key), 0);
    }

#[test]
fn tensor_basis_test_key_to_index_letters() {
        let key1 = Key::from_letter(1);
        let key2 = Key::from_letter(2);
        let key3 = Key::from_letter(3);

        assert_eq!(Basis::key_to_index(&key1), 1);
        assert_eq!(Basis::key_to_index(&key2), 2);
        assert_eq!(Basis::key_to_index(&key3), 3);
    }

#[test]
fn tensor_basis_test_key_to_index_depth_2() {
        let key4 = Key::from_letters(&[1, 1]).unwrap();
        let key5 = Key::from_letters(&[1, 2]).unwrap();
        let key6 = Key::from_letters(&[1, 3]).unwrap();
        let key7 = Key::from_letters(&[2, 1]).unwrap();
        let key8 = Key::from_letters(&[2, 2]).unwrap();
        let key9 = Key::from_letters(&[2, 3]).unwrap();
        let key10 = Key::from_letters(&[3, 1]).unwrap();
        let key11 = Key::from_letters(&[3, 2]).unwrap();
        let key12 = Key::from_letters(&[3, 3]).unwrap();

        assert_eq!(Basis::key_to_index(&key4), 4);
        assert_eq!(Basis::key_to_index(&key5), 5);
        assert_eq!(Basis::key_to_index(&key6), 6);
        assert_eq!(Basis::key_to_index(&key7), 7);
        assert_eq!(Basis::key_to_index(&key8), 8);
        assert_eq!(Basis::key_to_index(&key9), 9);
        assert_eq!(Basis::key_to_index(&key10), 10);
        assert_eq!(Basis::key_to_index(&key11), 11);
        assert_eq!(Basis::key_to_index(&key12), 12);
    }

#[test]
fn tensor_basis_test_key_to_index_depth_3() {
        let key13 = Key::from_letters(&[1, 1, 1]).unwrap();
        let key14 = Key::from_letters(&[1, 1, 2]).unwrap();
        let key15 = Key::from_letters(&[1, 1, 3]).unwrap();
        let key16 = Key::from_letters(&[1, 2, 1]).unwrap();
        let key17 = Key::from_letters(&[1, 2, 2]).unwrap();
        let key18 = Key::from_letters(&[1, 2, 3]).unwrap();
        let key19 = Key::from_letters(&[1, 3, 1]).unwrap();
        let key20 = Key::from_letters(&[1, 3, 2]).unwrap();
        let key21 = Key::from_letters(&[1, 3, 3]).unwrap();
        let key22 = Key::from_letters(&[2, 1, 1]).unwrap();
        let key23 = Key::from_letters(&[2, 1, 2]).unwrap();
        let key24 = Key::from_letters(&[2, 1, 3]).unwrap();
        let key25 = Key::from_letters(&[2, 2, 1]).unwrap();
        let key26 = Key::from_letters(&[2, 2, 2]).unwrap();
        let key27 = Key::from_letters(&[2, 2, 3]).unwrap();
        let key28 = Key::from_letters(&[2, 3, 1]).unwrap();
        let key29 = Key::from_letters(&[2, 3, 2]).unwrap();
        let key30 = Key::from_letters(&[2, 3, 3]).unwrap();
        let key31 = Key::from_letters(&[3, 1, 1]).unwrap();
        let key32 = Key::from_letters(&[3, 1, 2]).unwrap();
        let key33 = Key::from_letters(&[3, 1, 3]).unwrap();
        let key34 = Key::from_letters(&[3, 2, 1]).unwrap();
        let key35 = Key::from_letters(&[3, 2, 2]).unwrap();
        let key36 = Key::from_letters(&[3, 2, 3]).unwrap();
        let key37 = Key::from_letters(&[3, 3, 1]).unwrap();
        let key38 = Key::from_letters(&[3, 3, 2]).unwrap();
        let key39 = Key::from_letters(&[3, 3, 3]).unwrap();



        assert_eq!(Basis::key_to_index(&key13), 13);
        assert_eq!(Basis::key_to_index(&key14), 14);
        assert_eq!(Basis::key_to_index(&key15), 15);
        assert_eq!(Basis::key_to_index(&key16), 16);
        assert_eq!(Basis::key_to_index(&key17), 17);
        assert_eq!(Basis::key_to_index(&key18), 18);
        assert_eq!(Basis::key_to_index(&key19), 19);
        assert_eq!(Basis::key_to_index(&key20), 20);
        assert_eq!(Basis::key_to_index(&key21), 21);
        assert_eq!(Basis::key_to_index(&key22), 22);
        assert_eq!(Basis::key_to_index(&key23), 23);
        assert_eq!(Basis::key_to_index(&key24), 24);
        assert_eq!(Basis::key_to_index(&key25), 25);
        assert_eq!(Basis::key_to_index(&key26), 26);
        assert_eq!(Basis::key_to_index(&key27), 27);
        assert_eq!(Basis::key_to_index(&key28), 28);
        assert_eq!(Basis::key_to_index(&key29), 29);
        assert_eq!(Basis::key_to_index(&key30), 30);
        assert_eq!(Basis::key_to_index(&key31), 31);
        assert_eq!(Basis::key_to_index(&key32), 32);
        assert_eq!(Basis::key_to_index(&key33), 33);
        assert_eq!(Basis::key_to_index(&key34), 34);
        assert_eq!(Basis::key_to_index(&key35), 35);
        assert_eq!(Basis::key_to_index(&key36), 36);
        assert_eq!(Basis::key_to_index(&key37), 37);
        assert_eq!(Basis::key_to_index(&key38), 38);
        assert_eq!(Basis::key_to_index(&key39), 39);
    }

#[test]
fn tensor_basis_test_key_from_index_empty_key() {
        assert_eq!(
            Basis::index_to_key(0),
            Key::new()
        );
    }

#[test]
fn tensor_basis_test_key_from_index_letters() {
        for i in 1..=3 {
            assert_eq!(
                Basis::index_to_key(i),
                Key::from_letter(i as LetterType)
            )
        }
    }

#[test]
fn tensor_basis_test_key_from_index_depth_2() {
        assert_eq!(
            Basis::index_to_key(4),
            Key::from_letters(&[1, 1]).unwrap()
        );
        assert_eq!(
            Basis::index_to_key(5),
            Key::from_letters(&[1, 2]).unwrap()
        );
        assert_eq!(
            Basis::index_to_key(6),
            Key::from_letters(&[1, 3]).unwrap()
        );
        assert_eq!(
            Basis::index_to_key(7),
            Key::from_letters(&[2, 1]).unwrap()
        );
        assert_eq!(
            Basis::index_to_key(8),
            Key::from_letters(&[2, 2]).unwrap()
        );
        assert_eq!(
            Basis::index_to_key(9),
            Key::from_letters(&[2, 3]).unwrap()
        );
        assert_eq!(
            Basis::index_to_key(10),
            Key::from_letters(&[3, 1]).unwrap()
        );
        assert_eq!(
            Basis::index_to_key(11),
            Key::from_letters(&[3, 2]).unwrap()
        );
        assert_eq!(
            Basis::index_to_key(12),
            Key::from_letters(&[3, 3]).unwrap()
        );

    }

#[test]
fn tensor_basis_test_compare_key_ordering_smaller_key() {
        let key1 = Key::from_letters(&[1, 2, 3]).unwrap();
        let key2 = Key::from_letters(&[1, 2]).unwrap();

        assert_eq!(Basis::compare(&key1, &key2), Ordering::Greater);
        assert_eq!(Basis::compare(&key2, &key1), Ordering::Less);
    }

#[test]
fn tensor_basis_test_compare_equal_same_length() {
        let key1 = Key::from_letters(&[1, 2, 3]).unwrap();
        let key2 = Key::from_letters(&[2, 1, 3]).unwrap();

        assert_eq!(Basis::compare(&key1, &key2), Ordering::Less);
        assert_eq!(Basis::compare(&key2, &key1), Ordering::Greater);
    }

#[test]
fn tensor_basis_test_equal_keys_equal() {
        let key1 = Key::from_letters(&[1, 2, 3]).unwrap();
        let key2 = Key::from_letters(&[1, 2, 3]).unwrap();

        assert_eq!(Basis::compare(&key1, &key2), Ordering::Equal);
    }

#[test]
fn tensor_basis_test_iterator_3_letters() {
        let key = Key::from_letters(&[1, 2, 3]).unwrap();
        let mut itr = TensorKeyIterator::<3>::new(&key);

        assert_eq!(itr.next(), Some(3));
        assert_eq!(itr.next(), Some(2));
        assert_eq!(itr.next(), Some(1));
        assert_eq!(itr.next(), None);
    }
