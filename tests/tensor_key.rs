use std::cmp::Ordering;
use tensor_algebra::bits::make_mask;
use tensor_algebra::tensor_basis::{TensorBasis, TensorBasisIterator};
use tensor_algebra::tensor_key::{TensorKey, TensorKeyIterator};
use tensor_algebra::LetterType;

type Key = TensorKey<3>;
type Basis = TensorBasis<3>;
type IterT = TensorBasisIterator<3>;

#[test]
fn tensor_key_test_make_mask_3_0() {
        assert_eq!(make_mask(3, 0), 0b111);
    }

#[test]
fn tensor_key_test_make_mask_3_5() {
        assert_eq!(make_mask(3, 5), 0b11100000);
    }

#[test]
fn tensor_key_test_make_mask_12_52() {
        assert_eq!(make_mask(12, 52), 0xFFF0000000000000);
    }

#[test]
fn tensor_key_test_size_bits_common() {
        assert_eq!(TensorKey::<2>::size_bits(), 4);
        assert_eq!(TensorKey::<5>::size_bits(), 4);
        assert_eq!(TensorKey::<9>::size_bits(), 3);
        assert_eq!(TensorKey::<17>::size_bits(), 3);
        assert_eq!(TensorKey::<33>::size_bits(), 3);
    }

#[test]
fn tensor_key_test_size_bits() {
        assert_eq!(Key::size_bits(), 4);
    }

#[test]
fn tensor_key_test_size_mask() {
        let mask = Key::size_mask();

        assert_eq!(mask, 0xF000000000000000)
    }

#[test]
fn tensor_key_test_letter_mask() {
        assert_eq!(Key::letter_mask(), 0b11);
    }

#[test]
fn tensor_key_test_bits_per_letter_correct() {
        assert_eq!(Key::bits_per_letter(), 2);
    }

#[test]
fn tensor_key_test_from_letter_each_letter() {
        assert_eq!(Key::from_letter(1).data(), 0u64);
        assert_eq!(Key::from_letter(2).data(), 1u64);
        assert_eq!(Key::from_letter(3).data(), 2u64);
    }

#[test]
fn tensor_key_test_from_array() {
        let array: [LetterType; 3] = [1, 2, 1];

        let key = Key::from_letters(&array).unwrap();

        assert_eq!(key.data(), 0b000100)
    }

#[test]
fn tensor_key_test_concatenate() {
        let key1 = Key::from_letter(3);
        let key2 = Key::from_letter(1);

        let result = key1.concatenate(&key2);

        assert_eq!(result.data(), (2u64 << 2) + 0u64)
    }

#[test]
fn tensor_key_test_to_letters() {
        let key = Key::from_letters(&[1, 2, 1, 2, 3]).unwrap();
        assert_eq!(key.size(), 5);
        assert_eq!(key.to_letters(), vec![3,2,1,2,1]);
    }

#[test]
fn tensor_key_test_equal_empty_key() {
        let key1 = Key::new();
        let key2 = Key::new();

        assert_eq!(key1, key2);
    }

#[test]
fn tensor_key_test_not_equal_empty_vs_1_key() {
        let key1 = Key::new();
        let key2 = Key::from_letter(1);

        assert_ne!(key1, key2);
    }

#[test]
fn tensor_key_test_not_equal_1_key_vs_2_key() {
        let key1 = Key::from_letter(1);
        let key2 = Key::from_letter(2);

        assert_ne!(key1, key2);
    }

#[test]
fn tensor_key_test_iterator_3_letters() {
        let key = Key::from_letters(&[1, 2, 3]).unwrap();
        let mut itr = TensorKeyIterator::<3>::new(&key);

        assert_eq!(itr.next(), Some(3));
        assert_eq!(itr.next(), Some(2));
        assert_eq!(itr.next(), Some(1));
        assert_eq!(itr.next(), None);
    }
