use std::cmp::Ordering;
use tensor_algebra::bits::make_mask;
use tensor_algebra::tensor_basis::{TensorBasis, TensorBasisIterator};
use tensor_algebra::tensor_key::{TensorKey, TensorKeyIterator};
use tensor_algebra::LetterType;

type Key = TensorKey<3>;
type Basis = TensorBasis<3>;
type IterT = TensorBasisIterator<3>;

#[test]
fn test_iterator_first_key() {
        let mut itr = IterT::new();

        assert_eq!(itr.next(), Some(Key::new()));
    }

#[test]
fn test_iterator_advance_letters() {
        let start = Key::from_letter(1);
        let mut itr = IterT::starting_from(start);

        assert_eq!(itr.next(), Some(Key::from_letter(1)));
        assert_eq!(itr.next(), Some(Key::from_letter(2)));
        assert_eq!(itr.next(), Some(Key::from_letter(3)));
    }

#[test]
fn test_iterator_move_to_level_2() {
        let start = Key::from_letter(3);
        let mut itr = IterT::starting_from(start);

        assert_eq!(itr.next(), Some(Key::from_letter(3)));

        assert_eq!(itr.next(), Some(Key::from_letters(&[1, 1]).unwrap()));
    }

#[test]
fn test_iterator_13_to_21() {
        let start = Key::from_letters(&[1, 3]).unwrap();
        let mut itr = IterT::starting_from(start);

        assert_eq!(itr.next(), Some(Key::from_letters(&[1, 3]).unwrap()));
        assert_eq!(itr.next(), Some(Key::from_letters(&[2, 1]).unwrap()));
    }
