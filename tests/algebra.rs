use tensor_algebra::coefficients::Scalar;
use tensor_algebra::dense_vector::SimpleDenseVector;
use tensor_algebra::free_tensor::DenseTensor;
use tensor_algebra::tensor_basis::TensorBasis;
use tensor_algebra::tensor_key::TensorKey;
use tensor_algebra::TensorError;

type Key = TensorKey<3>;
type TensorT = SimpleDenseVector<3>;

fn s(x: i64) -> Scalar {
    Scalar::from_i64(x)
}

fn key(letters: &[u32]) -> Key {
    Key::from_letters(letters).unwrap()
}

/// A vector with words of degrees 0 to 2 and no zero coefficient in degree 1.
fn sample_x() -> TensorT {
    TensorT::from_iterator(&vec![
        (key(&[]), s(3)),
        (key(&[1]), s(2)),
        (key(&[3]), s(-1)),
        (key(&[2, 1]), s(7)),
    ])
}

fn sample_y() -> TensorT {
    TensorT::from_iterator(&vec![
        (key(&[2]), s(5)),
        (key(&[1, 3]), s(-4)),
        (key(&[3, 3]), s(1)),
    ])
}

/// Coefficient `i` of `v`, zero past its end.
fn at(v: &TensorT, i: usize) -> Scalar {
    if i < v.size() {
        v.as_slice()[i]
    } else {
        Scalar::zero()
    }
}

fn same_series(a: &TensorT, b: &TensorT, up_to: usize) -> bool {
    (0..up_to).all(|i| at(a, i) == at(b, i))
}

#[test]
fn dense_test_tensor_multiplication_two_letters() {
    let lhs = TensorT::from_key(&Key::from_letter(1));
    let rhs = TensorT::from_key(&Key::from_letter(2));

    let result = lhs.multiply(&rhs, Some(2)).unwrap();

    let expected = TensorT::from_key(&Key::from_letters(&[1, 2]).unwrap());

    assert_eq!(result.as_slice(), expected.as_slice());
}

#[test]
fn test_add_vector_wrapper() {
    type TKey = TensorKey<2>;
    type Vect = SimpleDenseVector<2>;

    let tmp1 = vec![(TKey::new(), s(1)), (TKey::from_letter(1), s(2)), (TKey::from_letter(2), s(3))];
    let tmp2 = vec![(TKey::new(), s(-1)), (TKey::from_letter(1), s(-1)), (TKey::from_letter(2), s(-1))];

    let vec1 = Vect::from_iterator(&tmp1);
    let vec2 = Vect::from_iterator(&tmp2);

    let expected = Vect::from_iterator(&vec![
        (TKey::new(), s(0)),
        (TKey::from_letter(1), s(1)),
        (TKey::from_letter(2), s(2)),
    ]);

    assert_eq!(vec1.add(&vec2).unwrap().as_slice(), expected.as_slice());
}

#[test]
fn start_of_degree_three_letters() {
    let starts: Vec<usize> = (0..=4).map(|d| TensorBasis::<3>::start_of_degree(d)).collect();
    assert_eq!(starts, vec![0, 1, 4, 13, 40]);
}

#[test]
fn product_of_two_letters_is_their_word() {
    let lhs = TensorT::from_key(&Key::from_letter(1));
    let rhs = TensorT::from_key(&Key::from_letter(2));
    let result = lhs.multiply(&rhs, Some(2)).unwrap();
    let target = TensorBasis::<3>::key_to_index(&key(&[1, 2]));
    assert_eq!(target, 5);
    assert_eq!(result.size(), 13);
    for i in 0..result.size() {
        let expected = if i == target { Scalar::one() } else { Scalar::zero() };
        assert_eq!(result.as_slice()[i], expected);
    }
}

#[test]
fn product_truncates_at_degree() {
    let lhs = TensorT::from_key(&Key::from_letter(1));
    let rhs = TensorT::from_key(&Key::from_letter(2));
    let result = lhs.multiply(&rhs, Some(1)).unwrap();
    assert_eq!(result.size(), 4);
    assert!(result.as_slice().iter().all(|c| *c == Scalar::zero()));
}

#[test]
fn unit_is_a_two_sided_identity() {
    let x = sample_x();
    let unit = TensorT::from_key(&Key::new());
    let right = x.multiply(&unit, Some(3)).unwrap();
    let left = unit.multiply(&x, Some(3)).unwrap();
    assert!(same_series(&right, &x, 40));
    assert!(same_series(&left, &x, 40));
    let mut in_place = x.to_owned();
    in_place.multiply_inplace(&unit, Some(3)).unwrap();
    assert!(same_series(&in_place, &x, 40));
}

#[test]
fn commutator_is_antisymmetric() {
    let x = sample_x();
    let y = sample_y();
    let xy = x.commutator(&y, Some(3)).unwrap();
    let yx = y.commutator(&x, Some(3)).unwrap();
    assert_eq!(xy.as_slice(), yx.uminus().as_slice());
    assert!(xy.as_slice().iter().any(|c| *c != Scalar::zero()));
}

#[test]
fn product_is_associative_when_truncated() {
    let x = sample_x();
    let y = sample_y();
    let z = TensorT::from_iterator(&vec![(key(&[]), s(2)), (key(&[3]), s(1)), (key(&[1, 1]), s(6))]);
    let left = x.multiply(&y, Some(3)).unwrap().multiply(&z, Some(3)).unwrap();
    let right = x.multiply(&y.multiply(&z, Some(3)).unwrap(), Some(3)).unwrap();
    assert!(same_series(&left, &right, 40));
}

#[test]
fn in_place_product_matches_fresh_product() {
    let x = sample_x();
    let y = sample_y();
    let fresh = x.multiply(&y, Some(3)).unwrap();
    let mut in_place = x.to_owned();
    in_place.multiply_inplace(&y, Some(3)).unwrap();
    assert!(same_series(&fresh, &in_place, 40));
    let mut with_zero_unit = x.to_owned();
    let z = sample_y();
    with_zero_unit.mul_scal_lprod(&z, s(4), Some(3)).unwrap();
    let scaled = fresh.scalar_lmultiply(&s(4));
    assert!(same_series(&with_zero_unit, &scaled, 40));
}

#[test]
fn in_place_product_with_general_unit_coefficient() {
    let x = sample_x();
    let mut w = sample_y();
    w.add_inplace(&TensorT::from_key_scalar(&Key::new(), s(5))).unwrap();
    let fresh = x.multiply(&w, Some(2)).unwrap();
    let mut in_place = x.to_owned();
    in_place.mul_rat_rdiv(&w, s(7), Some(2)).unwrap();
    assert!(same_series(&in_place, &fresh.scalar_rdivide(&s(7)), 13));
}

#[test]
fn sub_mul_undoes_add_mul() {
    let x = sample_x();
    let y = sample_y();
    let mut acc = TensorT::from_dimension(13);
    acc.add_mul(&x, &y, Some(2)).unwrap();
    acc.sub_mul(&x, &y, Some(2)).unwrap();
    assert!(acc.as_slice().iter().all(|c| *c == Scalar::zero()));
}

#[test]
fn log_inverts_exp_below_the_top_degree() {
    let x = TensorT::from_iterator(&vec![(key(&[1]), s(2)), (key(&[3]), s(1)), (key(&[1, 2]), s(5))]);
    let t = DenseTensor::<3, 4>::from_vector(x.to_owned());
    let back = t.exp().log().into_vector();
    assert!(same_series(&back, &x, 40));
}

#[test]
fn fmexp_multiplies_by_the_exponential() {
    let a = TensorT::from_iterator(&vec![(key(&[]), s(1)), (key(&[2]), s(3))]);
    let x = TensorT::from_iterator(&vec![(key(&[1]), s(2)), (key(&[2, 3]), s(1))]);
    let e = DenseTensor::<3, 4>::from_vector(x.to_owned()).exp().into_vector();
    let expected = a.multiply(&e, Some(4)).unwrap();
    let mut t = DenseTensor::<3, 4>::from_vector(a.to_owned());
    t.fmexp(&DenseTensor::from_vector(x));
    assert!(same_series(&t.into_vector(), &expected, 40));
}

#[test]
fn exp_of_a_letter() {
    let x = TensorT::from_key(&Key::from_letter(1));
    let e = DenseTensor::<3, 3>::from_vector(x).exp().into_vector();
    assert_eq!(at(&e, 0), s(1));
    assert_eq!(at(&e, 1), s(1));
    let i11 = TensorBasis::<3>::key_to_index(&key(&[1, 1]));
    assert_eq!(at(&e, i11), Scalar::one().div(&s(2)));
    assert_eq!(at(&e, i11).mul(&s(2)), s(1));
}

#[test]
fn from_iterator_sums_repeated_words() {
    let v = TensorT::from_iterator(&vec![(key(&[2]), s(1)), (key(&[2]), s(4)), (key(&[]), s(9))]);
    assert_eq!(v.size(), 4);
    assert_eq!(v.as_slice(), &[s(9), s(0), s(5), s(0)][..]);
}

#[test]
fn too_long_word_is_length_exceeded() {
    let letters = vec![1u32; 31];
    assert_eq!(Key::max_depth(), 30);
    assert_eq!(Key::from_letters(&letters), Err(TensorError::LengthExceeded));
    assert!(Key::from_letters(&letters[..30]).is_ok());
}

#[test]
fn larger_right_operand_is_size_mismatch() {
    let small = TensorT::from_dimension(1);
    let big = TensorT::from_dimension(4);
    assert_eq!(small.add(&big).err(), Some(TensorError::SizeMismatch));
    assert_eq!(small.sub(&big).err(), Some(TensorError::SizeMismatch));
    assert!(big.add(&small).is_ok());
}

#[test]
fn missing_degree_is_reported() {
    let x = sample_x();
    assert_eq!(x.multiply(&x, None).err(), Some(TensorError::MissingTruncationDegree));
    let mut y = sample_y();
    assert_eq!(y.multiply_inplace(&x, None), Err(TensorError::MissingTruncationDegree));
}

#[test]
fn letter_past_the_end_is_out_of_range() {
    let k = key(&[1, 2]);
    assert_eq!(k.letter(0), Ok(2));
    assert_eq!(k.letter(1), Ok(1));
    assert_eq!(k.letter(2), Err(TensorError::IndexOutOfRange));
}

#[test]
fn field_division_inverts_multiplication() {
    assert_eq!(s(6).div(&s(3)), s(2));
    assert_eq!(s(1).div(&s(7)).mul(&s(7)), s(1));
    assert_eq!(s(-1), Scalar::mone());
    assert_eq!(s(-1).value(), 0x1fff_ffff_ffff_fffe);
}

#[test]
fn index_and_word_round_trip() {
    for i in 0..121usize {
        let k = TensorBasis::<3>::index_to_key(i);
        assert_eq!(TensorBasis::<3>::key_to_index(&k), i);
        assert_eq!(TensorBasis::<3>::index_to_key(TensorBasis::<3>::key_to_index(&k)), k);
    }
}

#[test]
fn concatenation_offsets_multiply() {
    let a = key(&[2, 3]);
    let b = key(&[1]);
    let ab = a.concatenate(&b);
    assert_eq!(ab, key(&[2, 3, 1]));
    let off = |k: &Key, d: u32| TensorBasis::<3>::key_to_index(k) - TensorBasis::<3>::start_of_degree(d);
    assert_eq!(off(&ab, 3), off(&a, 2) * 3 + off(&b, 1));
}

fn unit_vector_255(i: usize, value: i64) -> Vec<Scalar> {
    let mut v = vec![Scalar::zero(); u8::MAX as usize];
    v[i] = s(value);
    v
}

#[test]
fn test_add_vectors() {
    let v1 = TensorT::from(unit_vector_255(0, 1));
    let v2 = TensorT::from(unit_vector_255(1, 1));

    let expected = TensorT::from({
        let mut v = vec![Scalar::zero(); u8::MAX as usize];
        v[0] = s(1);
        v[1] = s(1);
        v
    });

    let result = v1.add(&v2).unwrap();

    assert_eq!(result.as_slice(), expected.as_slice());
}

#[test]
fn test_sub_vectors() {
    let v1 = TensorT::from(unit_vector_255(0, 1));
    let v2 = TensorT::from(unit_vector_255(1, 1));

    let expected = TensorT::from({
        let mut v = vec![Scalar::zero(); u8::MAX as usize];
        v[0] = s(1);
        v[1] = s(-1);
        v
    });

    let result = v1.sub(&v2).unwrap();

    assert_eq!(result.as_slice(), expected.as_slice());
}

#[test]
fn test_scalar_multiply() {
    let v1 = TensorT::from({
        let mut vec: Vec<Scalar> = Vec::new();
        let mut val = 0i64;
        vec.fill_with(move || {
            val += 1;
            s(val)
        });
        vec
    });

    let expected = TensorT::from({
        let mut vec: Vec<Scalar> = Vec::new();
        let mut val = 0i64;
        vec.fill_with(move || {
            val += 2;
            s(val)
        });
        vec
    });

    let result = v1.scalar_lmultiply(&s(2));

    assert_eq!(result.as_slice(), expected.as_slice());
}

#[test]
fn scalar_multiply_scales_every_entry() {
    let v = TensorT::from(vec![s(1), s(2), s(3)]);
    let doubled = v.scalar_rmultiply(&s(2));
    assert_eq!(doubled.as_slice(), &[s(2), s(4), s(6)][..]);
    let halved = doubled.scalar_ldivide(&s(2));
    assert_eq!(halved.as_slice(), v.as_slice());
}

#[test]
fn key_updates_grow_and_accumulate() {
    let mut v = TensorT::new();
    let k = key(&[2, 1]);
    let idx = TensorBasis::<3>::key_to_index(&k);
    v.add_scalar_multiply(&k, &s(4));
    assert_eq!(v.size(), idx + 1);
    assert_eq!(v.get(&k), Some(s(4)));
    v.sub_scalar_multiply(&k, &s(1));
    assert_eq!(v.get(&k), Some(s(3)));
    v.add_scalar_divide(&k, &s(2));
    assert_eq!(v.get(&k).unwrap().mul(&s(2)), s(7));
    v.sub_scalar_divide(&k, &s(2));
    assert_eq!(v.get(&k), Some(s(3)));
    assert_eq!(v.get(&key(&[3, 3])), None);
}

#[test]
fn vectors_compare_by_coefficients() {
    let a = sample_x();
    let b = sample_x();
    assert_eq!(a, b);
    let mut c = sample_x();
    c.erase(&key(&[1]));
    assert_ne!(a, c);
    assert_ne!(a, TensorT::new());
}

#[test]
fn insert_sets_coefficients_and_later_pairs_win() {
    let mut v = TensorT::from_dimension(1);
    v.insert(&vec![(key(&[3]), s(2)), (key(&[1, 1]), s(5)), (key(&[3]), s(8))]);
    assert_eq!(v.size(), 5);
    assert_eq!(v.get(&key(&[3])), Some(s(8)));
    assert_eq!(v.get(&key(&[1, 1])), Some(s(5)));
    assert_eq!(v.get(&key(&[])), Some(s(0)));
    v.insert_single(&key(&[]), s(1));
    assert_eq!(v.as_slice()[0], s(1));
}
