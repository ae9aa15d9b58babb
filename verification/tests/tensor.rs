use ggml_io::codec::{encode, DecodeError};
use ggml_io::tensor::{
    allocate_and_fill, checked_capacity, read_bytes, resolve_extents, round_trip_read,
    try_allocate_and_fill, BindError, Dimension, Tensor,
};
use ggml_io::value::{Schema, Value};

fn sample_record() -> Value {
    Value::Record(vec![Value::U32(7), Value::Text(String::from("hi"))])
}

fn sample_schema() -> Schema {
    Schema::Record(vec![Schema::U32, Schema::Text])
}

const SAMPLE: [u8; 10] = [0x00, 0x00, 0x00, 0x07, 0x00, 0x00, 0x00, 0x02, 0x68, 0x69];

#[test]
fn record_binds_to_a_one_dimensional_tensor_of_inferred_extent() {
    let bytes = encode(&sample_record());
    let tensor = allocate_and_fill(Dimension::D1, &[None], &bytes).unwrap();
    assert_eq!(tensor.dim(), Dimension::D1);
    assert_eq!(tensor.extents(), &vec![10]);
    assert_eq!(tensor.capacity(), 10);
    assert_eq!(read_bytes(&tensor), SAMPLE.to_vec());
    assert_eq!(round_trip_read(&tensor, &sample_schema()), Ok(sample_record()));
}

#[test]
fn one_dimension_with_no_entry_infers_the_extent() {
    let tensor = allocate_and_fill(Dimension::D1, &[], &SAMPLE).unwrap();
    assert_eq!(tensor.extents(), &vec![10]);
    assert_eq!(read_bytes(&tensor), SAMPLE.to_vec());
}

#[test]
fn capacity_below_the_length_is_refused() {
    assert_eq!(
        allocate_and_fill(Dimension::D1, &[Some(9)], &SAMPLE),
        Err(BindError::CapacityExceeded)
    );
    assert_eq!(
        allocate_and_fill(Dimension::D2, &[Some(3), Some(3)], &SAMPLE),
        Err(BindError::CapacityExceeded)
    );
    assert_eq!(
        allocate_and_fill(Dimension::D3, &[Some(2), Some(2), Some(2)], &SAMPLE),
        Err(BindError::CapacityExceeded)
    );
    assert_eq!(
        allocate_and_fill(Dimension::D1, &[Some(0)], &SAMPLE),
        Err(BindError::CapacityExceeded)
    );
}

#[test]
fn capacity_equal_to_the_length_holds_the_bytes_exactly() {
    let tensor = allocate_and_fill(Dimension::D1, &[Some(10)], &SAMPLE).unwrap();
    assert_eq!(read_bytes(&tensor), SAMPLE.to_vec());
    let tensor = allocate_and_fill(Dimension::D2, &[Some(2), Some(5)], &SAMPLE).unwrap();
    assert_eq!(tensor.extents(), &vec![2, 5]);
    assert_eq!(read_bytes(&tensor), SAMPLE.to_vec());
}

#[test]
fn capacity_above_the_length_pads_with_zeros() {
    let tensor = allocate_and_fill(Dimension::D2, &[Some(2), Some(8)], &SAMPLE).unwrap();
    assert_eq!(tensor.capacity(), 16);
    let mut expected = SAMPLE.to_vec();
    expected.extend_from_slice(&[0; 6]);
    assert_eq!(read_bytes(&tensor), expected);

    let tensor = allocate_and_fill(Dimension::D3, &[Some(2), Some(3), Some(2)], &SAMPLE).unwrap();
    assert_eq!(tensor.dim(), Dimension::D3);
    assert_eq!(tensor.capacity(), 12);
    let mut expected = SAMPLE.to_vec();
    expected.extend_from_slice(&[0; 2]);
    assert_eq!(read_bytes(&tensor), expected);
}

#[test]
fn padded_tensor_reads_back_the_value() {
    let bytes = encode(&sample_record());
    let tensor = allocate_and_fill(Dimension::D2, &[Some(4), Some(4)], &bytes).unwrap();
    assert_eq!(round_trip_read(&tensor, &sample_schema()), Ok(sample_record()));
}

#[test]
fn two_dimensions_with_one_extent_is_a_missing_extent() {
    assert_eq!(
        allocate_and_fill(Dimension::D2, &[Some(10)], &SAMPLE),
        Err(BindError::MissingExtent)
    );
    assert_eq!(
        resolve_extents(Dimension::D2, &[Some(10)], 10),
        Err(BindError::MissingExtent)
    );
}

#[test]
fn absent_extent_is_only_accepted_for_one_dimension() {
    assert_eq!(
        allocate_and_fill(Dimension::D2, &[Some(10), None], &SAMPLE),
        Err(BindError::MissingExtent)
    );
    assert_eq!(
        allocate_and_fill(Dimension::D2, &[None, Some(10)], &SAMPLE),
        Err(BindError::MissingExtent)
    );
    assert_eq!(
        allocate_and_fill(Dimension::D3, &[Some(10), Some(1), None], &SAMPLE),
        Err(BindError::MissingExtent)
    );
}

#[test]
fn wrong_number_of_extents_is_a_missing_extent() {
    assert_eq!(allocate_and_fill(Dimension::D2, &[], &SAMPLE), Err(BindError::MissingExtent));
    assert_eq!(
        allocate_and_fill(Dimension::D2, &[Some(2), Some(5), Some(1)], &SAMPLE),
        Err(BindError::MissingExtent)
    );
    assert_eq!(
        allocate_and_fill(Dimension::D3, &[Some(2), Some(5)], &SAMPLE),
        Err(BindError::MissingExtent)
    );
    assert_eq!(
        allocate_and_fill(Dimension::D1, &[Some(10), Some(1)], &SAMPLE),
        Err(BindError::MissingExtent)
    );
}

#[test]
fn missing_extent_is_reported_before_capacity() {
    assert_eq!(
        allocate_and_fill(Dimension::D2, &[Some(1)], &SAMPLE),
        Err(BindError::MissingExtent)
    );
}

#[test]
fn scalar_ignores_the_shape_and_is_zero() {
    let tensor = allocate_and_fill(Dimension::Scalar, &[Some(5), None, Some(2)], &[]).unwrap();
    assert_eq!(tensor.dim(), Dimension::Scalar);
    assert_eq!(tensor.extents(), &Vec::<usize>::new());
    assert_eq!(tensor.capacity(), 1);
    assert_eq!(read_bytes(&tensor), vec![0]);

    let tensor = allocate_and_fill(Dimension::Scalar, &[], &[9]).unwrap();
    assert_eq!(read_bytes(&tensor), vec![0]);
}

#[test]
fn scalar_refuses_more_than_one_byte() {
    assert_eq!(
        allocate_and_fill(Dimension::Scalar, &[], &[1, 2]),
        Err(BindError::CapacityExceeded)
    );
}

#[test]
fn empty_bytes_bind_to_an_empty_tensor() {
    let tensor = allocate_and_fill(Dimension::D1, &[None], &[]).unwrap();
    assert_eq!(tensor.capacity(), 0);
    assert_eq!(read_bytes(&tensor), Vec::<u8>::new());
    assert_eq!(round_trip_read(&tensor, &Schema::U8), Err(DecodeError::Truncated));
    assert_eq!(round_trip_read(&tensor, &Schema::Record(vec![])), Ok(Value::Record(vec![])));
}

#[test]
fn shape_requests_resolve_to_extents() {
    assert_eq!(resolve_extents(Dimension::Scalar, &[Some(3)], 10), Ok(vec![]));
    assert_eq!(resolve_extents(Dimension::D1, &[], 10), Ok(vec![10]));
    assert_eq!(resolve_extents(Dimension::D1, &[None], 10), Ok(vec![10]));
    assert_eq!(resolve_extents(Dimension::D1, &[Some(12)], 10), Ok(vec![12]));
    assert_eq!(resolve_extents(Dimension::D2, &[Some(3), Some(4)], 10), Ok(vec![3, 4]));
    assert_eq!(
        resolve_extents(Dimension::D3, &[Some(3), Some(4), Some(5)], 10),
        Ok(vec![3, 4, 5])
    );
}

#[test]
fn capacity_is_the_product_of_the_extents() {
    assert_eq!(checked_capacity(&[]), Some(1));
    assert_eq!(checked_capacity(&[7]), Some(7));
    assert_eq!(checked_capacity(&[3, 4]), Some(12));
    assert_eq!(checked_capacity(&[3, 4, 5]), Some(60));
    assert_eq!(checked_capacity(&[3, 0, 5]), Some(0));
}

#[test]
fn capacity_beyond_the_machine_is_reported() {
    assert_eq!(checked_capacity(&[usize::MAX, 2]), None);
    assert_eq!(checked_capacity(&[usize::MAX, 1]), Some(usize::MAX));
    assert_eq!(checked_capacity(&[usize::MAX, 2, 0]), Some(0));
    assert_eq!(checked_capacity(&[0, usize::MAX, 2]), Some(0));
}

#[test]
fn request_beyond_the_machine_is_declined() {
    assert_eq!(
        try_allocate_and_fill(Dimension::D2, &[Some(usize::MAX), Some(2)], &SAMPLE),
        None
    );
    assert_eq!(
        try_allocate_and_fill(Dimension::D2, &[Some(usize::MAX)], &SAMPLE),
        Some(Err(BindError::MissingExtent))
    );
    assert_eq!(
        try_allocate_and_fill(Dimension::D1, &[Some(3)], &SAMPLE),
        Some(Err(BindError::CapacityExceeded))
    );
    let tensor = try_allocate_and_fill(Dimension::D1, &[None], &SAMPLE).unwrap().unwrap();
    assert_eq!(read_bytes(&tensor), SAMPLE.to_vec());
}

#[test]
fn tensor_that_ends_inside_a_value_reads_back_truncated() {
    let tensor = allocate_and_fill(Dimension::D1, &[None], &SAMPLE[..9]).unwrap();
    assert_eq!(round_trip_read(&tensor, &sample_schema()), Err(DecodeError::Truncated));
}

#[test]
fn cloned_tensor_holds_the_same() {
    let tensor = allocate_and_fill(Dimension::D2, &[Some(3), Some(4)], &SAMPLE).unwrap();
    let copy = tensor.clone();
    assert_eq!(copy, tensor);
    assert_eq!(read_bytes(&copy), read_bytes(&tensor));
}

#[test]
fn dimensions_count_their_extents() {
    assert_eq!(Dimension::Scalar.extent_count(), 0);
    assert_eq!(Dimension::D1.extent_count(), 1);
    assert_eq!(Dimension::D2.extent_count(), 2);
    assert_eq!(Dimension::D3.extent_count(), 3);
    assert_eq!(Dimension::with_extents(0), Some(Dimension::Scalar));
    assert_eq!(Dimension::with_extents(1), Some(Dimension::D1));
    assert_eq!(Dimension::with_extents(2), Some(Dimension::D2));
    assert_eq!(Dimension::with_extents(3), Some(Dimension::D3));
    assert_eq!(Dimension::with_extents(4), None);
}

#[test]
fn tensor_from_storage_needs_matching_parts() {
    let tensor = Tensor::from_storage(Dimension::D2, vec![2, 5], SAMPLE.to_vec()).unwrap();
    assert_eq!(tensor, allocate_and_fill(Dimension::D2, &[Some(2), Some(5)], &SAMPLE).unwrap());
    assert_eq!(round_trip_read(&tensor, &sample_schema()), Ok(sample_record()));
    assert_eq!(Tensor::from_storage(Dimension::D2, vec![2, 4], SAMPLE.to_vec()), None);
    assert_eq!(Tensor::from_storage(Dimension::D2, vec![10], SAMPLE.to_vec()), None);
    assert_eq!(Tensor::from_storage(Dimension::D1, vec![2, 5], SAMPLE.to_vec()), None);
    assert_eq!(Tensor::from_storage(Dimension::D2, vec![usize::MAX, 2], SAMPLE.to_vec()), None);
    assert!(Tensor::from_storage(Dimension::Scalar, vec![], vec![3]).is_some());
    assert_eq!(Tensor::from_storage(Dimension::Scalar, vec![], vec![]), None);
    assert!(Tensor::from_storage(Dimension::D3, vec![4, 0, 4], vec![]).is_some());
}
