use skillexec::embed;

#[test]
fn vectors_are_stored_as_little_endian_components_padded_to_eight() {
    let v = vec![vec![1.0f32.to_bits(), 2.0f32.to_bits(), 3.0f32.to_bits()]];
    let b = embed::encode(&v).expect("encode");
    assert_eq!(&b[0..4], b"SEMB");
    assert_eq!(u16::from_le_bytes([b[4], b[5]]), 3);
    assert_eq!(&b[8..12], &1.0f32.to_le_bytes());
    assert_eq!(&b[12..16], &2.0f32.to_le_bytes());
    assert_eq!(&b[16..20], &3.0f32.to_le_bytes());
    assert_eq!(b.len(), 24);
    assert!(b[20..].iter().all(|&x| x == 0));
}

#[test]
fn vectors_of_no_shape_or_of_mixed_shapes_are_refused() {
    assert!(embed::encode(&[]).is_err());
    assert!(embed::encode(&[vec![]]).is_err());
    assert!(embed::encode(&[vec![1], vec![1, 2]]).is_err());
}

#[test]
fn stored_vectors_read_back_by_entry() {
    let v = vec![vec![7, 8], vec![9, 10]];
    let b = embed::encode(&v).expect("encode");
    let e = embed::read(&b, 0, 2).expect("read").expect("present");
    assert_eq!(e.dims, 2);
    assert_eq!(e.get(1).expect("entry 1"), &[9, 0, 0, 0, 10, 0, 0, 0][..]);
    assert!(e.get(2).is_none());
}
