use sorter::util::into_chunks;

#[test]
fn test_into_chunks() {
    let input = vec![1, 2, 3, 4, 5, 6, 7, 8];
    let chunks = into_chunks(input, 3);

    assert_eq!(chunks.len(), 3);
    assert_eq!(chunks[0], vec![8, 7, 6]);
    assert_eq!(chunks[1], vec![5, 4, 3]);
    assert_eq!(chunks[2], vec![2, 1]);
}

#[test]
fn test_into_chunks_exact() {
    let input = vec![1, 2, 3, 4];
    let chunks = into_chunks(input, 2);

    assert_eq!(chunks.len(), 2);
    assert_eq!(chunks[0], vec![4, 3]);
    assert_eq!(chunks[1], vec![2, 1]);
}

#[test]
fn test_into_chunks_empty() {
    let input: Vec<u8> = vec![];
    let chunks = into_chunks(input, 3);

    assert_eq!(chunks.len(), 0);
}
