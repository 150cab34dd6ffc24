use road_graphs::example::{ord_europe, ord_germany, ord_karlsruhe};
use road_graphs::library::{add_vecs, decode_i32s, encode_i32s, read_to_usize_vec};

fn encode(v: &[u32]) -> Vec<u8> {
    v.iter().flat_map(|x| x.to_le_bytes()).collect()
}

#[test]
fn test_read_write_binary_vec() -> Result<(), Box<dyn std::error::Error>> {
    let input = vec![1u32, 2, 3, 4, 5];
    let output = read_to_usize_vec(&encode(&input));
    assert_eq!(output, vec![1usize, 2, 3, 4, 5]);
    Ok(())
}

#[test]
fn decoding_reads_little_endian_words() {
    let bytes = encode(&[7, 0x0102_0304]);
    assert_eq!(read_to_usize_vec(&bytes), vec![7, 0x0102_0304]);
    assert_eq!(read_to_usize_vec(&[]), Vec::<usize>::new());
}

#[test]
fn i32_files_hold_four_bytes_a_value() {
    let v = vec![0, 1, -1, 0x0102_0304, i32::MIN, i32::MAX];
    let bytes = encode_i32s(&v);
    assert_eq!(bytes.len(), 4 * v.len());
    assert_eq!(&bytes[4..8], &[1, 0, 0, 0]);
    assert_eq!(&bytes[8..12], &[255, 255, 255, 255]);
    assert_eq!(&bytes[12..16], &[4, 3, 2, 1]);
    assert_eq!(&bytes[16..20], &[0, 0, 0, 128]);
    let native: Vec<u8> = v.iter().flat_map(|x| x.to_le_bytes()).collect();
    assert_eq!(bytes, native);
    assert_eq!(decode_i32s(&bytes), Some(v));
    // 100 ints are 400 bytes
    assert_eq!(encode_i32s(&vec![5; 100]).len(), 400);
}

#[test]
fn i32_files_of_a_partial_word_are_refused() {
    assert_eq!(decode_i32s(&[1, 2, 3]), None);
    assert_eq!(decode_i32s(&[1, 2, 3, 4, 5]), None);
    assert_eq!(decode_i32s(&[]), Some(vec![]));
}

#[test]
fn orders_decode_their_files() {
    let bytes = encode(&[2, 0, 1]);
    assert_eq!(ord_karlsruhe(&bytes), vec![2, 0, 1]);
    assert_eq!(ord_germany(&bytes), vec![2, 0, 1]);
    assert_eq!(ord_europe(&bytes), vec![2, 0, 1]);
}

#[test]
fn element_wise_sums() {
    assert_eq!(add_vecs(&[1, 2, 3], &[10, 20, 30]), vec![11, 22, 33]);
    assert_eq!(add_vecs::<u8>(&[], &[]), Vec::<u8>::new());
}
