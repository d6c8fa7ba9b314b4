use merging_chunks::reader::{read_chunk, ChunkReader};
use merging_chunks::writer::{write_result, write_to_part};

#[test]
fn write_result_appends_each_value_and_a_delimiter() {
    let mut writer: Vec<u8> = Vec::new();
    write_result(&mut writer, &vec![1, 2, 2, 5]);
    assert_eq!(writer, b"1 2 2 5 ".to_vec());
    write_result(&mut writer, &vec![8, 9]);
    assert_eq!(writer, b"1 2 2 5 8 9 ".to_vec());
}

#[test]
fn write_result_of_nothing_appends_nothing() {
    let mut writer: Vec<u8> = b"4 ".to_vec();
    write_result(&mut writer, &Vec::new());
    assert_eq!(writer, b"4 ".to_vec());
}

#[test]
fn write_result_keeps_the_order_it_is_given() {
    let mut writer: Vec<u8> = Vec::new();
    write_result(&mut writer, &vec![3, 1, 2]);
    assert_eq!(writer, b"3 1 2 ".to_vec());
}

#[test]
fn write_result_writes_the_extremes() {
    let mut writer: Vec<u8> = Vec::new();
    write_result(&mut writer, &vec![0, u64::MAX]);
    assert_eq!(writer, b"0 18446744073709551615 ".to_vec());
}

#[test]
fn what_write_result_wrote_reads_back() {
    let values: Vec<u64> = vec![0, 7, 7, 1 << 40, u64::MAX];
    let mut writer: Vec<u8> = Vec::new();
    write_result(&mut writer, &values);
    let mut reader = ChunkReader::new(&writer);
    let mut back: Vec<u64> = Vec::new();
    assert_eq!(read_chunk(&mut back, &mut reader, u64::MAX), Ok(None));
    assert_eq!(back, values);
}

#[test]
fn write_to_part_picks_the_bucket_by_the_top_bits() {
    let mut writers: Vec<Vec<u8>> = vec![Vec::new(); 4];
    write_to_part(&mut writers, 5, 2);
    write_to_part(&mut writers, 1u64 << 62, 2);
    write_to_part(&mut writers, (1u64 << 62) - 1, 2);
    write_to_part(&mut writers, u64::MAX, 2);
    write_to_part(&mut writers, 3u64 << 62, 2);
    write_to_part(&mut writers, 0, 2);
    assert_eq!(writers[0], b"5 4611686018427387903 0 ".to_vec());
    assert_eq!(writers[1], b"4611686018427387904 ".to_vec());
    assert_eq!(writers[2], Vec::<u8>::new());
    assert_eq!(writers[3], b"18446744073709551615 13835058055282163712 ".to_vec());
}

#[test]
fn write_to_part_with_one_partition() {
    let mut writers: Vec<Vec<u8>> = vec![Vec::new()];
    write_to_part(&mut writers, u64::MAX, 0);
    write_to_part(&mut writers, 0, 0);
    assert_eq!(writers[0], b"18446744073709551615 0 ".to_vec());
}
