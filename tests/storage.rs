use jsondb_storage::header::{
    decode, default_header, encode, vec_to_array, FileHeader, FormatError, DEFAULT_PAGE_SIZE,
};
use jsondb_storage::page::{
    finish_read, finish_write, header_from_page, header_page, page_offset, read_range,
    write_range, HeaderError, IoError,
};

const SIGNATURE: [u8; 10] = [74, 115, 111, 110, 68, 98, 32, 118, 48, 49];

// An in-memory file driven through the library's offset and range checks.
fn write_page_to(file: &mut Vec<u8>, index: u32, page_size: u16, data: &[u8]) {
    let off = write_range(index, page_size, data).unwrap() as usize;
    if file.len() < off + data.len() {
        file.resize(off + data.len(), 0);
    }
    file[off..off + data.len()].copy_from_slice(data);
    finish_write(data.len(), page_size).unwrap();
}

fn read_page_from(file: &[u8], index: u32, page_size: u16) -> Result<Vec<u8>, IoError> {
    let off = read_range(index, page_size, file.len() as u64)? as usize;
    let buf = file[off..off + page_size as usize].to_vec();
    let n = buf.len();
    finish_read(buf, n, page_size)
}

#[test]
fn default_header_fields() {
    let h = default_header(512);
    assert_eq!(h.type_id, SIGNATURE);
    assert_eq!(&h.type_id, b"JsonDb v01");
    assert_eq!(h.page_size, 512);
    assert!(h.future_space.iter().all(|&b| b == 0));
}

#[test]
fn encode_is_one_page_little_endian() {
    let bytes = encode(&default_header(512));
    assert_eq!(bytes.len(), 512);
    assert_eq!(&bytes[0..10], &SIGNATURE);
    assert_eq!(bytes[10], 0x00);
    assert_eq!(bytes[11], 0x02);
    assert!(bytes[12..].iter().all(|&b| b == 0));
}

#[test]
fn encode_pads_larger_page_with_zeros() {
    let mut h = default_header(1024);
    h.future_space[0] = 7;
    h.future_space[499] = 9;
    let bytes = encode(&h);
    assert_eq!(bytes.len(), 1024);
    assert_eq!(bytes[10], 0x00);
    assert_eq!(bytes[11], 0x04);
    assert_eq!(bytes[12], 7);
    assert_eq!(bytes[511], 9);
    assert!(bytes[512..].iter().all(|&b| b == 0));
}

#[test]
fn round_trip_keeps_every_field() {
    let mut h = default_header(600);
    for (i, b) in h.future_space.iter_mut().enumerate() {
        *b = (i % 251) as u8;
    }
    let bytes = encode(&h);
    assert_eq!(bytes.len(), 600);
    let d = decode(&bytes, 600).unwrap();
    assert_eq!(d, h);
}

#[test]
fn decode_reads_page_size_verbatim() {
    let mut bytes = encode(&default_header(512));
    bytes[10] = 0x34;
    bytes[11] = 0x12;
    let d = decode(&bytes, 512).unwrap();
    assert_eq!(d.page_size, 0x1234);
}

#[test]
fn bad_signature_is_rejected() {
    let mut bytes = encode(&default_header(512));
    bytes[9] = b'2';
    assert_eq!(decode(&bytes, 512), Err(FormatError::BadSignature));
    let foreign = vec![0xFFu8; 512];
    assert_eq!(decode(&foreign, 512), Err(FormatError::BadSignature));
}

#[test]
fn short_buffer_is_rejected() {
    let bytes = encode(&default_header(512));
    assert_eq!(decode(&bytes[..511], 512), Err(FormatError::TooShort));
    assert_eq!(decode(&[], 512), Err(FormatError::TooShort));
    assert_eq!(decode(&bytes, 1024), Err(FormatError::TooShort));
    let foreign = vec![0u8; 100];
    assert_eq!(decode(&foreign, 512), Err(FormatError::TooShort));
}

#[test]
fn vec_to_array_keeps_items() {
    let a: [u8; 3] = vec_to_array(vec![1u8, 2, 3]);
    assert_eq!(a, [1, 2, 3]);
}

#[test]
fn offsets_are_index_times_page_size() {
    assert_eq!(page_offset(0, 512), 0);
    assert_eq!(page_offset(5, 512), 2560);
    assert_eq!(page_offset(u32::MAX, u16::MAX), 4294967295u64 * 65535);
}

#[test]
fn read_past_end_is_out_of_range() {
    assert_eq!(read_range(1, 512, 1024), Ok(512));
    assert_eq!(read_range(2, 512, 1024), Err(IoError::OutOfRange));
    assert_eq!(read_range(1, 512, 1023), Err(IoError::OutOfRange));
    assert_eq!(read_range(u32::MAX, 512, 1024), Err(IoError::OutOfRange));
}

#[test]
fn short_read_and_write_are_errors() {
    assert_eq!(finish_read(vec![0u8; 512], 511, 512), Err(IoError::ShortRead));
    assert_eq!(finish_read(vec![1u8; 512], 512, 512), Ok(vec![1u8; 512]));
    assert_eq!(finish_write(100, 512), Err(IoError::ShortWrite));
    assert_eq!(finish_write(512, 512), Ok(()));
}

#[test]
fn write_of_wrong_length_is_invalid() {
    assert_eq!(write_range(1, 512, &[0u8; 511]), Err(IoError::InvalidArgument));
    assert_eq!(write_range(1, 512, &[0u8; 513]), Err(IoError::InvalidArgument));
    assert_eq!(write_range(3, 512, &[0u8; 512]), Ok(1536));
}

#[test]
fn new_file_header_reads_back() {
    let page = header_page(DEFAULT_PAGE_SIZE);
    assert_eq!(page.len(), 512);
    let h: FileHeader = header_from_page(Ok(page), 512).unwrap();
    assert_eq!(h.type_id, SIGNATURE);
    assert_eq!(h.page_size, 512);
    assert_eq!(h.future_space, [0u8; 500]);
}

#[test]
fn header_errors_pass_through() {
    assert_eq!(
        header_from_page(Err(IoError::NotFound), 512),
        Err(HeaderError::Io(IoError::NotFound))
    );
    assert_eq!(
        header_from_page(Ok(vec![0u8; 512]), 512),
        Err(HeaderError::Format(FormatError::BadSignature))
    );
    assert_eq!(
        header_from_page(Ok(vec![0u8; 10]), 512),
        Err(HeaderError::Format(FormatError::TooShort))
    );
}

#[test]
fn distinct_pages_do_not_overlap() {
    let mut file = header_page(512);
    write_page_to(&mut file, 1, 512, &[0x11u8; 512]);
    write_page_to(&mut file, 2, 512, &[0x22u8; 512]);
    assert_eq!(read_page_from(&file, 1, 512).unwrap(), vec![0x11u8; 512]);
    assert_eq!(read_page_from(&file, 2, 512).unwrap(), vec![0x22u8; 512]);
}

#[test]
fn sparse_write_then_read() {
    let mut file = header_page(512);
    write_page_to(&mut file, 5, 512, &[0xABu8; 512]);
    assert_eq!(read_page_from(&file, 5, 512).unwrap(), vec![0xABu8; 512]);
    assert_eq!(read_page_from(&file, 3, 512).unwrap().len(), 512);
}

#[test]
fn read_beyond_file_fails() {
    let file = header_page(512);
    assert_eq!(read_page_from(&file, 1, 512), Err(IoError::OutOfRange));
    assert!(read_page_from(&file, 0, 512).is_ok());
}
