use mirdb::coding::{get_fixed32, get_fixed64, get_varint, put_fixed32, put_fixed64, put_varint};
use mirdb::sstable::block_handle::BlockHandle;
use mirdb::sstable::compression::{compress, decompress};
use mirdb::sstable::checksum::{checksum, mask_crc, unmask_crc, verify_checksum};
use mirdb::sstable::footer::{Footer, FOOTER_LENGTH};
use mirdb::sstable::options::{compress_type_to_int, int_to_compress_type, CompressType};
use mirdb::sstable::result::{err, Status, StatusCode};
use mirdb::util::{bytes_eq, bytes_le, bytes_lt, shared_prefix_len, short_separator};

#[test]
fn varint_bytes() {
    let mut v = vec![9u8];
    put_varint(&mut v, 0);
    put_varint(&mut v, 127);
    put_varint(&mut v, 128);
    put_varint(&mut v, 300);
    put_varint(&mut v, u64::MAX);
    assert_eq!(&v[..6], &[9, 0, 127, 0x80, 1, 0xac]);
    assert_eq!(v[6], 2);
    assert_eq!(&v[7..], &[0xff, 0xff, 0xff, 0xff, 0xff, 0xff, 0xff, 0xff, 0xff, 1]);
    assert_eq!(get_varint(&v, 1, v.len()), Some((0, 2)));
    assert_eq!(get_varint(&v, 2, v.len()), Some((127, 3)));
    assert_eq!(get_varint(&v, 3, v.len()), Some((128, 5)));
    assert_eq!(get_varint(&v, 5, v.len()), Some((300, 7)));
    assert_eq!(get_varint(&v, 7, v.len()), Some((u64::MAX, 17)));
    // the input ends inside the varint
    assert_eq!(get_varint(&v, 7, 16), None);
    assert_eq!(get_varint(&v, 5, 6), None);
    assert_eq!(get_varint(&v, 5, 5), None);
    // none of the first ten bytes ends the varint
    assert_eq!(get_varint(&[0x80; 12], 0, 12), None);
}

#[test]
fn fixed_width_words_are_little_endian() {
    let mut v = vec![];
    put_fixed32(&mut v, 0x0102_0304);
    put_fixed64(&mut v, 0xDB47_7524_8B80_FB57);
    assert_eq!(v, vec![4, 3, 2, 1, 0x57, 0xFB, 0x80, 0x8B, 0x24, 0x75, 0x47, 0xDB]);
    assert_eq!(get_fixed32(&v, 0), 0x0102_0304);
    assert_eq!(get_fixed64(&v, 4), 0xDB47_7524_8B80_FB57);
}

#[test]
fn crc32c_of_the_check_string_and_its_mask() {
    assert_eq!(checksum(b"123456789"), 0xe306_9283);
    assert_eq!(checksum(b""), 0);
    assert!(verify_checksum(b"123456789", 0xe306_9283));
    assert!(!verify_checksum(b"123456788", 0xe306_9283));
    let c = 0xe306_9283u32;
    assert_eq!(mask_crc(c), c.rotate_right(15).wrapping_add(0xa282_ead8));
    assert_eq!(unmask_crc(mask_crc(c)), c);
    assert_eq!(unmask_crc(mask_crc(0)), 0);
    assert_eq!(unmask_crc(mask_crc(u32::MAX)), u32::MAX);
}

#[test]
fn byte_strings_are_ordered_as_unsigned_bytes() {
    assert!(bytes_lt(b"", b"a"));
    assert!(bytes_lt(b"a", b"ab"));
    assert!(bytes_lt(b"ab", b"b"));
    assert!(bytes_lt(&[0x7f], &[0x80]));
    assert!(!bytes_lt(b"b", b"ab"));
    assert!(!bytes_lt(b"a", b"a"));
    assert!(bytes_le(b"a", b"a"));
    assert!(!bytes_le(b"b", b"a"));
    assert!(bytes_eq(b"abc", b"abc"));
    assert!(!bytes_eq(b"abc", b"abd"));
    assert!(!bytes_eq(b"abc", b"ab"));
    assert_eq!(shared_prefix_len(b"apple", b"apricot"), 2);
    assert_eq!(shared_prefix_len(b"apple", b"apple pie"), 5);
}

#[test]
fn short_separator_lies_between_its_keys() {
    assert_eq!(short_separator(b"abcdef", b"abzzzz"), b"abd".to_vec());
    assert_eq!(short_separator(b"abc", b"abd"), b"abc".to_vec());
    assert_eq!(short_separator(b"abc", b"abcd"), b"abc".to_vec());
    assert_eq!(short_separator(b"", b"a"), b"".to_vec());
    assert_eq!(short_separator(&[1, 0xff, 3], &[1, 0xff, 9]), vec![1, 0xff, 4]);
    assert_eq!(short_separator(&[0xfe], &[0xff, 1]), vec![0xfe]);
}

#[test]
fn block_handle_and_footer_bytes() {
    let h = BlockHandle::new(300, 5);
    assert_eq!(h.encode(), vec![0xac, 2, 5]);
    assert_eq!(BlockHandle::decode(&[0xac, 2, 5, 9, 9]), Some((h, 3)));
    assert_eq!(BlockHandle::decode(&[0xac]), None);
    assert_eq!(BlockHandle::decode(&[0xac, 2]), None);
    let f = Footer::new(h).encode();
    assert_eq!(f.len(), FOOTER_LENGTH);
    assert_eq!(&f[..3], &[0xac, 2, 5]);
    assert!(f[3..40].iter().all(|b| *b == 0));
    assert_eq!(&f[40..], &0xDB47_7524_8B80_FB57u64.to_le_bytes());
    assert_eq!(Footer::decode(&f).unwrap().index, h);
    let mut bad = f.clone();
    bad[47] ^= 1;
    assert_eq!(Footer::decode(&bad).unwrap_err().code, StatusCode::InvalidData);
    assert_eq!(Footer::decode(&f[1..]).unwrap_err().code, StatusCode::InvalidData);
}

#[test]
fn status_messages_and_compression_codes() {
    assert_eq!(Status::new(StatusCode::IOError, "").msg, "IOError");
    assert_eq!(Status::new(StatusCode::NotFound, "no file").msg, "NotFound: no file");
    assert_eq!(Status::from_io(true, "gone").code, StatusCode::NotFound);
    assert_eq!(Status::from_io(false, "disk").msg, "IOError: disk");
    let e = err::<()>(StatusCode::InvalidData, "invalid data").unwrap_err();
    assert_eq!((e.code, e.msg.as_str()), (StatusCode::InvalidData, "invalid data"));
    assert_eq!(StatusCode::CompressError.name(), "CompressError");
    assert_eq!(compress_type_to_int(CompressType::Uncompressed), 0);
    assert_eq!(compress_type_to_int(CompressType::Snappy), 1);
    assert_eq!(int_to_compress_type(1), Some(CompressType::Snappy));
    assert_eq!(int_to_compress_type(2), None);
}

#[test]
fn snappy_errors_become_statuses() {
    let data = vec![b'x'; 1000];
    let packed = compress(&data).unwrap();
    assert!(packed.len() < 100);
    assert_eq!(decompress(&packed).unwrap(), data);
    let e = decompress(&[0xff, 0xff, 0xff]).unwrap_err();
    let s = Status::from_snap(e);
    assert_eq!(s.code, StatusCode::SnapError);
    assert!(s.msg.starts_with("SnapError: "));
}
