use foyer_storage::checksum::checksum;
use foyer_storage::code::{Code, Key};
use foyer_storage::entry::{
    can_read_entry, read_entry, seal_entry, try_read_entry, verify_entry, write_entry,
};
use foyer_storage::error::Error;
use foyer_storage::footer::EntryFooter;

fn entry(len: usize, key: u64, value: &[u8]) -> Vec<u8> {
    let mut buf = vec![0xee; len];
    write_entry(&mut buf, &key, &value.to_vec());
    buf
}

#[test]
fn checksum_is_xxhash_with_seed_zero() {
    assert_eq!(checksum(&[]), 0xef46_db37_51d8_e999);
    assert_eq!(checksum(&[42]), 0x0a9e_dece_beb0_3ae4);
    assert_eq!(checksum(b"Hello, world!\0"), 0x7b06_c531_ea43_e89f);
}

#[test]
fn numbers_are_coded_in_eight_bytes() {
    let n: u64 = 0x0102_0304_0506_0708;
    assert_eq!(n.serialized_len(), 8);
    let mut buf = vec![0; 8];
    n.write(&mut buf);
    assert_eq!(buf, vec![1, 2, 3, 4, 5, 6, 7, 8]);
    assert_eq!(<u64 as Code>::read(&buf), n);
    assert!(!<u64 as Code>::can_read(&buf[..7]));
    assert_eq!(<u64 as Code>::read(&[0, 0, 0, 0, 0, 0, 1, 0, 99]), 256);
}

#[test]
fn byte_strings_are_coded_as_themselves() {
    let bytes = vec![3u8, 1, 2];
    assert_eq!(bytes.serialized_len(), 3);
    let mut buf = vec![0; 3];
    Code::write(&bytes, &mut buf);
    assert_eq!(buf, bytes);
    assert_eq!(<Vec<u8> as Code>::read(&buf), bytes);
    assert!(<Vec<u8> as Code>::can_read(&[]));
}

#[test]
fn keys_are_the_same_if_equal() {
    assert!(5u64.same(&5));
    assert!(!5u64.same(&6));
    assert!(vec![1u8, 2].same(&vec![1, 2]));
    assert!(!vec![1u8, 2].same(&vec![1, 3]));
    assert!(!vec![1u8, 2].same(&vec![1]));
    assert!(Vec::<u8>::new().same(&vec![]));
}

#[test]
fn entry_layout_is_value_key_padding_footer() {
    let buf = entry(40, 0x0102_0304_0506_0708, b"abc");
    let mut expected = b"abc".to_vec();
    expected.extend([1, 2, 3, 4, 5, 6, 7, 8]);
    let sum = checksum(&expected);
    expected.extend([0xee; 9]);
    expected.extend([0, 0, 0, 8, 0, 0, 0, 3, 0, 0, 0, 9]);
    expected.extend(sum.to_be_bytes());
    assert_eq!(buf, expected);
}

#[test]
fn entry_without_padding() {
    let buf = entry(31, 7, b"abc");
    assert_eq!(EntryFooter::read(&buf[11..]).padding, 0);
    assert_eq!(read_entry::<u64, Vec<u8>>(&buf), Some((7, b"abc".to_vec())));
}

#[test]
fn read_gives_back_what_was_written() {
    let buf = entry(512, 42, b"some value");
    assert!(can_read_entry::<u64, Vec<u8>>(&buf));
    assert_eq!(
        read_entry::<u64, Vec<u8>>(&buf),
        Some((42, b"some value".to_vec()))
    );
}

#[test]
fn empty_key_and_value() {
    let mut buf = vec![1; 20];
    write_entry(&mut buf, &Vec::<u8>::new(), &Vec::<u8>::new());
    assert_eq!(
        read_entry::<Vec<u8>, Vec<u8>>(&buf),
        Some((vec![], vec![]))
    );
}

#[test]
fn damaged_payload_is_not_returned() {
    for i in [0, 5, 9, 10, 17] {
        let mut buf = entry(64, 42, b"some value");
        buf[i] ^= 1;
        assert_eq!(read_entry::<u64, Vec<u8>>(&buf), None);
    }
}

#[test]
fn damaged_checksum_is_noticed() {
    let mut buf = entry(64, 42, b"some value");
    buf[63] ^= 0x80;
    assert_eq!(read_entry::<u64, Vec<u8>>(&buf), None);
}

#[test]
fn damaged_padding_is_not_noticed() {
    let mut buf = entry(64, 42, b"some value");
    buf[20] ^= 1;
    assert_eq!(
        read_entry::<u64, Vec<u8>>(&buf),
        Some((42, b"some value".to_vec()))
    );
}

#[test]
fn unreadable_entries_are_told_apart() {
    assert!(!can_read_entry::<u64, Vec<u8>>(&[0; 19]));
    // announces a key of no bytes
    assert!(!can_read_entry::<u64, Vec<u8>>(&[0; 20]));
    assert!(can_read_entry::<Vec<u8>, Vec<u8>>(&[0; 20]));
    // announces more than there is
    let mut buf = vec![0; 40];
    EntryFooter {
        key_len: 8,
        value_len: 33,
        padding: 0,
        checksum: 0,
    }
    .write(&mut buf[20..]);
    assert!(!can_read_entry::<u64, Vec<u8>>(&buf));
    EntryFooter {
        key_len: 8,
        value_len: 32,
        padding: 0,
        checksum: 0,
    }
    .write(&mut buf[20..]);
    assert!(can_read_entry::<u64, Vec<u8>>(&buf));
}

#[test]
fn sealing_writes_the_footer_only() {
    let mut buf = vec![5; 48];
    seal_entry(&mut buf, 8, 10, 99);
    assert_eq!(&buf[..28], &[5; 28]);
    assert_eq!(
        EntryFooter::read(&buf[28..]),
        EntryFooter {
            key_len: 8,
            value_len: 10,
            padding: 10,
            checksum: 99
        }
    );
}

#[test]
fn verification_compares_checksums() {
    let footer = EntryFooter {
        key_len: 1,
        value_len: 1,
        padding: 0,
        checksum: 10,
    };
    assert_eq!(verify_entry(&footer, 'k', 'v', 10), Ok(('k', 'v')));
    assert_eq!(
        verify_entry(&footer, 'k', 'v', 11),
        Err(Error::ChecksumMismatch {
            checksum: 11,
            expected: 10
        })
    );
}

#[test]
fn mismatch_tells_both_checksums() {
    let mut buf = entry(64, 42, b"some value");
    assert_eq!(
        try_read_entry::<u64, Vec<u8>>(&buf),
        Ok((42, b"some value".to_vec()))
    );
    let expected = checksum(&buf[..18]);
    buf[3] ^= 1;
    assert_eq!(
        try_read_entry::<u64, Vec<u8>>(&buf),
        Err(Error::ChecksumMismatch {
            checksum: checksum(&buf[..18]),
            expected
        })
    );
}
