use foyer_storage::footer::{EntryFooter, RegionFooter, REGION_MAGIC};

fn sample() -> EntryFooter {
    EntryFooter {
        key_len: 0x0102_0304,
        value_len: 0x0506_0708,
        padding: 9,
        checksum: 0x1112_1314_1516_1718,
    }
}

#[test]
fn entry_footer_is_twenty_bytes() {
    assert_eq!(EntryFooter::serialized_len(), 20);
}

#[test]
fn entry_footer_is_big_endian_in_field_order() {
    let mut buf = vec![0xaa; 22];
    sample().write(&mut buf);
    assert_eq!(
        buf,
        vec![
            1, 2, 3, 4, 5, 6, 7, 8, 0, 0, 0, 9, 0x11, 0x12, 0x13, 0x14, 0x15, 0x16, 0x17, 0x18,
            0xaa, 0xaa
        ]
    );
}

#[test]
fn entry_footer_reads_what_was_written() {
    let mut buf = vec![0; 20];
    sample().write(&mut buf);
    assert_eq!(EntryFooter::read(&buf), sample());
}

#[test]
fn entry_footer_write_of_read_changes_nothing() {
    let bytes: Vec<u8> = (100..125).collect();
    let mut copy = bytes.clone();
    EntryFooter::read(&bytes).write(&mut copy);
    assert_eq!(copy, bytes);
}

#[test]
fn entry_footer_holds_extreme_fields() {
    let footer = EntryFooter {
        key_len: u32::MAX,
        value_len: 0,
        padding: u32::MAX,
        checksum: u64::MAX,
    };
    let mut buf = vec![7; 20];
    footer.write(&mut buf);
    assert_eq!(EntryFooter::read(&buf), footer);
    assert_eq!(&buf[4..8], &[0, 0, 0, 0]);
}

#[test]
fn region_footer_stands_at_the_end() {
    let footer = RegionFooter {
        magic: REGION_MAGIC,
        padding: 0x0102,
    };
    let mut buf = vec![0xaa; 18];
    footer.write(&mut buf);
    assert_eq!(
        buf,
        vec![
            0xaa, 0xaa, 0, 0, 0, 0, 0, 0, 1, 2, 0, 0, 0, 0, 0x19, 0x97, 0x03, 0x27
        ]
    );
}

#[test]
fn region_footer_reads_what_was_written() {
    let footer = RegionFooter {
        magic: u64::MAX,
        padding: 0x1112_1314_1516_1718,
    };
    let mut buf = vec![0; 64];
    footer.write(&mut buf);
    assert_eq!(RegionFooter::read(&buf), footer);
}

#[test]
fn region_footer_write_of_read_changes_nothing() {
    let bytes: Vec<u8> = (0..40).collect();
    let mut copy = bytes.clone();
    RegionFooter::read(&bytes).write(&mut copy);
    assert_eq!(copy, bytes);
}

#[test]
fn region_magic_is_fixed() {
    assert_eq!(REGION_MAGIC, 0x19970327);
}
