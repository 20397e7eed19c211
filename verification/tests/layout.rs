use foyer_storage::bits::{align_down, align_up};
use foyer_storage::config::{buffer_pool, BufferPool};

#[test]
fn align_up_is_the_least_multiple_above() {
    assert_eq!(align_up(512, 0), 0);
    assert_eq!(align_up(512, 1), 512);
    assert_eq!(align_up(512, 512), 512);
    assert_eq!(align_up(512, 513), 1024);
    assert_eq!(align_up(1, 13), 13);
    assert_eq!(align_up(4096, usize::MAX - 4095), usize::MAX - 4095);
}

#[test]
fn align_down_is_the_greatest_multiple_below() {
    assert_eq!(align_down(512, 0), 0);
    assert_eq!(align_down(512, 511), 0);
    assert_eq!(align_down(512, 512), 512);
    assert_eq!(align_down(512, 1535), 1024);
}

#[test]
fn rounding_is_tight() {
    for v in 0..2000usize {
        let up = align_up(64, v);
        let down = align_down(64, v);
        assert!(up % 64 == 0 && down % 64 == 0);
        assert!(down <= v && v <= up);
        assert!(up < v + 64 && v < down + 64);
    }
}

#[test]
fn buffer_pool_holds_whole_regions() {
    assert_eq!(
        buffer_pool(1000, 300),
        BufferPool {
            count: 3,
            len: 300,
            capacity: 300
        }
    );
    assert_eq!(buffer_pool(299, 300).count, 0);
    assert_eq!(buffer_pool(600, 300).count, 2);
}
