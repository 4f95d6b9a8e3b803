use bf_jit::jit_utils::{compute_relative_32bit_offset, relative_32bit_offset_fits, CodeEmitter};

#[test]
fn compute_relative_offset() {
    let f = &compute_relative_32bit_offset;
    assert_eq!(f(20, 30), 10);
    assert_eq!(f(40, 30), 0xfffffff6);
    assert_eq!(f(20, 20), 0);
    assert_eq!(f(100, 101), 1);
    assert_eq!(f(101, 100), 0xffffffff);
    assert_eq!(f(1000, 1256), 256);
    assert_eq!(f(1256, 1000), 0xffffff00);
    assert_eq!(f(0xFFFFFFFF, 0x10000000C), 13);
    assert_eq!(f(0x10000000C, 0xFFFFFFFF), 0xFFFFFFF3);

    assert!(f(0x7FFFFFFF, 0x80000001) == 2);
    assert!(f(0x80000001, 0x7FFFFFFF) == 0xFFFFFFFE);

    assert!(f(0x2020202000000000, 0x202020207FFFFFFF) == 0x7FFFFFFF);
    assert!(f(0x2020202080000000, 0x2020202000000000) == 0x80000000);
}

#[test]
fn test_emitter() {
    let mut em1 = CodeEmitter::new();
    em1.emit_byte(0x20);
    assert!(em1.size() == 1);
    assert!(em1.code()[0] == 0x20);

    em1.emit_byte(0x30);
    assert!(em1.size() == 2);
    assert!(em1.code()[0] == 0x20);
    assert!(em1.code()[1] == 0x30);

    em1.emit_uint32(0xA0B0C0D0);
    assert!(em1.size() == 6);
    assert!(em1.code()[2] == 0xD0);
    assert!(em1.code()[3] == 0xC0);
    assert!(em1.code()[4] == 0xB0);
    assert!(em1.code()[5] == 0xA0);

    em1.emit_uint64(0x1112131415161718);
    assert!(em1.size() == 14);
    assert!(em1.code()[6] == 0x18);
    assert!(em1.code()[13] == 0x11);

    let mut em2 = CodeEmitter::new();
    em2.emit_bytes(&[0x01, 0x03, 0x05]);
    assert!(em2.size() == 3);
    assert!(em2.code()[0] == 0x01);
    assert!(em2.code()[1] == 0x03);
    assert!(em2.code()[2] == 0x05);

    // Now test the replacement methods
    let mut em3 = CodeEmitter::new();
    em3.emit_bytes(&[
        0x01, 0x02, 0x03, 0x04, 0x11, 0x12, 0x13, 0x14, 0x21, 0x22, 0x23, 0x24, 0x31, 0x32,
        0x33, 0x34,
    ]);
    assert!(em3.size() == 16);
    assert!(em3.code()[10] == 0x23);
    assert!(em3.code()[15] == 0x34);

    em3.replace_byte_at_offset(10, 0x55);
    assert!(em3.size() == 16);
    assert!(em3.code()[10] == 0x55);

    em3.replace_uint32_at_offset(12, 0xF2E2D2C2);
    assert!(em3.size() == 16);
    assert!(em3.code()[15] == 0xF2);
}

#[test]
fn emitter_writes_little_endian() {
    let mut em = CodeEmitter::new();
    em.emit_uint64(0x0102030405060708);
    assert_eq!(em.code().as_slice(), &[0x08, 0x07, 0x06, 0x05, 0x04, 0x03, 0x02, 0x01]);
    em.replace_uint32_at_offset(2, 0xAABBCCDD);
    assert_eq!(em.code().as_slice(), &[0x08, 0x07, 0xDD, 0xCC, 0xBB, 0xAA, 0x02, 0x01]);
}

#[test]
fn relative_offset_limits() {
    assert!(relative_32bit_offset_fits(0, 0x7FFF_FFFF));
    assert!(!relative_32bit_offset_fits(0, 0x8000_0000));
    assert!(relative_32bit_offset_fits(0x8000_0000, 0));
    assert!(!relative_32bit_offset_fits(0x8000_0001, 0));
    assert_eq!(compute_relative_32bit_offset(0, 0x7FFF_FFFF), 0x7FFF_FFFF);
    assert_eq!(compute_relative_32bit_offset(0x8000_0000, 0), 0x8000_0000);
}
