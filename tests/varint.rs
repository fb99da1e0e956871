use hextree::varint::{self, MAX_VARINT_VAL};
use hextree::Error;

#[test]
fn test_varint() {
    let mut buf = Vec::new();
    let mut val: u32 = 0;
    loop {
        varint::write(&mut buf, val).unwrap();
        assert!(buf[0].leading_zeros() > 0);
        let (r_val, _n) = varint::read(&buf[..], 0).unwrap();
        assert_eq!(val, r_val);
        buf.clear();
        if val == MAX_VARINT_VAL {
            break;
        }
        val += 1;
    }
    let mut val: u64 = MAX_VARINT_VAL as u64 + 1;
    while val <= u32::MAX as u64 {
        assert!(varint::write(&mut buf, val as u32).is_err());
        val += 4093;
    }
    assert!(varint::write(&mut buf, u32::MAX).is_err());
}

#[test]
fn varint_boundaries() {
    for (val, len) in [
        (0u32, 1u64),
        (0x3F, 1),
        (0x40, 2),
        (0x1FFF, 2),
        (0x2000, 3),
        (0xFFFFF, 3),
        (0x100000, 4),
        (0x7FFFFFF, 4),
    ] {
        let mut buf = Vec::new();
        assert_eq!(varint::write(&mut buf, val), Ok(len));
        assert_eq!(buf.len() as u64, len);
        assert_eq!(varint::read(&buf, 0), Ok((val, len)));
    }
    let mut buf = Vec::new();
    assert_eq!(varint::write(&mut buf, 0x8000000), Err(Error::Varint(0x8000000)));
    assert!(buf.is_empty());
}

#[test]
fn varint_exact_bytes() {
    let mut buf = Vec::new();
    varint::write(&mut buf, 0x3F).unwrap();
    varint::write(&mut buf, 0x40).unwrap();
    varint::write(&mut buf, 0x2000).unwrap();
    varint::write(&mut buf, 0x100000).unwrap();
    assert_eq!(
        buf,
        vec![0x7F, 0x20, 0x40, 0x10, 0x20, 0x00, 0x08, 0x10, 0x00, 0x00]
    );
}

#[test]
fn varint_read_errors() {
    assert_eq!(varint::read(&[], 0), Err(Error::Io));
    assert_eq!(varint::read(&[0x80], 0), Err(Error::Varint(0x80)));
    assert_eq!(varint::read(&[0x07], 0), Err(Error::Varint(0x07)));
    assert_eq!(varint::read(&[0x20], 0), Err(Error::Io));
    assert_eq!(varint::read(&[0x10, 0x00], 0), Err(Error::Io));
    assert_eq!(varint::read(&[0x08, 0x00, 0x00], 0), Err(Error::Io));
    assert_eq!(varint::read(&[0x00, 0x41], 1), Ok((1, 1)));
}
