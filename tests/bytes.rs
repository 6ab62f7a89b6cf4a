use nepak::{hex32, read_exact, read_u16, read_u32, read_u64, read_u8, write_u32, write_u64, PakError};

#[test]
fn write_little_endian() {
    let mut v = vec![9u8];
    write_u32(&mut v, 0x0102_0304);
    write_u64(&mut v, 0x0A0B_0C0D_0E0F_1011);
    assert_eq!(v, vec![9, 4, 3, 2, 1, 0x11, 0x10, 0x0F, 0x0E, 0x0D, 0x0C, 0x0B, 0x0A]);
}

#[test]
fn read_little_endian() {
    let b = [1u8, 2, 3, 4, 5, 6, 7, 8, 9, 10, 11, 12, 13, 14, 15];
    let mut pos = 0usize;
    assert_eq!(read_u8(&b, &mut pos), Ok(1));
    assert_eq!(read_u16(&b, &mut pos), Ok(0x0302));
    assert_eq!(read_u32(&b, &mut pos), Ok(0x0706_0504));
    assert_eq!(read_u64(&b, &mut pos), Ok(0x0F0E_0D0C_0B0A_0908));
    assert_eq!(pos, 15);
    assert_eq!(read_u8(&b, &mut pos), Err(PakError::Invalid("unexpected end of data".to_string())));
    assert_eq!(pos, 15);
}

#[test]
fn read_fixed_array() {
    let b = [7u8, 8, 9];
    let mut pos = 1usize;
    let r: Result<[u8; 2], PakError> = read_exact::<2>(&b, &mut pos);
    assert_eq!(r, Ok([8, 9]));
    assert_eq!(pos, 3);
    let r2: Result<[u8; 1], PakError> = read_exact::<1>(&b, &mut pos);
    assert!(r2.is_err());
}

#[test]
fn hex_of_digest() {
    let mut d = [0u8; 32];
    d[0] = 0xAB;
    d[1] = 0x01;
    d[31] = 0xF0;
    let h = hex32(&d);
    assert_eq!(h.len(), 64);
    assert!(h.starts_with("ab01"));
    assert!(h.ends_with("f0"));
    assert_eq!(hex32(blake3::hash(b"hi").as_bytes()), blake3::hash(b"hi").to_hex().to_string());
}
