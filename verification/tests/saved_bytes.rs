//! The bytes of saved artifacts.
use tmu_rs::booleanizer::Number;
use tmu_rs::rng::Rng;
use tmu_rs::serial::{
    w_bool, w_f64, w_i32, w_rngs, w_str, w_u32, w_u64, w_u8, w_usize, w_vec_f64, w_vec_i32, w_vec_u8,
    write_header, Reader, SerialError, TAG_COALESCED, TAG_VANILLA, VERSION,
};

#[test]
fn numbers_are_little_endian() {
    let mut w = Vec::new();
    w_u8(&mut w, 0xAB);
    w_u32(&mut w, 0x0102_0304);
    w_u64(&mut w, 0x0102_0304_0506_0708);
    w_i32(&mut w, -2);
    w_f64(&mut w, Number(1.5f64.to_bits()));
    w_bool(&mut w, true);
    w_usize(&mut w, 7);
    let mut want = vec![0xAB];
    want.extend_from_slice(&0x0102_0304u32.to_le_bytes());
    want.extend_from_slice(&0x0102_0304_0506_0708u64.to_le_bytes());
    want.extend_from_slice(&(-2i32).to_le_bytes());
    want.extend_from_slice(&1.5f64.to_bits().to_le_bytes());
    want.push(1);
    want.extend_from_slice(&7u64.to_le_bytes());
    assert_eq!(w, want);

    let mut r = Reader::new(&w);
    assert_eq!(r.r_u8(), Ok(0xAB));
    assert_eq!(r.r_u32(), Ok(0x0102_0304));
    assert_eq!(r.r_u64(), Ok(0x0102_0304_0506_0708));
    assert_eq!(r.r_i32(), Ok(-2));
    assert_eq!(r.r_f64().map(|x| x.0), Ok(1.5f64.to_bits()));
    assert_eq!(r.r_bool(), Ok(true));
    assert_eq!(r.r_usize(), Ok(7));
    assert_eq!(r.left(), 0);
    assert_eq!(r.r_u8(), Err(SerialError::Truncated));
}

#[test]
fn lists_are_read_back() {
    let mut w = Vec::new();
    w_vec_u8(&mut w, &[1, 2, 3]);
    w_vec_i32(&mut w, &[i32::MIN, -1, 0, i32::MAX]);
    w_vec_f64(&mut w, &[Number(0.1f64.to_bits()), Number((-0.0f64).to_bits())]);
    w_rngs(&mut w, &[Rng::new(1), Rng::new(2)]);
    let mut r = Reader::new(&w);
    assert_eq!(r.r_vec_u8(), Ok(vec![1, 2, 3]));
    assert_eq!(r.r_vec_i32(), Ok(vec![i32::MIN, -1, 0, i32::MAX]));
    let f: Vec<u64> = r.r_vec_f64().unwrap().iter().map(|x| x.0).collect();
    assert_eq!(f, vec![0.1f64.to_bits(), (-0.0f64).to_bits()]);
    let raw: Vec<u64> = r.r_rngs().unwrap().iter().map(|x| x.raw()).collect();
    assert_eq!(raw, vec![Rng::new(1).raw(), Rng::new(2).raw()]);
    assert_eq!(r.left(), 0);
}

#[test]
fn any_byte_but_zero_is_true() {
    let mut r = Reader::new(&[0, 1, 7]);
    assert_eq!((r.r_bool(), r.r_bool(), r.r_bool()), (Ok(false), Ok(true), Ok(true)));
}

#[test]
fn texts_are_counted_in_bytes() {
    let mut w = Vec::new();
    w_str(&mut w, "añ€😀");
    assert_eq!(w[0] as usize, "añ€😀".len());
    let mut r = Reader::new(&w);
    assert_eq!(r.r_str(), Ok("añ€😀".to_string()));
    let mut empty = Vec::new();
    w_str(&mut empty, "");
    assert_eq!(Reader::new(&empty).r_str(), Ok(String::new()));
}

#[test]
fn bytes_that_are_not_text_are_refused() {
    for bad in [vec![0xFFu8], vec![0xC3], vec![0xE2, 0x82], vec![0xED, 0xA0, 0x80], vec![0xC0, 0x80]] {
        let mut w = Vec::new();
        w_vec_u8(&mut w, &bad);
        assert_eq!(Reader::new(&w).r_str(), Err(SerialError::BadText), "{:?}", bad);
    }
}

#[test]
fn lengths_beyond_the_end_are_refused() {
    let mut w = Vec::new();
    w_usize(&mut w, 10);
    w.extend_from_slice(&[1, 2, 3]);
    assert_eq!(Reader::new(&w).r_vec_u8(), Err(SerialError::Truncated));
    assert_eq!(Reader::new(&w).r_vec_i32(), Err(SerialError::Truncated));
    assert_eq!(Reader::new(&w).r_str(), Err(SerialError::Truncated));
    let huge = u64::MAX.to_le_bytes();
    assert_eq!(Reader::new(&huge).r_vec_u8(), Err(SerialError::Truncated));
}

#[test]
fn headers_say_what_an_artifact_is() {
    let mut w = Vec::new();
    write_header(&mut w, TAG_VANILLA);
    assert_eq!(w, b"TMRS\x01\x00\x00\x00\x01");
    assert_eq!(VERSION, 1);
    assert_eq!(Reader::new(&w).read_header(TAG_VANILLA), Ok(()));
    assert_eq!(
        Reader::new(&w).read_header(TAG_COALESCED),
        Err(SerialError::WrongTag { found: TAG_VANILLA, expected: TAG_COALESCED })
    );
    assert_eq!(Reader::new(&w[..8]).read_header(TAG_VANILLA), Err(SerialError::Truncated));
    let mut v = w.clone();
    v[4] = 9;
    assert_eq!(Reader::new(&v).read_header(TAG_VANILLA), Err(SerialError::BadVersion { found: 9 }));
    v[0] = b'X';
    assert_eq!(Reader::new(&v).read_header(TAG_VANILLA), Err(SerialError::BadMagic));
}
