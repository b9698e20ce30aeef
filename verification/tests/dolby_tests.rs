use bbtsdecrypt::dolby::{
    decrypt_dolby_rpu_unit, dolby_rpu_payload_is_crc_valid, dolby_rpu_rbsp_positions_from_ebsp,
    find_valid_dolby_rpu_rbsp_end, hevc_nal_type_from_annexb_unit, is_valid_dolby_rpu_unit,
    mpeg_crc32, rpu_decryption_inputs, trim_dolby_rpu_nal_payload,
};

/// An RPU RBSP: the `19` prefix, a body, the CRC of the body, and the `80`
/// closing byte.
fn rpu_rbsp(body: &[u8]) -> Vec<u8> {
    let mut r = vec![0x19];
    r.extend_from_slice(body);
    let crc = mpeg_crc32(&r[1..]);
    r.extend_from_slice(&crc.to_be_bytes());
    r.push(0x80);
    r
}

#[test]
fn crc32_mpeg2_check_value() {
    assert_eq!(mpeg_crc32(b"123456789"), 0x0376_e6e7);
    assert_eq!(mpeg_crc32(&[]), 0xffff_ffff);
}

#[test]
fn nal_type_of_annexb_units() {
    assert_eq!(hevc_nal_type_from_annexb_unit(&[0, 0, 0, 1, 0x7c, 0x01]), 62);
    assert_eq!(hevc_nal_type_from_annexb_unit(&[0, 0, 1, 0x7c, 0x01]), 62);
    assert_eq!(hevc_nal_type_from_annexb_unit(&[0, 0, 1, 0x7c]), -1);
    assert_eq!(hevc_nal_type_from_annexb_unit(&[0, 1, 0x7c, 0x01]), -1);
}

#[test]
fn rbsp_positions_skip_emulation_bytes() {
    assert_eq!(dolby_rpu_rbsp_positions_from_ebsp(&[0, 0, 3, 1, 0, 0, 3, 3]), vec![0, 1, 3, 4, 5, 7]);
    assert_eq!(dolby_rpu_rbsp_positions_from_ebsp(&[]), Vec::<usize>::new());
}

#[test]
fn valid_rbsp_end_is_after_the_last_crc_closed_byte() {
    let r = rpu_rbsp(&[1, 2, 3, 4, 5]);
    assert_eq!(r.len(), 11);
    assert_eq!(find_valid_dolby_rpu_rbsp_end(&r), 11);
    let mut longer = r.clone();
    longer.extend_from_slice(&[0x00, 0x11]);
    assert_eq!(find_valid_dolby_rpu_rbsp_end(&longer), 11);
    let mut broken = r.clone();
    broken[2] ^= 1;
    assert_eq!(find_valid_dolby_rpu_rbsp_end(&broken), 11);
    let mut not_rpu = r.clone();
    not_rpu[0] = 0x18;
    not_rpu.push(0);
    assert_eq!(find_valid_dolby_rpu_rbsp_end(&not_rpu), 12);
}

#[test]
fn trimming_and_crc_validation() {
    let r = rpu_rbsp(&[1, 2, 3, 4, 5]);
    let mut payload = vec![0x7c, 0x01];
    payload.extend_from_slice(&r);
    let mut padded = payload.clone();
    padded.extend_from_slice(&[0x00, 0x00, 0x00]);
    assert_eq!(trim_dolby_rpu_nal_payload(&padded), payload);
    assert!(dolby_rpu_payload_is_crc_valid(&payload));
    assert!(dolby_rpu_payload_is_crc_valid(&padded));
    let mut broken = payload.clone();
    broken[4] ^= 0x40;
    assert!(!dolby_rpu_payload_is_crc_valid(&broken));
    assert_eq!(trim_dolby_rpu_nal_payload(&broken), broken);
    assert_eq!(trim_dolby_rpu_nal_payload(&[1, 2, 3]), vec![1, 2, 3]);
    assert!(!dolby_rpu_payload_is_crc_valid(&payload[..9]));
}

/// A stand-in decryption of `len` bytes: an RPU prefix and filler.
fn junk(len: usize) -> Vec<u8> {
    let mut j = vec![0x55u8; len];
    if len > 0 {
        j[0] = 0x19;
    }
    j
}

#[test]
fn rpu_recovery_takes_the_first_crc_valid_decryption() {
    let unit = vec![
        0, 0, 0, 1, 0x7c, 0x01, 0xaa, 0xbb, 0xcc, 0xdd, 0xee, 0xff, 0x11, 0x22, 0x33, 0x44, 0x55, 0x66,
        0x77, 0x88, 0x99, 0x10,
    ];
    let full = unit.len() - 6;
    let drops = [4usize, 0, 2, 1, 3, 5, 6, 7, 8, 12, 16];
    let all_junk: Vec<Vec<u8>> = drops.iter().map(|d| junk(full.saturating_sub(*d))).collect();

    let mut good = rpu_rbsp(&[9, 8, 7, 6]);
    good.resize(full, 0x00);
    let mut with_good = all_junk.clone();
    with_good[1] = good;
    let out = decrypt_dolby_rpu_unit(&unit, &with_good).unwrap();
    let mut expected = vec![0, 0, 0, 1, 0x7c, 0x01];
    expected.extend_from_slice(&rpu_rbsp(&[9, 8, 7, 6]));
    assert_eq!(out, expected);
    assert!(is_valid_dolby_rpu_unit(&unit, &with_good));

    let fallback = decrypt_dolby_rpu_unit(&unit, &all_junk).unwrap();
    let mut expected = vec![0, 0, 0, 1, 0x7c, 0x01];
    expected.extend_from_slice(&all_junk[0]);
    assert_eq!(fallback, expected);
    assert_eq!(&fallback[4..6], &unit[4..6]);
    assert!(fallback.len() <= 4 + unit.len() - 4);
    assert!(!is_valid_dolby_rpu_unit(&unit, &all_junk));

    assert_eq!(decrypt_dolby_rpu_unit(&[0, 0, 0, 1, 0x4e, 0x01, 0x00], &vec![]), None);
    assert!(!is_valid_dolby_rpu_unit(&[0, 0, 0, 1, 0x4e, 0x01, 0x00], &vec![]));
}

#[test]
fn rpu_decryption_inputs_cut_tails_and_derive_the_iv() {
    let unit = [0u8, 0, 0, 1, 0x7c, 0x01, 10, 11, 12, 13, 14, 15];
    let key: [u8; 16] = [1, 2, 3, 4, 5, 6, 7, 8, 9, 10, 11, 12, 13, 14, 15, 16];
    let (sources, iv) = rpu_decryption_inputs(&unit, &key).unwrap();
    assert_eq!(iv, [1, 2, 3, 4, 5, 6, 7, 8, 9, 10, 11, 12, 0, 0, 0, 0]);
    let full = &unit[6..];
    let drops = [4usize, 0, 2, 1, 3, 5, 6, 7, 8, 12, 16];
    assert_eq!(sources.len(), drops.len());
    for (src, drop) in sources.iter().zip(drops.iter()) {
        let keep = full.len().saturating_sub(*drop);
        assert_eq!(src.as_slice(), &full[..keep]);
    }
    assert_eq!(sources[0], vec![10, 11]);
    assert!(sources[10].is_empty());
    let not_rpu = [0u8, 0, 1, 0x40, 0x01, 9, 9];
    assert!(rpu_decryption_inputs(&not_rpu, &key).is_none());
}
