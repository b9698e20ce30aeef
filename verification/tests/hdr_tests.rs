use bbtsdecrypt::hdr::{
    build_canonical_sei_unit, classify_mastering_gamut, coordinate_near, decrypt_hdr_sei_unit,
    hdr_trailer_sizes, is_hdr_vivid_v1_t35, is_recognized_hdr_message, is_valid_mastering_display,
    normalize_hdr_messages, normalize_mastering_display, normalized_candidates,
    parse_complete_sei_unit, parse_content_light_level, parse_mastering_display, primaries_near,
    read_be_u16, read_be_u32, read_ff_value, write_be_u16, write_ff_value, MasteringGamut,
    SeiMessage,
};

fn mastering_payload(coords: [u16; 8], max_lum: u32, min_lum: u32) -> Vec<u8> {
    let mut p = Vec::new();
    for c in coords {
        p.extend_from_slice(&c.to_be_bytes());
    }
    p.extend_from_slice(&max_lum.to_be_bytes());
    p.extend_from_slice(&min_lum.to_be_bytes());
    p
}

const P3_D65: [u16; 8] = [13_250, 34_500, 7_500, 3_000, 34_000, 16_000, 15_635, 16_450];
const BT2020_D65: [u16; 8] = [8_500, 39_850, 6_550, 2_300, 35_400, 14_600, 15_635, 16_450];

#[test]
fn big_endian_reads_and_writes() {
    let data = [0x12, 0x34, 0x56, 0x78, 0x9a];
    assert_eq!(read_be_u16(&data, 0), Some(0x1234));
    assert_eq!(read_be_u16(&data, 3), Some(0x789a));
    assert_eq!(read_be_u16(&data, 4), None);
    assert_eq!(read_be_u32(&data, 1), Some(0x3456789a));
    assert_eq!(read_be_u32(&data, 2), None);
    let mut out = vec![0u8; 4];
    write_be_u16(&mut out, 1, 0xbeef);
    assert_eq!(out, vec![0, 0xbe, 0xef, 0]);
    assert_eq!(read_be_u16(&out, 1), Some(0xbeef));
}

#[test]
fn ff_coded_values() {
    let mut out = Vec::new();
    write_ff_value(300, &mut out);
    write_ff_value(255, &mut out);
    write_ff_value(4, &mut out);
    assert_eq!(out, vec![0xff, 45, 0xff, 0, 4]);
    let mut pos = 0usize;
    assert_eq!(read_ff_value(&out, &mut pos), Some(300));
    assert_eq!(pos, 2);
    assert_eq!(read_ff_value(&out, &mut pos), Some(255));
    assert_eq!(read_ff_value(&out, &mut pos), Some(4));
    assert_eq!(pos, 5);
    assert_eq!(read_ff_value(&out, &mut pos), None);
    let mut pos = 0usize;
    assert_eq!(read_ff_value(&[0xff, 0xff], &mut pos), None);
    assert_eq!(pos, 2);
}

#[test]
fn ff_value_overflow_is_refused() {
    let mut data = vec![0xffu8; 16_843_010];
    data.push(0x10);
    let mut pos = 0usize;
    assert_eq!(read_ff_value(&data, &mut pos), None);
}

#[test]
fn hdr_vivid_detection() {
    let mut p = vec![0x26, 0x00, 0x04, 0x00, 0x05, 0x01];
    p.extend_from_slice(&[0u8; 7]);
    assert!(is_hdr_vivid_v1_t35(&p));
    assert!(!is_hdr_vivid_v1_t35(&p[..12]));
    p[5] = 0x02;
    assert!(!is_hdr_vivid_v1_t35(&p));
}

#[test]
fn mastering_display_parsing_and_validation() {
    let p = mastering_payload(P3_D65, 10_000_000, 50);
    let m = parse_mastering_display(&p).unwrap();
    assert_eq!(m.primaries, [(13_250, 34_500), (7_500, 3_000), (34_000, 16_000)]);
    assert_eq!(m.white_point, (15_635, 16_450));
    assert_eq!(m.max_luminance, 10_000_000);
    assert_eq!(m.min_luminance, 50);
    assert!(is_valid_mastering_display(&p));
    assert!(!is_valid_mastering_display(&p[..23]));
    let too_big = mastering_payload([50_001, 0, 0, 0, 0, 0, 0, 0], 1, 0);
    assert!(parse_mastering_display(&too_big).is_none());
    let inverted = mastering_payload(P3_D65, 5, 6);
    assert!(parse_mastering_display(&inverted).is_none());
}

#[test]
fn gamut_classification() {
    assert!(coordinate_near(100, 200, 100));
    assert!(!coordinate_near(99, 200, 100));
    assert!(coordinate_near(300, 200, 100));
    assert!(primaries_near(&[(13_300, 34_450), (7_500, 3_100), (33_900, 16_000)], &[
        (13_250, 34_500),
        (7_500, 3_000),
        (34_000, 16_000),
    ]));
    let p3 = parse_mastering_display(&mastering_payload(P3_D65, 1, 0)).unwrap();
    assert_eq!(classify_mastering_gamut(&p3), MasteringGamut::DisplayP3);
    let bt = parse_mastering_display(&mastering_payload(BT2020_D65, 1, 0)).unwrap();
    assert_eq!(classify_mastering_gamut(&bt), MasteringGamut::Bt2020);
    let other =
        parse_mastering_display(&mastering_payload([1, 2, 3, 4, 5, 6, 15_635, 16_450], 1, 0)).unwrap();
    assert_eq!(classify_mastering_gamut(&other), MasteringGamut::Custom);
}

#[test]
fn mastering_display_normalization() {
    let near = mastering_payload([13_300, 34_420, 7_450, 3_050, 34_099, 15_901, 15_700, 16_400], 1000, 1);
    let n = normalize_mastering_display(&near).unwrap();
    assert_eq!(n, mastering_payload(P3_D65, 1000, 1));

    let near_bt = mastering_payload([8_550, 39_800, 6_500, 2_350, 35_400, 14_600, 15_635, 16_450], 7, 7);
    assert_eq!(normalize_mastering_display(&near_bt).unwrap(), mastering_payload(BT2020_D65, 7, 7));

    let off_white = mastering_payload([13_300, 34_420, 7_450, 3_050, 34_099, 15_901, 15_000, 16_400], 9, 1);
    assert_eq!(normalize_mastering_display(&off_white).unwrap(), off_white);

    let custom = mastering_payload([1, 2, 3, 4, 5, 6, 15_635, 16_450], 9, 1);
    assert_eq!(normalize_mastering_display(&custom).unwrap(), custom);

    assert!(normalize_mastering_display(&custom[..20]).is_none());
}

#[test]
fn content_light_level_and_recognition() {
    assert_eq!(parse_content_light_level(&[0x03, 0xe8, 0x01, 0x90]), Some((1000, 400)));
    assert_eq!(parse_content_light_level(&[0x03, 0xe8, 0x01]), None);
    let cll = SeiMessage { payload_type: 144, payload: vec![0x03, 0xe8, 0x01, 0x90] };
    assert!(is_recognized_hdr_message(&cll));
    let atc = SeiMessage { payload_type: 147, payload: vec![18] };
    assert!(is_recognized_hdr_message(&atc));
    let atc_long = SeiMessage { payload_type: 147, payload: vec![18, 0] };
    assert!(!is_recognized_hdr_message(&atc_long));
    let md = SeiMessage { payload_type: 137, payload: mastering_payload(P3_D65, 2, 1) };
    assert!(is_recognized_hdr_message(&md));
    let other = SeiMessage { payload_type: 5, payload: vec![1, 2, 3] };
    assert!(!is_recognized_hdr_message(&other));
}

#[test]
fn message_normalization() {
    let msgs = vec![
        SeiMessage {
            payload_type: 137,
            payload: mastering_payload([13_300, 34_420, 7_450, 3_050, 34_099, 15_901, 15_700, 16_400], 3, 1),
        },
        SeiMessage { payload_type: 5, payload: vec![9, 9] },
    ];
    let n = normalize_hdr_messages(&msgs).unwrap();
    assert_eq!(n.len(), 2);
    assert_eq!(n[0].payload_type, 137);
    assert_eq!(n[0].payload, mastering_payload(P3_D65, 3, 1));
    assert_eq!(n[1].payload_type, 5);
    assert_eq!(n[1].payload, vec![9, 9]);

    let bad = vec![SeiMessage { payload_type: 144, payload: vec![1, 2, 3] }];
    assert!(normalize_hdr_messages(&bad).is_none());
    let bad_md = vec![SeiMessage { payload_type: 137, payload: vec![1, 2, 3] }];
    assert!(normalize_hdr_messages(&bad_md).is_none());
}

#[test]
fn canonical_sei_unit_round_trip() {
    let msgs = vec![
        SeiMessage { payload_type: 137, payload: mastering_payload(P3_D65, 10_000_000, 50) },
        SeiMessage { payload_type: 144, payload: vec![0x03, 0xe8, 0x01, 0x90] },
        SeiMessage { payload_type: 300, payload: vec![0u8; 260] },
    ];
    let unit = build_canonical_sei_unit([0x4e, 0x01], &msgs);
    assert_eq!(&unit[..6], &[0, 0, 0, 1, 0x4e, 0x01]);
    assert_eq!(unit[6], 137);
    assert_eq!(unit[7], 24);
    let (header, parsed) = parse_complete_sei_unit(&unit).unwrap();
    assert_eq!(header, [0x4e, 0x01]);
    assert_eq!(parsed.len(), 3);
    for (a, b) in parsed.iter().zip(msgs.iter()) {
        assert_eq!(a.payload_type, b.payload_type);
        assert_eq!(a.payload, b.payload);
    }
}

#[test]
fn sei_parsing_rejects_malformed_units() {
    // not an SEI NAL unit
    assert!(parse_complete_sei_unit(&[0, 0, 0, 1, 0x42, 0x01, 0x80]).is_none());
    // payload runs past the end
    assert!(parse_complete_sei_unit(&[0, 0, 0, 1, 0x4e, 0x01, 0x04, 0x05, 0x01, 0x80]).is_none());
    // stop bit followed by a non-zero byte
    assert!(parse_complete_sei_unit(&[0, 0, 0, 1, 0x4e, 0x01, 0x80, 0x01]).is_none());
    // no stop bit at all
    assert!(parse_complete_sei_unit(&[0, 0, 0, 1, 0x4e, 0x01, 0x04, 0x01, 0x07]).is_none());
    // stop bit with zero padding is fine, suffix SEI too
    let (h, m) = parse_complete_sei_unit(&[0, 0, 1, 0x50, 0x01, 0x04, 0x01, 0x07, 0x80, 0x00]).unwrap();
    assert_eq!(h, [0x50, 0x01]);
    assert_eq!(m.len(), 1);
    assert_eq!(m[0].payload, vec![0x07]);
}

#[test]
fn trailer_sizes_start_with_the_default() {
    assert_eq!(hdr_trailer_sizes(2), vec![2, 4, 0, 1, 3, 5, 6, 7, 8, 12, 16]);
    assert_eq!(hdr_trailer_sizes(0), vec![0, 2, 4, 1, 3, 5, 6, 7, 8, 12, 16]);
    assert_eq!(hdr_trailer_sizes(20), vec![20, 2, 4, 0, 1, 3, 5, 6, 7, 8, 12, 16]);
    assert_eq!(hdr_trailer_sizes(9), vec![9, 2, 4, 0, 1, 3, 5, 6, 7, 8, 12, 16]);
}

#[test]
fn candidate_readings_of_a_decrypted_unit() {
    let c: Vec<u8> = (1..=20).collect();
    let v = normalized_candidates(&c, 4);
    assert_eq!(v.len(), 11);
    assert_eq!(v[0], c);
    assert_eq!(v[1], c);
    assert_eq!(v[2], c[..19].to_vec());
    assert_eq!(v[10], c[..8].to_vec());

    let w = normalized_candidates(&c, 3);
    let mut first = vec![0u8];
    first.extend_from_slice(&c[..16]);
    assert_eq!(w[0], first);
    let mut second = vec![0u8];
    second.extend_from_slice(&c);
    assert_eq!(w[1], second);
    assert_eq!(w.len(), 11);

    let short: Vec<u8> = vec![1, 2, 3, 4, 5, 6];
    assert_eq!(normalized_candidates(&short, 4), vec![short.clone()]);
}

#[test]
fn hdr_sei_recovery_picks_the_first_hdr_reading() {
    let msgs = vec![SeiMessage { payload_type: 144, payload: vec![0x03, 0xe8, 0x01, 0x90] }];
    let canonical = build_canonical_sei_unit([0x4e, 0x01], &msgs);
    let mut encrypted = vec![0, 0, 0, 1, 0x4e, 0x01];
    encrypted.extend_from_slice(&[0x11; 8]);
    let garbage = vec![0, 0, 0, 1, 0x4e, 0x01, 0x99, 0x98];
    let sizes = hdr_trailer_sizes(2);
    let mut decrypted = vec![garbage.clone(); sizes.len()];
    decrypted[1] = canonical.clone();
    assert_eq!(decrypt_hdr_sei_unit(&encrypted, &decrypted, 2), Some(canonical.clone()));
    assert_eq!(decrypt_hdr_sei_unit(&encrypted, &vec![garbage; sizes.len()], 2), None);
    let not_sei = vec![0, 0, 0, 1, 0x42, 0x01, 0x11];
    assert_eq!(decrypt_hdr_sei_unit(&not_sei, &vec![canonical], 2), None);
}

#[test]
fn hdr_sei_recovery_normalizes_the_messages() {
    let msgs = vec![SeiMessage {
        payload_type: 137,
        payload: mastering_payload([13_300, 34_420, 7_450, 3_050, 34_099, 15_901, 15_700, 16_400], 3, 1),
    }];
    let raw = build_canonical_sei_unit([0x50, 0x01], &msgs);
    let expected = build_canonical_sei_unit(
        [0x50, 0x01],
        &[SeiMessage { payload_type: 137, payload: mastering_payload(P3_D65, 3, 1) }],
    );
    let unit = vec![0, 0, 0, 1, 0x50, 0x01, 0x22, 0x33];
    let sizes = hdr_trailer_sizes(20);
    assert_eq!(sizes.len(), 12);
    let mut decrypted = vec![vec![0u8, 0, 0, 1, 0x50, 0x01]; sizes.len()];
    decrypted[0] = raw;
    assert_eq!(decrypt_hdr_sei_unit(&unit, &decrypted, 20), Some(expected));
}

#[test]
fn mastering_normalization_is_idempotent() {
    for coords in [
        [13_300, 34_420, 7_450, 3_050, 34_099, 15_901, 15_700, 16_400],
        [8_550, 39_800, 6_500, 2_350, 35_400, 14_600, 15_635, 16_450],
        [1, 2, 3, 4, 5, 6, 15_635, 16_450],
    ] {
        let p = mastering_payload(coords, 1234, 5);
        let once = normalize_mastering_display(&p).unwrap();
        assert_eq!(normalize_mastering_display(&once).unwrap(), once);
    }
}
