use bbtsdecrypt::ts::{
    extract_hex_marker_key, extract_packet_block_key, has_dovi_registration, packet_info,
    parse_pat, parse_pmt_streams_map, parse_pmt_video_pids, parse_sdt_and_set_iv, printable_bytes,
    stream_type_is_video, PSIAssembler,
};

fn ts_packet(pid: u16, pusi: bool, payload: &[u8]) -> [u8; 188] {
    let mut p = [0xffu8; 188];
    p[0] = 0x47;
    p[1] = ((pid >> 8) as u8 & 0x1f) | if pusi { 0x40 } else { 0 };
    p[2] = pid as u8;
    p[3] = 0x10;
    p[4..4 + payload.len()].copy_from_slice(payload);
    p
}

fn pat_section(entries: &[(u16, u16)]) -> Vec<u8> {
    let len = 9 + 4 * entries.len();
    let mut s = vec![0x00, 0xb0, len as u8, 0x00, 0x01, 0xc1, 0x00, 0x00];
    for &(prog, pid) in entries {
        s.extend_from_slice(&[(prog >> 8) as u8, prog as u8, 0xe0 | (pid >> 8) as u8, pid as u8]);
    }
    s.extend_from_slice(&[0xde, 0xad, 0xbe, 0xef]);
    s
}

fn pmt_section(streams: &[(u8, u16, Vec<u8>)]) -> Vec<u8> {
    let body: usize = streams.iter().map(|(_, _, d)| 5 + d.len()).sum();
    let len = 9 + body + 4;
    let mut s = vec![0x02, 0xb0, len as u8, 0x00, 0x01, 0xc1, 0x00, 0x00, 0xe1, 0x00, 0xf0, 0x00];
    for (stype, pid, desc) in streams {
        s.extend_from_slice(&[*stype, 0xe0 | (pid >> 8) as u8, *pid as u8, 0xf0, desc.len() as u8]);
        s.extend_from_slice(desc);
    }
    s.extend_from_slice(&[0xde, 0xad, 0xbe, 0xef]);
    s
}

fn with_pointer(section: &[u8]) -> Vec<u8> {
    let mut v = vec![0x00];
    v.extend_from_slice(section);
    v
}

#[test]
fn packet_info_reads_header_fields() {
    let p = ts_packet(0x101, true, &[1, 2, 3]);
    let info = packet_info(&p).unwrap();
    assert_eq!(info.pid, 0x101);
    assert!(info.payload_unit_start);
    assert_eq!(info.payload_offset, Some(4));
}

#[test]
fn packet_info_with_adaptation_field() {
    let mut p = ts_packet(0x20, false, &[]);
    p[3] = 0x30;
    p[4] = 7;
    let info = packet_info(&p).unwrap();
    assert_eq!(info.payload_offset, Some(12));
    assert!(!info.payload_unit_start);

    p[3] = 0x20;
    assert_eq!(packet_info(&p).unwrap().payload_offset, None);

    p[3] = 0x30;
    p[4] = 200;
    assert_eq!(packet_info(&p).unwrap().payload_offset, None);
}

#[test]
fn packet_info_rejects_bad_packets() {
    let mut p = ts_packet(0x20, false, &[]);
    p[0] = 0x46;
    assert!(packet_info(&p).is_none());
    assert!(packet_info(&p[..187]).is_none());
}

#[test]
fn parse_pat_lists_program_map_pids() {
    let p = ts_packet(0, true, &with_pointer(&pat_section(&[(0, 0x10), (1, 0x1000), (2, 0x1001)])));
    let m = parse_pat(&p);
    assert_eq!(m.len(), 2);
    assert_eq!(m.get(&1), Some(&0x1000));
    assert_eq!(m.get(&2), Some(&0x1001));
}

#[test]
fn parse_pat_later_entries_win_and_other_pids_give_nothing() {
    let p = ts_packet(0, true, &with_pointer(&pat_section(&[(1, 0x100), (1, 0x200)])));
    let m = parse_pat(&p);
    assert_eq!(m.len(), 1);
    assert_eq!(m.get(&1), Some(&0x200));
    let q = ts_packet(5, true, &with_pointer(&pat_section(&[(1, 0x100)])));
    assert!(parse_pat(&q).is_empty());
}

#[test]
fn pmt_video_pids_and_stream_map() {
    let section = pmt_section(&[
        (0x24, 0x101, vec![]),
        (0x0f, 0x102, vec![]),
        (0x06, 0x103, vec![0x05, 0x04, b'D', b'O', b'V', b'I']),
        (0x06, 0x104, vec![0x0a, 0x04, b'e', b'n', b'g', 0x00]),
    ]);
    let p = ts_packet(0x1000, true, &with_pointer(&section));
    assert_eq!(parse_pmt_video_pids(&p), vec![0x101, 0x103]);
    let m = parse_pmt_streams_map(&section);
    assert_eq!(m.len(), 4);
    assert_eq!(m.get(&0x101), Some(&0x24));
    assert_eq!(m.get(&0x102), Some(&0x0f));
    assert_eq!(m.get(&0x104), Some(&0x06));
}

#[test]
fn stream_types_and_dovi_registration() {
    assert!(stream_type_is_video(0x01));
    assert!(stream_type_is_video(0x02));
    assert!(stream_type_is_video(0x1b));
    assert!(stream_type_is_video(0x24));
    assert!(!stream_type_is_video(0x06));
    assert!(!stream_type_is_video(0x0f));
    assert!(has_dovi_registration(&[0x0a, 0x01, 0x00, 0x05, 0x04, b'D', b'O', b'V', b'I']));
    assert!(!has_dovi_registration(&[0x05, 0x04, b'D', b'O', b'V', b'X']));
    assert!(!has_dovi_registration(&[0x05, 0x09, b'D', b'O', b'V', b'I']));
}

#[test]
fn printable_bytes_keeps_ascii_text() {
    assert_eq!(printable_bytes(&[0x00, b'a', 0x7f, b'~', b' ', 0x1f, 0xff]), vec![b'a', b'~', b' ']);
}

#[test]
fn hex_marker_key_is_found_in_packet_text() {
    let mut data = vec![0x00, 0x01];
    data.extend_from_slice(b"xx|v00112233445566778899aabbccddeeff|yy");
    let key = extract_hex_marker_key(&data).unwrap();
    assert_eq!(key[0], 0x00);
    assert_eq!(key[1], 0x11);
    assert_eq!(key[15], 0xff);
    assert!(extract_hex_marker_key(b"|v00112233445566778899aabbccddeeff").is_none());
    assert!(extract_hex_marker_key(b"|v0011223344556677889zaabbccddeeff|").is_none());
}

#[test]
fn packet_block_key_skips_the_header() {
    let p = ts_packet(0x11, false, b"|v000102030405060708090a0b0c0d0e0f|");
    let key = extract_packet_block_key(&p).unwrap();
    assert_eq!(key, [0, 1, 2, 3, 4, 5, 6, 7, 8, 9, 10, 11, 12, 13, 14, 15]);
    assert!(extract_packet_block_key(&[0x47, 0, 0, 0]).is_none());
}

#[test]
fn psi_assembler_joins_sections_over_packets() {
    let mut section = pmt_section(&[(0x24, 0x101, vec![0x0a; 200])]);
    section[1] = 0xb0 | ((section.len() - 3) >> 8) as u8;
    section[2] = (section.len() - 3) as u8;
    let first = with_pointer(&section[..183]);
    let p1 = ts_packet(0x1000, true, &first);
    let p2 = ts_packet(0x1000, false, &section[183..]);
    let mut assembler = PSIAssembler::new();
    assert!(assembler.push(&p1).is_none());
    let out = assembler.push(&p2).unwrap();
    assert_eq!(out, section);
    // not collecting any more until a new section starts
    assert!(assembler.push(&p2).is_none());
}

fn sdt_section(name: &[u8]) -> Vec<u8> {
    let body_len = 1 + 1 + 1 + name.len();
    let desc_loop = 2 + body_len;
    let total = 16 + desc_loop + 4;
    let slen = total - 3;
    let mut s = vec![0x42, 0xf0 | (slen >> 8) as u8, slen as u8, 0, 1, 0xc1, 0, 0, 0, 1, 0xff];
    s.extend_from_slice(&[0x00, 0x01, 0xfc, 0x80 | (desc_loop >> 8) as u8, desc_loop as u8]);
    s.extend_from_slice(&[0x48, body_len as u8, 0x01, 0x00, name.len() as u8]);
    s.extend_from_slice(name);
    s.extend_from_slice(&[0xde, 0xad, 0xbe, 0xef]);
    s
}

#[test]
fn sdt_service_name_sets_the_iv() {
    let section = sdt_section(b"x|mdcm|y|v00112233445566778899aabbccddeeff");
    let mut iv = [0x55u8; 16];
    assert!(parse_sdt_and_set_iv(&section, &mut iv));
    assert_eq!(iv, [0x00, 0x11, 0x22, 0x33, 0x44, 0x55, 0x66, 0x77, 0x88, 0x99, 0xaa, 0xbb, 0, 0, 0, 0]);

    let section = sdt_section(b"x|mdcm|y| V00112233445566778899AABBCCDDEEFF ");
    let mut iv = [0x55u8; 16];
    assert!(parse_sdt_and_set_iv(&section, &mut iv));
    assert_eq!(iv[11], 0xbb);
    assert_eq!(iv[12], 0);
}

#[test]
fn sdt_without_iv_leaves_the_iv_alone() {
    let section = sdt_section(b"plain service name");
    let mut iv = [0x55u8; 16];
    assert!(!parse_sdt_and_set_iv(&section, &mut iv));
    assert_eq!(iv, [0x55u8; 16]);

    let section = sdt_section(b"x|mdcm|y");
    assert!(!parse_sdt_and_set_iv(&section, &mut iv));
    let mut short = sdt_section(b"x|mdcm|y|v00112233445566778899aabbccddeeff");
    short[0] = 0x46;
    assert!(!parse_sdt_and_set_iv(&short, &mut iv));
    assert_eq!(iv, [0x55u8; 16]);
}
