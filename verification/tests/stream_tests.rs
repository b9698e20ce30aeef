use bbtsdecrypt::common::VideoMode;
use bbtsdecrypt::crypto::{decrypt_es_sparse_with_emulation_removal, AesBlockEncryptor};
use bbtsdecrypt::decrypt::StreamDecryptor;
use bbtsdecrypt::detect::{
    analyze_group, es_payload_from_group, finalize_detection, DetectionState, Detector,
    ProbeEntry, ProbeResult,
};
use bbtsdecrypt::hevc::decrypt_pes_normal;

const KEY: [u8; 16] = [
    0xe8, 0x18, 0x36, 0xfb, 0x4d, 0x37, 0xdd, 0xbc, 0x30, 0xae, 0x4b, 0x80, 0xa3, 0x57, 0x31, 0x46,
];

fn ts_packet(pid: u16, pusi: bool, payload: &[u8]) -> [u8; 188] {
    let mut p = [0xffu8; 188];
    p[0] = 0x47;
    p[1] = ((pid >> 8) as u8 & 0x1f) | if pusi { 0x40 } else { 0 };
    p[2] = pid as u8;
    p[3] = 0x10;
    let n = payload.len().min(184);
    p[4..4 + n].copy_from_slice(&payload[..n]);
    p
}

fn with_pointer(section: &[u8]) -> Vec<u8> {
    let mut v = vec![0x00];
    v.extend_from_slice(section);
    v
}

fn pat_packet() -> [u8; 188] {
    let s = vec![0x00, 0xb0, 13, 0x00, 0x01, 0xc1, 0x00, 0x00, 0x00, 0x01, 0xf0, 0x00, 1, 2, 3, 4];
    ts_packet(0, true, &with_pointer(&s))
}

fn pmt_packet() -> [u8; 188] {
    let s = vec![
        0x02, 0xb0, 18, 0x00, 0x01, 0xc1, 0x00, 0x00, 0xe1, 0x01, 0xf0, 0x00, 0x24, 0xe1, 0x01, 0xf0,
        0x00, 1, 2, 3, 4,
    ];
    ts_packet(0x1000, true, &with_pointer(&s))
}

fn iv_packet() -> [u8; 188] {
    ts_packet(0x11, false, b"|v00112233445566778899aabbccddeeff|")
}

fn video_payload(seed: u8) -> Vec<u8> {
    let mut v = vec![0x00, 0x00, 0x01, 0xe0, 0x00, 0x00, 0x80, 0x80, 0x05, 0x21, 0x00, 0x01, 0x00, 0x01];
    v.extend_from_slice(&[0x00, 0x00, 0x01, 0x40, 0x01]);
    let mut x = seed as u32 + 1;
    while v.len() < 184 {
        x = x.wrapping_mul(1103515245).wrapping_add(12345);
        v.push(((x >> 16) as u8) | 0x10);
    }
    v
}

fn continuation_payload(seed: u8) -> Vec<u8> {
    let mut x = seed as u32 + 7;
    (0..184)
        .map(|_| {
            x = x.wrapping_mul(1103515245).wrapping_add(12345);
            ((x >> 16) as u8) | 0x10
        })
        .collect()
}

#[test]
fn pes_decryption_keeps_headers_and_trailers() {
    let enc = AesBlockEncryptor::new(&KEY);
    let iv = [0x42u8; 16];
    let mut pes = vec![0x00, 0x00, 0x01, 0xe0, 0x00, 0x00, 0x80, 0x00, 0x00];
    pes.extend_from_slice(&[0x00, 0x00, 0x01, 0x40, 0x01]);
    pes.extend_from_slice(&[0x55u8; 40]);
    let b = pes.len();
    pes.extend_from_slice(&[0x00, 0x00, 0x01, 0x42, 0x01]);
    pes.extend_from_slice(&[0x66u8; 30]);
    let out = decrypt_pes_normal(&pes, 0x24, &enc, &iv);
    assert_eq!(out.len(), pes.len());

    let mut expected = pes[..14].to_vec();
    expected.extend(decrypt_es_sparse_with_emulation_removal(&pes[14..b - 2], &enc, &iv));
    expected.extend_from_slice(&pes[b - 2..b]);
    expected.extend_from_slice(&pes[b..b + 5]);
    expected.extend(decrypt_es_sparse_with_emulation_removal(&pes[b + 5..pes.len() - 2], &enc, &iv));
    expected.extend_from_slice(&pes[pes.len() - 2..]);
    assert_eq!(out, expected);
    assert_ne!(out, pes);
}

#[test]
fn pes_decryption_h264_header_and_zero_before_start_code() {
    let enc = AesBlockEncryptor::new(&KEY);
    let iv = [0x01u8; 16];
    let mut pes = vec![0x00, 0x00, 0x01, 0xe0, 0x00, 0x00, 0x80, 0x00, 0x00];
    pes.extend_from_slice(&[0x00, 0x00, 0x01, 0x65]);
    pes.extend_from_slice(&[0x77u8; 20]);
    pes.push(0x00);
    let b = pes.len();
    pes.extend_from_slice(&[0x00, 0x00, 0x01, 0x41]);
    pes.extend_from_slice(&[0x12u8; 3]);
    let out = decrypt_pes_normal(&pes, 0x1b, &enc, &iv);
    let mut expected = pes[..13].to_vec();
    expected.extend(decrypt_es_sparse_with_emulation_removal(&pes[13..b - 3], &enc, &iv));
    expected.extend_from_slice(&pes[b - 3..b]);
    expected.extend_from_slice(&pes[b..b + 4]);
    expected.extend(decrypt_es_sparse_with_emulation_removal(&pes[b + 4..pes.len() - 2], &enc, &iv));
    expected.extend_from_slice(&pes[pes.len() - 2..]);
    assert_eq!(out, expected);
}

#[test]
fn short_or_truncated_pes_is_unchanged() {
    let enc = AesBlockEncryptor::new(&KEY);
    let iv = [0u8; 16];
    assert_eq!(decrypt_pes_normal(&[0, 0, 1, 0xe0], 0x24, &enc, &iv), vec![0, 0, 1, 0xe0]);
    let pes = vec![0x00, 0x00, 0x01, 0xe0, 0x00, 0x00, 0x80, 0x00, 0x20, 1, 2, 3];
    assert_eq!(decrypt_pes_normal(&pes, 0x24, &enc, &iv), pes);
}

#[test]
fn packets_pass_through_until_an_iv_is_known() {
    let mut d = StreamDecryptor::new(&KEY);
    let v = ts_packet(0x101, true, &video_payload(1));
    assert_eq!(d.on_packet(&v), v.to_vec());
    let mut bad = v;
    bad[0] = 0x00;
    assert_eq!(d.on_packet(&bad), bad.to_vec());
    assert_eq!(d.finish(), Vec::<u8>::new());
}

#[test]
fn stream_decryption_rewrites_video_payloads_only() {
    let mut d = StreamDecryptor::new(&KEY);
    let mut out = Vec::new();
    for p in [iv_packet(), pat_packet(), pmt_packet()] {
        let o = d.on_packet(&p);
        assert_eq!(o, p.to_vec());
        out.extend(o);
    }
    let v1 = ts_packet(0x101, true, &video_payload(1));
    let v2 = ts_packet(0x101, false, &continuation_payload(2));
    assert!(d.on_packet(&v1).is_empty());
    assert!(d.on_packet(&v2).is_empty());
    let other = ts_packet(0x102, false, &continuation_payload(3));
    let flushed = d.on_packet(&other);
    assert_eq!(flushed.len(), 3 * 188);
    assert_eq!(&flushed[376..], &other[..]);
    assert_eq!(&flushed[0..4], &v1[0..4]);
    assert_eq!(&flushed[188..192], &v2[0..4]);

    let mut pes = v1[4..].to_vec();
    pes.extend_from_slice(&v2[4..]);
    let iv = [
        0x00, 0x11, 0x22, 0x33, 0x44, 0x55, 0x66, 0x77, 0x88, 0x99, 0xaa, 0xbb, 0, 0, 0, 0,
    ];
    let enc = AesBlockEncryptor::new(&KEY);
    let expected = decrypt_pes_normal(&pes, 0x24, &enc, &iv);
    assert_eq!(&flushed[4..188], &expected[..184]);
    assert_eq!(&flushed[192..376], &expected[184..]);
    assert_ne!(&flushed[4..188], &v1[4..]);
    assert!(d.finish().is_empty());
}

#[test]
fn every_packet_comes_out_as_one_packet() {
    let mut d = StreamDecryptor::new(&KEY);
    let mut packets = vec![iv_packet(), pat_packet(), pmt_packet()];
    for k in 0..20u8 {
        if k % 4 == 0 {
            packets.push(ts_packet(0x101, true, &video_payload(k)));
        } else if k % 7 == 3 {
            packets.push(ts_packet(0x1fff, false, &[0xff; 184]));
        } else {
            packets.push(ts_packet(0x101, false, &continuation_payload(k)));
        }
    }
    let mut total = 0usize;
    for p in &packets {
        total += d.on_packet(p).len();
    }
    total += d.finish().len();
    assert_eq!(total, 188 * packets.len());
}

#[test]
fn detection_priority() {
    let mut s = DetectionState::default();
    assert_eq!(finalize_detection(&s), VideoMode::Sdr);
    s.record_probe(ProbeResult { hdr: true, dolby_vision: false });
    assert_eq!(finalize_detection(&s), VideoMode::Hdr);
    s.record_probe(ProbeResult { hdr: false, dolby_vision: true });
    assert_eq!(finalize_detection(&s), VideoMode::DolbyVision);
    s.record_probe(ProbeResult { hdr: false, dolby_vision: false });
    assert_eq!(finalize_detection(&s), VideoMode::DolbyVision);
    assert_eq!(s.groups_checked, 3);
}

#[test]
fn group_payload_skips_pes_headers() {
    let v1 = ts_packet(0x101, true, &video_payload(1));
    let v2 = ts_packet(0x101, false, &continuation_payload(2));
    let group = vec![ProbeEntry { packet: v1 }, ProbeEntry { packet: v2 }];
    let payload = es_payload_from_group(&group);
    let mut expected = v1[18..].to_vec();
    expected.extend_from_slice(&v2[4..]);
    assert_eq!(payload, expected);

    let req = analyze_group(&group, Some([5u8; 16])).unwrap();
    assert_eq!(req.payload, expected);
    assert_eq!(req.block_key, [5u8; 16]);
    assert!(analyze_group(&group, None).is_none());
    assert!(analyze_group(&[], Some([5u8; 16])).is_none());
}

#[test]
fn detector_probes_closed_groups() {
    let mut det = Detector::new();
    assert!(det.wants_more());
    for p in [iv_packet(), pat_packet(), pmt_packet()] {
        assert!(det.on_packet(&p).is_none());
    }
    let v1 = ts_packet(0x101, true, &video_payload(1));
    let v2 = ts_packet(0x101, false, &continuation_payload(2));
    let v3 = ts_packet(0x101, true, &video_payload(3));
    assert!(det.on_packet(&v1).is_none());
    assert!(det.on_packet(&v2).is_none());
    let req = det.on_packet(&v3).unwrap();
    let mut expected = v1[18..].to_vec();
    expected.extend_from_slice(&v2[4..]);
    assert_eq!(req.payload, expected);
    assert_eq!(req.block_key[0], 0x00);
    assert_eq!(req.block_key[15], 0xff);
    assert!(!det.on_probe(ProbeResult { hdr: true, dolby_vision: false }));

    let last = det.next_pending_probe().unwrap();
    assert_eq!(last.payload, v3[18..].to_vec());
    assert!(det.next_pending_probe().is_none());
    assert_eq!(det.mode(), VideoMode::Hdr);
}

#[test]
fn detector_falls_back_to_the_first_keyed_pid() {
    let mut det = Detector::new();
    assert!(det.on_packet(&iv_packet()).is_none());
    let v1 = ts_packet(0x44, true, &video_payload(1));
    let v2 = ts_packet(0x44, true, &video_payload(2));
    assert!(det.on_packet(&v1).is_none());
    let req = det.on_packet(&v2).unwrap();
    assert_eq!(req.payload, v1[18..].to_vec());
    assert!(det.on_probe(ProbeResult { hdr: false, dolby_vision: true }));
    assert_eq!(det.mode(), VideoMode::DolbyVision);
}

#[test]
fn iv_stays_known_after_later_table_packets() {
    let mut d = StreamDecryptor::new(&KEY);
    d.on_packet(&iv_packet());
    let plain_sdt = ts_packet(0x11, false, &[0x20; 184]);
    assert_eq!(d.on_packet(&plain_sdt), plain_sdt.to_vec());
    d.on_packet(&pat_packet());
    d.on_packet(&pmt_packet());
    let v1 = ts_packet(0x101, true, &video_payload(9));
    assert!(d.on_packet(&v1).is_empty());
    let out = d.finish();
    assert_eq!(out.len(), 188);
    assert_ne!(&out[4..], &v1[4..]);
}
