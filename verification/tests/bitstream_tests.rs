use bbtsdecrypt::common::VideoMode;
use bbtsdecrypt::nal::{ebsp_to_rbsp, hevc_nal_type, rbsp_to_ebsp, start_code_length};
use bbtsdecrypt::sdr::{
    bits_to_rbsp, inspect_sps, locate_vui, minimal_vui_bits, patch_chroma_type2, patch_sdr_colorimetry,
    patch_sps_signaling, rbsp_to_bits,
    rebuild_unit, set_bit, set_bits, ue_to_bits, value_bits, BitReader,
};

#[test]
fn start_codes_and_nal_types() {
    assert_eq!(start_code_length(&[0, 0, 0, 1, 0x42]), Some(4));
    assert_eq!(start_code_length(&[0, 0, 1, 0x42]), Some(3));
    assert_eq!(start_code_length(&[0, 1, 0x42]), None);
    assert_eq!(hevc_nal_type(&[0, 0, 0, 1, 0x42, 0x01]), Some(33));
    assert_eq!(hevc_nal_type(&[0, 0, 1, 0x4e, 0x01]), Some(39));
    assert_eq!(hevc_nal_type(&[0, 0, 0, 1]), None);
}

#[test]
fn emulation_prevention_insert_and_remove() {
    let rbsp = vec![0x00, 0x00, 0x01, 0x00, 0x00, 0x00, 0x00, 0x00, 0x04];
    let ebsp = rbsp_to_ebsp(&rbsp);
    assert_eq!(ebsp, vec![0x00, 0x00, 0x03, 0x01, 0x00, 0x00, 0x03, 0x00, 0x00, 0x03, 0x00, 0x04]);
    assert_eq!(ebsp_to_rbsp(&ebsp), rbsp);
    assert_eq!(ebsp_to_rbsp(&[0x00, 0x00, 0x03, 0x03]), vec![0x00, 0x00, 0x03]);
}

#[test]
fn emulation_roundtrip_on_many_inputs() {
    for seed in 0u32..200 {
        let mut x = seed.wrapping_mul(2654435761);
        let data: Vec<u8> = (0..40)
            .map(|_| {
                x = x.wrapping_mul(1103515245).wrapping_add(12345);
                ((x >> 16) % 5) as u8
            })
            .collect();
        assert_eq!(ebsp_to_rbsp(&rbsp_to_ebsp(&data)), data);
    }
}

#[test]
fn bit_helpers() {
    assert_eq!(rbsp_to_bits(&[0xa5]), vec![1, 0, 1, 0, 0, 1, 0, 1]);
    assert_eq!(bits_to_rbsp(&[1, 0, 1]), vec![0xa0]);
    assert_eq!(bits_to_rbsp(&rbsp_to_bits(&[0x12, 0xfe])), vec![0x12, 0xfe]);
    assert_eq!(value_bits(5, 3), vec![1, 0, 1]);
    assert_eq!(value_bits(1, 8), vec![0, 0, 0, 0, 0, 0, 0, 1]);
    assert_eq!(ue_to_bits(0), vec![1]);
    assert_eq!(ue_to_bits(2), vec![0, 1, 1]);
    assert_eq!(ue_to_bits(3), vec![0, 0, 1, 0, 0]);
    let mut bits = vec![0u8; 8];
    assert_eq!(set_bit(&mut bits, 2, 1), Some(()));
    assert_eq!(set_bits(&mut bits, 4, 4, 0b1011), Some(()));
    assert_eq!(bits, vec![0, 0, 1, 0, 1, 0, 1, 1]);
    assert_eq!(set_bit(&mut bits, 8, 1), None);
    assert_eq!(set_bits(&mut bits, 6, 4, 1), None);
}

#[test]
fn bit_reader_reads_codes() {
    // 1 | 010 | 011 | 00100 | 1 -> ue 0, ue 1, ue 2, ue 3, then flag 1
    let data = [0b1010_0110, 0b0100_1000];
    let mut br = BitReader::new(&data);
    assert_eq!(br.read_ue(), Some(0));
    assert_eq!(br.read_ue(), Some(1));
    assert_eq!(br.read_ue(), Some(2));
    assert_eq!(br.read_ue(), Some(3));
    assert_eq!(br.read_bool(), Some(true));
    assert_eq!(br.bitpos(), 13);
    assert_eq!(br.read_bits(3), Some(0));
    assert_eq!(br.read_bits(1), None);

    // se: codeNum 1 -> +1, 2 -> -1, 3 -> +2
    let data = [0b0100_1100, 0b1000_0000];
    let mut br = BitReader::new(&data);
    assert_eq!(br.read_se(), Some(1));
    assert_eq!(br.read_se(), Some(-1));
    assert_eq!(br.read_se(), Some(2));
}

#[test]
fn minimal_vui_layouts() {
    let sdr = minimal_vui_bits(VideoMode::Sdr);
    let hdr = minimal_vui_bits(VideoMode::Hdr);
    assert_eq!(sdr.len(), 2 + 1 + 3 + 1 + 1 + 24 + 1 + 6 + 6);
    assert_eq!(hdr.len(), 2 + 1 + 1 + 6 + 6);
    assert_eq!(&hdr[..], &[0, 0, 0, 1, 0, 1, 1, 0, 1, 1, 0, 0, 0, 0, 0, 0]);
}

struct BitWriter {
    bits: Vec<u8>,
}

impl BitWriter {
    fn bits(&mut self, value: u64, n: usize) {
        for i in (0..n).rev() {
            self.bits.push(((value >> i) & 1) as u8);
        }
    }
    fn ue(&mut self, value: u32) {
        let v = value as u64 + 1;
        let len = 64 - v.leading_zeros() as usize;
        self.bits(0, len - 1);
        self.bits(v, len);
    }
}

/// An HEVC SPS unit with a VUI whose colour description is 9/16/9 and
/// without chroma location info.
fn sample_sps(with_vui: bool) -> Vec<u8> {
    let mut w = BitWriter { bits: Vec::new() };
    w.bits(0, 4);
    w.bits(0, 3);
    w.bits(1, 1);
    w.bits(1, 2 + 1 + 5);
    w.bits(0x6000_0000, 32);
    w.bits(0, 48);
    w.bits(120, 8);
    w.ue(0);
    w.ue(1);
    w.ue(1920);
    w.ue(1080);
    w.bits(0, 1);
    w.ue(2);
    w.ue(2);
    w.ue(4);
    w.bits(1, 1);
    w.ue(4);
    w.ue(0);
    w.ue(0);
    for _ in 0..6 {
        w.ue(1);
    }
    w.bits(0, 1);
    w.bits(1, 1);
    w.bits(1, 1);
    w.bits(0, 1);
    w.ue(0);
    w.bits(0, 1);
    w.bits(1, 1);
    w.bits(1, 1);
    if with_vui {
        w.bits(1, 1);
        w.bits(0, 1);
        w.bits(0, 1);
        w.bits(1, 1);
        w.bits(5, 3);
        w.bits(0, 1);
        w.bits(1, 1);
        w.bits(9, 8);
        w.bits(16, 8);
        w.bits(9, 8);
        w.bits(0, 1);
        w.bits(0, 8);
    } else {
        w.bits(0, 1);
    }
    w.bits(1, 1);
    let rbsp = bits_to_rbsp(&w.bits);
    let mut unit = vec![0, 0, 0, 1, 0x42, 0x01];
    unit.extend_from_slice(&rbsp_to_ebsp(&rbsp));
    unit
}

#[test]
fn inspect_sps_reads_the_colour_description() {
    let unit = sample_sps(true);
    let info = inspect_sps(&unit).unwrap();
    assert_eq!(info.colour_primaries, Some(9));
    assert_eq!(info.transfer_characteristics, Some(16));
    assert_eq!(info.matrix_coeffs, Some(9));
    let plain = sample_sps(false);
    let info = inspect_sps(&plain).unwrap();
    assert_eq!(info.colour_primaries, None);
    assert!(inspect_sps(&[0, 0, 0, 1, 0x40, 0x01, 0x0c]).is_none());
}

#[test]
fn locate_vui_finds_the_fields() {
    let unit = sample_sps(true);
    let rbsp = ebsp_to_rbsp(&unit[6..]);
    let loc = locate_vui(&rbsp).unwrap();
    assert!(loc.vui_present);
    assert!(loc.video_signal_present);
    assert!(loc.colour_description_present);
    assert!(!loc.chroma_loc_info_present);
    let p = loc.colour_primaries_pos.unwrap();
    let bits = rbsp_to_bits(&rbsp);
    assert_eq!(&bits[p..p + 8], &[0, 0, 0, 0, 1, 0, 0, 1]);
    assert_eq!(loc.transfer_characteristics_pos, Some(p + 8));
    assert_eq!(loc.matrix_coeffs_pos, Some(p + 16));
    assert_eq!(loc.chroma_loc_info_present_flag_pos, Some(p + 24));
}

#[test]
fn sdr_patch_sets_bt709_and_chroma_location() {
    let unit = sample_sps(true);
    let patched = patch_sps_signaling(&unit, VideoMode::Sdr).unwrap();
    assert_eq!(&patched[..6], &unit[..6]);
    let info = inspect_sps(&patched).unwrap();
    assert_eq!(info.colour_primaries, Some(1));
    assert_eq!(info.transfer_characteristics, Some(1));
    assert_eq!(info.matrix_coeffs, Some(1));
    let loc = locate_vui(&ebsp_to_rbsp(&patched[6..])).unwrap();
    assert!(loc.chroma_loc_info_present);
    let bits = rbsp_to_bits(&ebsp_to_rbsp(&patched[6..]));
    let t0 = loc.chroma_top_ue_start.unwrap();
    assert_eq!(&bits[t0..loc.chroma_top_ue_end.unwrap()], &[0, 1, 1]);
    let b0 = loc.chroma_bottom_ue_start.unwrap();
    assert_eq!(&bits[b0..loc.chroma_bottom_ue_end.unwrap()], &[0, 1, 1]);
}

#[test]
fn hdr_patch_keeps_colorimetry() {
    let unit = sample_sps(true);
    let patched = patch_sps_signaling(&unit, VideoMode::Hdr).unwrap();
    let info = inspect_sps(&patched).unwrap();
    assert_eq!(info.colour_primaries, Some(9));
    assert_eq!(info.transfer_characteristics, Some(16));
    assert_eq!(info.matrix_coeffs, Some(9));
    let loc = locate_vui(&ebsp_to_rbsp(&patched[6..])).unwrap();
    assert!(loc.chroma_loc_info_present);
}

#[test]
fn sdr_patch_adds_a_vui_when_missing() {
    let unit = sample_sps(false);
    let patched = patch_sps_signaling(&unit, VideoMode::Sdr).unwrap();
    let info = inspect_sps(&patched).unwrap();
    assert_eq!(info.colour_primaries, Some(1));
    assert_eq!(info.transfer_characteristics, Some(1));
    assert_eq!(info.matrix_coeffs, Some(1));
}

#[test]
fn rebuild_unit_keeps_header_and_escapes() {
    let unit = [0, 0, 1, 0x42, 0x01, 0xaa];
    assert_eq!(rebuild_unit(&unit, &[0, 0, 1]), Some(vec![0, 0, 1, 0x42, 0x01, 0, 0, 3, 1]));
    assert_eq!(rebuild_unit(&[0, 0, 1, 0x42], &[1]), None);
}

#[test]
fn exp_golomb_codes_read_back() {
    for value in [0u32, 1, 2, 3, 6, 7, 255, 1000, 65535, u32::MAX - 1] {
        let bits = ue_to_bits(value);
        let expected_len = 2 * (63 - (value as u64 + 1).leading_zeros() as usize) + 1;
        assert_eq!(bits.len(), expected_len);
        let rbsp = bits_to_rbsp(&bits);
        let mut reader = BitReader::new(&rbsp);
        assert_eq!(reader.read_ue(), Some(value));
        assert_eq!(reader.bitpos(), bits.len());
    }
}

#[test]
fn bits_pack_with_zero_padding() {
    assert_eq!(bits_to_rbsp(&[1, 0, 1]), vec![0xa0]);
    assert_eq!(bits_to_rbsp(&[1, 1, 1, 1, 1, 1, 1, 1, 1]), vec![0xff, 0x80]);
    assert_eq!(bits_to_rbsp(&[3, 2]), vec![0x80]);
    assert_eq!(bits_to_rbsp(&[]), Vec::<u8>::new());
}

#[test]
fn plain_payload_unescapes_to_itself() {
    let plain = [0u8, 0, 1, 2, 0, 4, 0, 0, 2, 0, 0];
    assert_eq!(ebsp_to_rbsp(&plain), plain.to_vec());
    assert_eq!(ebsp_to_rbsp(&[0, 0, 3, 1]), vec![0, 0, 1]);
}

#[test]
fn colorimetry_patch_locates_bt709() {
    for with_vui in [true, false] {
        let unit = sample_sps(with_vui);
        let rbsp = ebsp_to_rbsp(&unit[6..]);
        let before = locate_vui(&rbsp).unwrap();
        let out = patch_sdr_colorimetry(&rbsp).unwrap();
        let loc = locate_vui(&out).unwrap();
        assert_eq!(loc.vui_present_flag_pos, before.vui_present_flag_pos);
        assert!(loc.vui_present && loc.video_signal_present && loc.colour_description_present);
        assert_eq!(loc.colour_primaries_value, Some(1));
        assert_eq!(loc.transfer_characteristics_value, Some(1));
        assert_eq!(loc.matrix_coeffs_value, Some(1));
        let bits = rbsp_to_bits(&out);
        let a = loc.video_format_pos.unwrap();
        assert_eq!(&bits[a..a + 3], &[1, 0, 1]);
        assert_eq!(bits[loc.full_range_pos.unwrap()], 0);
        let before_bits = rbsp_to_bits(&rbsp);
        let f = before.vui_present_flag_pos;
        assert_eq!(&bits[..f], &before_bits[..f]);
    }
    assert_eq!(patch_sdr_colorimetry(&[0x42]), None);
}

#[test]
fn chroma_patch_locates_type_two() {
    for with_vui in [true, false] {
        let unit = sample_sps(with_vui);
        let rbsp = ebsp_to_rbsp(&unit[6..]);
        let before = locate_vui(&rbsp).unwrap();
        let out = patch_chroma_type2(&rbsp, VideoMode::Hdr).unwrap();
        let loc = locate_vui(&out).unwrap();
        assert!(loc.vui_present && loc.chroma_loc_info_present);
        assert_eq!(loc.colour_primaries_value, before.colour_primaries_value);
        assert_eq!(loc.transfer_characteristics_value, before.transfer_characteristics_value);
        assert_eq!(loc.matrix_coeffs_value, before.matrix_coeffs_value);
        let top = loc.chroma_top_ue_start.unwrap();
        let mut reader = BitReader::new(&out);
        for _ in 0..top {
            reader.read_bits(1).unwrap();
        }
        assert_eq!(reader.read_ue(), Some(2));
        assert_eq!(reader.bitpos(), loc.chroma_top_ue_end.unwrap());
        assert_eq!(reader.read_ue(), Some(2));
        assert_eq!(reader.bitpos(), loc.chroma_bottom_ue_end.unwrap());
    }
}

#[test]
fn hdr_patch_of_plain_sps_keeps_missing_colours() {
    let unit = sample_sps(false);
    let patched = patch_sps_signaling(&unit, VideoMode::Hdr).unwrap();
    let info = inspect_sps(&patched).unwrap();
    assert_eq!(info, inspect_sps(&unit).unwrap());
}
