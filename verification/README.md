# bbtsdecrypt

A verified library for decrypting protected BBTS / MPEG-TS streams whose
video is encrypted with sparse AES-128 CTR (every tenth 16-byte block and the
last block of a sample go through AES, the others are XORed with the counter
itself), together with the HEVC bitstream handling that goes with it.

The library is written in Verus: every function in `src/` carries a
`requires`/`ensures` contract, and Verus proves each body against it.

## Layout

- `src/crypto.rs` – AES-128 (through the `aes` crate), hex keys and the
  `KID:KEY` key format, the 128-bit big-endian counter, and sample decryption.
- `src/ts.rs` – transport stream packet headers, PAT / PMT /
  SDT parsing, section assembly, and the IV markers carried in packets.
- `src/nal.rs`, `src/hevc.rs` – Annex B start codes, emulation prevention,
  and decryption of the NAL units of a video PES packet.
- `src/sdr.rs` – an Exp-Golomb bit reader, SPS parsing up to the VUI, and the
  patches that rewrite its colour signalling.
- `src/vui_laws.rs` – what reading an SPS depends on, and what the VUI
  patches leave for a later reader to find.
- `src/hdr.rs`, `src/dolby.rs` – HDR SEI messages (mastering display, content
  light level, HDR Vivid) and Dolby Vision RPU units with their CRC.
- `src/decrypt.rs` – the stream decryptor: a state machine that takes one
  188-byte packet at a time and gives the bytes to write out.
- `src/detect.rs` – stream mode detection, also a packet-driven state
  machine.
- `app/` – the command-line program: argument handling, file I/O and the
  progress bar around the two state machines.
- `tests/` – tests of the library on concrete inputs.

Among the properties proved: emulation prevention and bit packing are undone
by their inverses, SEI units and `ff`-coded values read back as written, the
counter increment adds one modulo 2^128, an Exp-Golomb code reads back as
the value it was written for, the patched SPS reads back BT.709 colours and
chroma location type 2 where the patches promise them, decryption keeps the length of every
PES packet, and the stream decryptor gives exactly one 188-byte packet for
every packet it takes in.
