use fec::decoder::Decoder;
use fec::encoder::Encoder;
use fec::shim::repack_hard;
use fec::shim::Shim;
use fec::Convolutional;

#[test]
fn repack_takes_low_bits_msb_first() {
    // one sample per byte, hard decision in the LSB
    let samples: Vec<u8> = vec![0, 1, 0, 1, 0, 1, 0, 1, 1, 1, 0, 0, 1, 0, 1, 1];
    let hard = repack_hard(&samples, 16);
    assert_eq!(hard.len(), 3);
    assert_eq!(hard[0], 0x55);
    assert_eq!(hard[1], 0b1100_1011);
    assert_eq!(hard[2], 0);
    // higher sample bits are ignored: only bit 0 counts
    let noisy: Vec<u8> = vec![0xFE, 0xFF, 0x7E, 0x81, 0x10, 0x03, 0x42, 0xA5];
    let hard2 = repack_hard(&noisy, 8);
    assert_eq!(hard2[0], 0b0101_0101);
}

#[test]
fn shim_repack_matches_native_decoder() {
    // 48 one-bit-per-byte samples of {0,1,0,1,...} carry the same stream as
    // six packed 0x55 bytes
    let polys = [0o155u16, 0o117];
    let samples: Vec<u8> = (0..48).map(|i| (i % 2) as u8).collect();
    let mut packed = vec![0x55u8; 6];
    packed.push(0x00);
    let num_encoded_bits = 48usize;

    let mut shim = Shim::new(num_encoded_bits, 2, 7, &polys);
    shim.decode(&samples);
    let mut from_shim = vec![0u8; 2];
    shim.receive(&mut from_shim);

    let mut dec = Decoder::new(2, 7, &polys);
    let mut native = vec![0u8; 3];
    let r = dec.decode(&packed, num_encoded_bits, &mut native);
    assert_eq!(r, 2);
    assert_eq!(from_shim.as_slice(), &native[..2]);
}

#[test]
fn shim_accumulates_and_hands_out_round_trip() {
    let polys = [0o155u16, 0o117];
    let msg: Vec<u8> = (0u32..8).map(|i| (i * 29 + 1) as u8).collect();
    let mut enc = Encoder::new(2, 7, &polys);
    let nbits = enc.encode_len(msg.len());
    let mut encoded = vec![0u8; nbits / 8 + 1];
    enc.encode(&msg, &mut encoded);

    // one sample byte per encoded bit
    let mut samples = vec![0u8; nbits];
    for i in 0..nbits {
        samples[i] = (encoded[i / 8] >> (7 - i % 8)) & 1;
    }
    let mut shim = Shim::new(nbits, 2, 7, &polys);
    shim.init();
    shim.decode(&samples);
    let mut out = vec![0u8; msg.len()];
    shim.receive(&mut out);
    assert_eq!(out, msg);
}

#[test]
fn paired_encoder_and_decoder_agree() {
    let polys = [0o161u16, 0o127];
    let mut conv = Convolutional {
        encoder: Encoder::new(2, 7, &polys),
        decoder: Decoder::new(2, 7, &polys),
    };
    let msg = [0x42u8, 0x00, 0xFF, 0x13];
    let nbits = conv.encoder.encode_len(msg.len());
    let mut encoded = vec![0u8; nbits / 8 + 1];
    conv.encoder.encode(&msg, &mut encoded);
    let mut out = vec![0u8; msg.len() + 1];
    let r = conv.decoder.decode(&encoded, nbits, &mut out);
    assert_eq!(r, msg.len() as isize);
    assert_eq!(&out[..msg.len()], &msg);
}
