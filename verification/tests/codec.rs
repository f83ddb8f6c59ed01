use fec::bit::BitReader;
use fec::bit::BitWriter;
use fec::decoder::ConvolutionalHistoryTable;
use fec::decoder::Decoder;
use fec::encoder::Encoder;
use fec::util::conv_poly_table;
use fec::util::metric_distance;
use fec::util::num_states_for_order;

fn encode_to_vec(enc: &mut Encoder, msg: &[u8]) -> (Vec<u8>, usize) {
    let nbits = enc.encode_len(msg.len());
    let mut dst = vec![0u8; nbits / 8 + 1];
    let r = enc.encode(msg, &mut dst);
    assert_eq!(r, nbits);
    (dst, nbits)
}

fn round_trip(rate: u32, order: u32, polys: &[u16], msg: &[u8]) {
    let mut enc = Encoder::new(rate, order, polys);
    let (encoded, nbits) = encode_to_vec(&mut enc, msg);
    let mut dec = Decoder::new(rate, order, polys);
    let mut out = vec![0u8; msg.len() + 1];
    let r = dec.decode(&encoded, nbits, &mut out);
    assert_eq!(r, msg.len() as isize);
    assert_eq!(&out[..msg.len()], msg);
}

#[test]
fn encode_len_is_exact() {
    let enc27 = Encoder::new(2, 7, &[0o161, 0o127]);
    assert_eq!(enc27.encode_len(1), 2 * (8 + 7 + 1));
    assert_eq!(enc27.encode_len(1), 32);
    assert_eq!(enc27.encode_len(10), 2 * (80 + 8));
    let enc39 = Encoder::new(3, 9, &[0o755, 0o633, 0o447]);
    assert_eq!(enc39.encode_len(5), 3 * (40 + 9 + 1));
    let enc615 = Encoder::new(
        6,
        15,
        &[0o42631, 0o47245, 0o56507, 0o73363, 0o77267, 0o64537],
    );
    assert_eq!(enc615.encode_len(2), 6 * (16 + 15 + 1));
}

#[test]
fn poly_table_parity() {
    // bit j of entry s is the parity of s & polys[j]
    let table = conv_poly_table(2, 3, &[0o7, 0o5]);
    assert_eq!(table, vec![0, 3, 1, 2, 3, 0, 2, 1]);
    let table27 = conv_poly_table(2, 7, &[0o161, 0o127]);
    assert_eq!(table27.len(), 128);
    for s in 0..128u16 {
        for j in 0..2 {
            let poly = [0o161u16, 0o127u16][j];
            let parity = (s & poly).count_ones() as u16 % 2;
            assert_eq!((table27[s as usize] >> j) & 1, parity);
        }
    }
}

#[test]
fn util_helpers() {
    assert_eq!(num_states_for_order(7), 128);
    assert_eq!(num_states_for_order(2), 4);
    assert_eq!(metric_distance(0b1010, 0b0110), 2);
    assert_eq!(metric_distance(0, 0xFFFF_FFFF), 32);
    assert_eq!(metric_distance(7, 7), 0);
}

#[test]
fn bit_writer_reverses_value_bits() {
    let mut w = BitWriter::new();
    // bit 0 of the value is emitted first
    w.write(0b01101, 5);
    w.flush();
    assert_eq!(w.len(), 1);
    assert_eq!(w.as_bytes().as_slice(), &[0xB0]);
}

#[test]
fn bit_writer_iter_keeps_order() {
    let mut w = BitWriter::new();
    w.write_iter(&[1, 0, 1]);
    w.flush();
    assert_eq!(w.as_bytes().as_slice(), &[0xA0]);
}

#[test]
fn bit_writer_len_counts_whole_bytes() {
    let mut w = BitWriter::new();
    w.write_iter(&[1, 1, 1, 1, 0, 0, 0, 0, 1]);
    assert_eq!(w.len(), 1);
    w.flush();
    assert_eq!(w.len(), 2);
    assert_eq!(w.as_bytes().as_slice(), &[0xF0, 0x80]);
}

#[test]
fn bit_reader_reverses_read_bits() {
    let buf = [0b1011_0010u8, 0x55];
    let mut r = BitReader::new(&buf);
    assert_eq!(r.len(), 2);
    assert_eq!(r.read(3), 0b101);
    assert_eq!(r.read(5), 0b01001);
    assert_eq!(r.read(8), 0xAA);
}

#[test]
fn bit_round_trip() {
    // writing a sequence of bits then reading them back is the identity,
    // up to the zero pad in the last byte
    let bits: Vec<u8> = (0..21u32).map(|i| ((i * 7 + 3) % 5 % 2) as u8).collect();
    let mut w = BitWriter::new();
    w.write_iter(&bits);
    w.flush();
    let bytes = w.as_bytes().clone();
    let mut r = BitReader::new(&bytes);
    for chunk in bits.chunks(1) {
        let b = r.read(1);
        assert_eq!(b, chunk[0]);
    }
    // the pad bits of the last byte are zero
    for _ in 21..24 {
        assert_eq!(r.read(1), 0);
    }
}

#[test]
fn warmup_encoding_matches_hand_computation() {
    let mut enc = Encoder::new(2, 3, &[0o7, 0o5]);
    let (encoded, nbits) = encode_to_vec(&mut enc, &[0xAA]);
    assert_eq!(nbits, 24);
    assert_eq!(&encoded[..3], &[0xE2, 0x22, 0xC0]);
    // the spare byte of the output buffer is untouched
    assert_eq!(encoded[3], 0);
}

#[test]
fn standard_code_trip() {
    let msg = [1u8, 2, 3, 4, 5, 6, 7, 8, 9, 10];
    let mut enc = Encoder::new(2, 7, &[0o161, 0o127]);
    let nbits = enc.encode_len(msg.len());
    assert_eq!(nbits, 176);
    let mut encoded = vec![0u8; 23];
    let r = enc.encode(&msg, &mut encoded);
    assert_eq!(r, 176);
    let mut dec = Decoder::new(2, 7, &[0o161, 0o127]);
    let mut out = vec![0u8; 11];
    let n = dec.decode(&encoded, 176, &mut out);
    assert_eq!(n, 10);
    assert_eq!(&out[..10], &msg);
}

#[test]
fn parameter_error_leaves_message_untouched() {
    let mut dec = Decoder::new(2, 7, &[0o161, 0o127]);
    let encoded = vec![0u8; 22];
    let mut msg = vec![0xABu8; 11];
    let r = dec.decode(&encoded, 175, &mut msg);
    assert_eq!(r, -1);
    assert_eq!(msg, vec![0xABu8; 11]);
}

#[test]
fn round_trip_viterbi27() {
    let msg: Vec<u8> = (0u32..32).map(|i| (i * 37 + 11) as u8).collect();
    round_trip(2, 7, &[0o155, 0o117], &msg);
    round_trip(2, 7, &[0o161, 0o127], &msg);
}

#[test]
fn round_trip_viterbi29() {
    let msg: Vec<u8> = (0u32..24).map(|i| (i * 91 + 5) as u8).collect();
    round_trip(2, 9, &[0o657, 0o435], &msg);
}

#[test]
fn round_trip_viterbi39() {
    let msg: Vec<u8> = (0u32..24).map(|i| (i * 53 + 2) as u8).collect();
    round_trip(3, 9, &[0o755, 0o633, 0o447], &msg);
}

#[test]
fn round_trip_viterbi615() {
    let msg = [0xDEu8, 0xAD, 0xBE, 0xEF];
    let polys = [0o42631u16, 0o47245, 0o56507, 0o73363, 0o77267, 0o64537];
    round_trip(6, 15, &polys, &msg);
}

#[test]
fn single_bit_error_correction_short() {
    let polys = [0o161u16, 0o127];
    let msg: Vec<u8> = (0u32..16).map(|i| (i * 197 + 43) as u8).collect();
    let mut enc = Encoder::new(2, 7, &polys);
    let (encoded, nbits) = encode_to_vec(&mut enc, &msg);
    let mut dec = Decoder::new(2, 7, &polys);
    for flip in 0..nbits {
        let mut corrupted = encoded.clone();
        corrupted[flip / 8] ^= 0x80 >> (flip % 8);
        let mut out = vec![0u8; msg.len() + 1];
        let r = dec.decode(&corrupted, nbits, &mut out);
        assert_eq!(r, msg.len() as isize);
        assert_eq!(&out[..msg.len()], msg.as_slice());
    }
}

#[test]
fn single_bit_error_correction_long() {
    let polys = [0o161u16, 0o127];
    let msg: Vec<u8> = (0u32..64).map(|i| (i * 2654435761u64 as u32 >> 3) as u8).collect();
    let mut enc = Encoder::new(2, 7, &polys);
    let (encoded, nbits) = encode_to_vec(&mut enc, &msg);
    let mut dec = Decoder::new(2, 7, &polys);
    let mut flip = 0;
    while flip < nbits {
        let mut corrupted = encoded.clone();
        corrupted[flip / 8] ^= 0x80 >> (flip % 8);
        let mut out = vec![0u8; msg.len() + 1];
        let r = dec.decode(&corrupted, nbits, &mut out);
        assert_eq!(r, msg.len() as isize);
        assert_eq!(&out[..msg.len()], msg.as_slice());
        flip += 37;
    }
    // and the very last bit
    let mut corrupted = encoded.clone();
    let last = nbits - 1;
    corrupted[last / 8] ^= 0x80 >> (last % 8);
    let mut out = vec![0u8; msg.len() + 1];
    let r = dec.decode(&corrupted, nbits, &mut out);
    assert_eq!(r, msg.len() as isize);
    assert_eq!(&out[..msg.len()], msg.as_slice());
}

#[test]
fn spaced_errors_are_corrected() {
    // well-separated flips, sparser than one bit per 16, decode exactly
    let polys = [0o161u16, 0o127];
    let msg: Vec<u8> = (0u32..64).map(|i| (i * 151 + 7) as u8).collect();
    let mut enc = Encoder::new(2, 7, &polys);
    let (encoded, nbits) = encode_to_vec(&mut enc, &msg);
    let mut corrupted = encoded.clone();
    let mut flip = 7;
    while flip < nbits {
        corrupted[flip / 8] ^= 0x80 >> (flip % 8);
        flip += 96;
    }
    let mut dec = Decoder::new(2, 7, &polys);
    let mut out = vec![0u8; msg.len() + 1];
    let r = dec.decode(&corrupted, nbits, &mut out);
    assert_eq!(r, msg.len() as isize);
    assert_eq!(&out[..msg.len()], msg.as_slice());
}

#[test]
fn decode_is_deterministic_across_calls() {
    // decode zeroes all runtime state on entry, so the same input gives the
    // same output no matter what was decoded before
    let polys = [0o161u16, 0o127];
    let msg: Vec<u8> = (0u32..32).map(|i| (i * 61 + 17) as u8).collect();
    let other: Vec<u8> = (0u32..20).map(|i| (255 - i * 3) as u8).collect();
    let mut enc = Encoder::new(2, 7, &polys);
    let (encoded, nbits) = encode_to_vec(&mut enc, &msg);
    let (encoded_other, nbits_other) = encode_to_vec(&mut enc, &other);

    let mut dec = Decoder::new(2, 7, &polys);
    let mut first = vec![0u8; msg.len() + 1];
    let r1 = dec.decode(&encoded, nbits, &mut first);
    let mut scratch = vec![0u8; other.len() + 1];
    dec.decode(&encoded_other, nbits_other, &mut scratch);
    let mut second = vec![0u8; msg.len() + 1];
    let r2 = dec.decode(&encoded, nbits, &mut second);
    assert_eq!(r1, r2);
    assert_eq!(first, second);
}

#[test]
fn least_error_path_finds_first_minimum() {
    let table = ConvolutionalHistoryTable::new(5, 15, 42, 4, 4);
    assert_eq!(table.least_error_path(&vec![5, 3, 7, 3], 1), 1);
    assert_eq!(table.least_error_path(&vec![5, 3, 4, 1], 2), 2);
    assert_eq!(table.least_error_path(&vec![2, 9, 2, 9], 1), 0);
}

#[test]
fn renormalize_zeroes_the_minimum() {
    let mut table = ConvolutionalHistoryTable::new(5, 15, 42, 4, 4);
    let mut d = vec![5u16, 3, 7, 3];
    let best = table.least_error_path(&d, 1);
    table.renormalize(&mut d, best);
    assert_eq!(d, vec![2, 0, 4, 0]);
    assert_eq!(*d.iter().min().unwrap(), 0);
}
