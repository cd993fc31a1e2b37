use pdf_core::error::{Error, LimitKind};
use pdf_core::filters::predictor::{paeth, predict, unpredict, PredictorParams};
use pdf_core::filters::{ascii85, ascii_hex, decode_stream, early_change, flate, resolve_steps, run_length};
use pdf_core::filters::{DecodeOutcome, FilterKind};
use pdf_core::limits::Limits;
use pdf_core::object::{Dict, Name, Object};

fn unbounded() -> Limits {
    Limits::unbounded_decode()
}

#[test]
fn hex_decodes_pairs_and_ignores_whitespace() {
    assert_eq!(ascii_hex::decode(b"48 65\n6c6C6f>", &unbounded()).unwrap(), b"Hello".to_vec());
}

#[test]
fn hex_odd_trailing_digit_is_padded_with_zero() {
    assert_eq!(ascii_hex::decode(b"7>", &unbounded()).unwrap(), vec![0x70]);
    let none = Limits { max_decompressed_stream: 0, ..Limits::default() };
    assert!(matches!(
        ascii_hex::decode(b"4", &none),
        Err(Error::LimitExceeded(LimitKind::DecompressedStream))
    ));
}

#[test]
fn hex_stops_at_eod_marker() {
    assert_eq!(ascii_hex::decode(b"41>4243", &unbounded()).unwrap(), b"A".to_vec());
}

#[test]
fn hex_rejects_non_digit() {
    assert!(matches!(ascii_hex::decode(b"4G>", &unbounded()), Err(Error::Decode { .. })));
}

#[test]
fn hex_encode_uppercase_with_marker() {
    assert_eq!(ascii_hex::encode(&[0xab, 0x01]), b"AB01>".to_vec());
}

#[test]
fn hex_round_trip() {
    let data: Vec<u8> = (0..=255u8).collect();
    assert_eq!(ascii_hex::decode(&ascii_hex::encode(&data), &unbounded()).unwrap(), data);
}

#[test]
fn hex_limit_exceeded() {
    let limits = Limits { max_decompressed_stream: 2, ..Limits::default() };
    assert!(matches!(
        ascii_hex::decode(b"414243>", &limits),
        Err(Error::LimitExceeded(LimitKind::DecompressedStream))
    ));
}

#[test]
fn a85_known_vector() {
    assert_eq!(ascii85::encode(b"Man "), b"9jqo^~>".to_vec());
    assert_eq!(ascii85::decode(b"9jqo^~>", &unbounded()).unwrap(), b"Man ".to_vec());
}

#[test]
fn a85_zero_group_shortcut() {
    assert_eq!(ascii85::encode(&[0, 0, 0, 0]), b"z~>".to_vec());
    assert_eq!(ascii85::decode(b"z~>", &unbounded()).unwrap(), vec![0, 0, 0, 0]);
}

#[test]
fn a85_round_trip_partial_group() {
    let data = b"hello world!!".to_vec();
    assert_eq!(ascii85::decode(&ascii85::encode(&data), &unbounded()).unwrap(), data);
}

#[test]
fn a85_rejects_bad_character() {
    assert!(matches!(ascii85::decode(b"9jq{o~>", &unbounded()), Err(Error::Decode { .. })));
}

#[test]
fn rl_replicate_and_literal_runs() {
    assert_eq!(run_length::encode(b"aaab"), vec![254, b'a', 0, b'b', 128]);
    assert_eq!(run_length::decode(&[254, b'a', 0, b'b', 128], &unbounded()).unwrap(), b"aaab".to_vec());
}

#[test]
fn rl_round_trip() {
    let mut data = vec![7u8; 300];
    data.extend_from_slice(b"abcabcabc");
    assert_eq!(run_length::decode(&run_length::encode(&data), &unbounded()).unwrap(), data);
}

#[test]
fn rl_truncated_literal_is_error() {
    assert!(matches!(run_length::decode(&[5, b'a'], &unbounded()), Err(Error::Decode { .. })));
}

#[test]
fn flate_round_trip() {
    let data = b"flate flate flate flate".to_vec();
    let enc = flate::encode(&data);
    assert_ne!(enc, data);
    assert_eq!(flate::decode(&enc, &unbounded()).unwrap(), data);
}

#[test]
fn flate_limit_exceeded() {
    let data = vec![0u8; 100_000];
    let enc = flate::encode(&data);
    let limits = Limits { max_decompressed_stream: 100, ..Limits::default() };
    assert!(matches!(
        flate::decode(&enc, &limits),
        Err(Error::LimitExceeded(LimitKind::DecompressedStream))
    ));
}

#[test]
fn flate_raw_deflate_fallback_and_trailing_bytes() {
    let data = b"raw deflate raw deflate raw deflate".to_vec();
    let enc = flate::encode(&data);
    // Without the two-byte zlib header and the four-byte checksum, the
    // stream is raw deflate: the zlib reading fails and the retry succeeds.
    let raw = &enc[2..enc.len() - 4];
    assert_eq!(flate::decode(raw, &unbounded()).unwrap(), data);
    let small = Limits { max_decompressed_stream: data.len(), ..Limits::default() };
    assert_eq!(flate::decode(raw, &small).unwrap(), data);
    let tight = Limits { max_decompressed_stream: data.len() - 1, ..Limits::default() };
    assert!(matches!(flate::decode(raw, &tight), Err(Error::LimitExceeded(LimitKind::DecompressedStream))));
    // Bytes after the end of a zlib stream are ignored.
    let mut padded = enc.clone();
    padded.extend_from_slice(b"\r\n%garbage");
    assert_eq!(flate::decode(&padded, &unbounded()).unwrap(), data);
    // Neither reading works.
    assert!(matches!(flate::decode(b"not a deflate stream", &unbounded()), Err(Error::Decode { filter: "FlateDecode", .. })));
    assert!(matches!(flate::decode(&enc[..enc.len() / 2], &unbounded()), Err(Error::Decode { filter: "FlateDecode", .. })));
}

#[test]
fn flate_corrupt_stream_after_the_ceiling_is_a_limit_error() {
    let data = vec![b'a'; 200_000];
    let mut enc = flate::encode(&data);
    let n = enc.len();
    // Spoil the checksum: all the data decodes before the failure shows.
    enc[n - 1] ^= 0xFF;
    assert!(matches!(flate::decode(&enc, &unbounded()), Err(Error::Decode { filter: "FlateDecode", .. })));
    let limits = Limits { max_decompressed_stream: 100, ..Limits::default() };
    assert!(matches!(flate::decode(&enc, &limits), Err(Error::LimitExceeded(LimitKind::DecompressedStream))));
}

#[test]
fn paeth_picks_nearest() {
    assert_eq!(paeth(10, 20, 10), 20);
    assert_eq!(paeth(20, 10, 10), 20);
    assert_eq!(paeth(5, 5, 5), 5);
}

#[test]
fn png_up_predictor_round_trip() {
    let p = PredictorParams { predictor: 12, colors: 1, bits_per_component: 8, columns: 3 };
    let data = vec![1u8, 2, 3, 4, 5, 6];
    let enc = predict(&data, &p).unwrap();
    assert_eq!(enc, vec![2, 1, 2, 3, 2, 3, 3, 3]);
    assert_eq!(unpredict(&enc, &p, &unbounded()).unwrap(), data);
}

#[test]
fn tiff_predictor_round_trip() {
    let p = PredictorParams { predictor: 2, colors: 1, bits_per_component: 8, columns: 3 };
    let data = vec![10u8, 12, 15, 1, 1, 1];
    let enc = predict(&data, &p).unwrap();
    assert_eq!(enc, vec![10, 2, 3, 1, 0, 0]);
    assert_eq!(unpredict(&enc, &p, &unbounded()).unwrap(), data);
}

#[test]
fn tiff_predictor_round_trip_other_depths() {
    // 16 bits, two colours, two columns: one row of 8 bytes per row.
    let p16 = PredictorParams { predictor: 2, colors: 2, bits_per_component: 16, columns: 2 };
    let data16 = vec![0x12u8, 0x34, 0xff, 0xff, 0x00, 0x01, 0x00, 0x00, 1, 2, 3, 4, 5, 6, 7, 8];
    let enc16 = predict(&data16, &p16).unwrap();
    assert_eq!(&enc16[..8], &[0x12, 0x34, 0xff, 0xff, 0xed, 0xcd, 0x00, 0x01]);
    assert_eq!(unpredict(&enc16, &p16, &unbounded()).unwrap(), data16);
    // Sub-byte widths with zero padding bits after the last sample.
    for (bpc, columns, data) in [
        (1usize, 5usize, vec![0b1011_0000u8, 0b0110_1000]),
        (2, 3, vec![0b1101_1000u8, 0b0010_1100]),
        (4, 3, vec![0xa3u8, 0x70, 0x0f, 0x50]),
    ] {
        let p = PredictorParams { predictor: 2, colors: 1, bits_per_component: bpc, columns };
        let enc = predict(&data, &p).unwrap();
        assert_eq!(unpredict(&enc, &p, &unbounded()).unwrap(), data);
    }
}

fn dict_with(entries: Vec<(&str, Object)>) -> Dict {
    let mut d = Dict::new();
    for (k, v) in entries {
        d.insert(Name::new(k), v);
    }
    d
}

#[test]
fn filter_chain_resolves_in_order() {
    let d = dict_with(vec![(
        "Filter",
        Object::Array(vec![Object::Name(Name::new("ASCIIHexDecode")), Object::Name(Name::new("FlateDecode"))]),
    )]);
    let steps = resolve_steps(&d).unwrap();
    assert_eq!(steps.len(), 2);
    assert_eq!(steps[0].kind, FilterKind::AsciiHex);
    assert_eq!(steps[1].kind, FilterKind::Flate);
}

#[test]
fn unknown_filter_is_an_error() {
    let d = dict_with(vec![("Filter", Object::Name(Name::new("NoSuchDecode")))]);
    assert!(resolve_steps(&d).is_err());
}

#[test]
fn decode_stream_applies_chain() {
    let inner = flate::encode(b"chained payload");
    let outer = ascii_hex::encode(&inner);
    let d = dict_with(vec![(
        "Filter",
        Object::Array(vec![Object::Name(Name::new("AHx")), Object::Name(Name::new("Fl"))]),
    )]);
    match decode_stream(&d, &outer, &unbounded()).unwrap() {
        DecodeOutcome::Decoded(v) => assert_eq!(v, b"chained payload".to_vec()),
        other => panic!("unexpected {other:?}"),
    }
}

#[test]
fn decode_stream_without_filter_is_identity() {
    let d = Dict::new();
    let out = decode_stream(&d, b"raw", &unbounded()).unwrap();
    assert_eq!(out.into_decoded().unwrap(), b"raw".to_vec());
}

#[test]
fn image_filter_stops_the_chain() {
    let d = dict_with(vec![("Filter", Object::Name(Name::new("DCTDecode")))]);
    match decode_stream(&d, b"\xff\xd8jpeg", &unbounded()).unwrap() {
        DecodeOutcome::ImageEncoded { filter, bytes } => {
            assert_eq!(filter, "DCTDecode");
            assert_eq!(bytes, b"\xff\xd8jpeg".to_vec());
        }
        other => panic!("unexpected {other:?}"),
    }
}

#[test]
fn early_change_defaults_to_one() {
    assert!(early_change(None));
    let d = dict_with(vec![("EarlyChange", Object::Integer(0))]);
    assert!(!early_change(Some(&d)));
}
