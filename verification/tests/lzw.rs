use pdf_core::error::{Error, LimitKind};
use pdf_core::filters::lzw::{decode, encode};
use pdf_core::limits::Limits;

fn unbounded() -> Limits {
    Limits::unbounded_decode()
}

#[test]
fn empty_input_decodes_to_empty() {
    assert_eq!(decode(&[], true, &unbounded()).unwrap(), Vec::<u8>::new());
    assert_eq!(decode(&[], false, &unbounded()).unwrap(), Vec::<u8>::new());
}

#[test]
fn round_trip_both_early_change_variants() {
    let cases: &[&[u8]] = &[
        b"",
        b"A",
        b"hello, hello, hello, world!",
        b"-----------------------------------------------------------------",
        b"The quick brown fox jumps over the lazy dog. The quick brown fox.",
    ];
    for &case in cases {
        for ec in [true, false] {
            let encoded = encode(case, ec);
            let decoded = decode(&encoded, ec, &unbounded()).unwrap();
            assert_eq!(decoded, case, "round-trip failed for early_change={ec}");
        }
    }
}

#[test]
fn round_trip_large_structured_input() {
    let mut data = Vec::new();
    for i in 0..4096u32 {
        data.extend_from_slice(format!("row{i:04}-payload;").as_bytes());
    }
    for ec in [true, false] {
        let encoded = encode(&data, ec);
        assert_eq!(decode(&encoded, ec, &unbounded()).unwrap(), data);
    }
}

#[test]
fn early_change_variants_differ_for_long_input() {
    let mut data = Vec::new();
    for i in 0..2048u32 {
        data.extend_from_slice(format!("{i:08}").as_bytes());
    }
    assert_ne!(encode(&data, true), encode(&data, false));
}

#[test]
fn cross_variant_decode_is_wrong_or_errors_but_never_panics() {
    let mut data = Vec::new();
    for i in 0..2048u32 {
        data.extend_from_slice(format!("{i:08}").as_bytes());
    }
    let encoded = encode(&data, true);
    if let Ok(wrong) = decode(&encoded, false, &unbounded()) {
        assert_ne!(wrong, data);
    }
}

#[test]
fn truncated_stream_errors() {
    let encoded = encode(b"some reasonably long input to truncate safely", true);
    let truncated = &encoded[..encoded.len() / 2];
    match decode(truncated, true, &unbounded()) {
        Err(Error::Decode { filter, .. }) => assert_eq!(filter, "LZWDecode"),
        other => panic!("expected a decode error for a truncated LZW stream, got {other:?}"),
    }
}

#[test]
fn bomb_guard_trips_limit() {
    let data = vec![b'A'; 200_000];
    let encoded = encode(&data, true);
    let limits = Limits {
        max_decompressed_stream: 1024,
        ..Limits::default()
    };
    match decode(&encoded, true, &limits) {
        Err(Error::LimitExceeded(LimitKind::DecompressedStream)) => {}
        other => panic!("expected LimitExceeded, got {other:?}"),
    }
}

#[test]
fn lzw_encode_is_not_identity() {
    let data = b"ababababababababababababababab".to_vec();
    let encoded = encode(&data, true);
    assert_ne!(encoded, data);
    assert_eq!(decode(&encoded, true, &unbounded()).unwrap(), data);
}

#[test]
fn invalid_code_after_output_past_the_ceiling_is_a_decode_error() {
    let data: Vec<u8> = (0..4000u32).map(|i| b'a' + (i % 7) as u8).collect();
    let enc = encode(&data, true);
    let mut bad = enc[..enc.len() / 2].to_vec();
    bad.extend_from_slice(&[0xFF; 8]);
    // The stream meets an invalid code after decoding part of the data.
    let mut decoder = weezl::decode::Decoder::with_tiff_size_switch(weezl::BitOrder::Msb, 8);
    let mut seen = Vec::new();
    let status = decoder.into_vec(&mut seen).decode(&bad).status;
    assert!(status.is_err());
    assert!(seen.len() > 100);
    // Less than a 16 MiB step of output precedes the invalid code: the
    // decode error, under a small ceiling as under none.
    let small = Limits { max_decompressed_stream: 100, ..Limits::default() };
    assert!(matches!(decode(&bad, true, &small), Err(Error::Decode { filter: "LZWDecode", .. })));
    assert!(matches!(decode(&bad, true, &unbounded()), Err(Error::Decode { filter: "LZWDecode", .. })));
    // A cut stream whose output passes the ceiling is the limit error.
    let cut = &enc[..enc.len() / 2];
    assert!(matches!(decode(cut, true, &small), Err(Error::LimitExceeded(LimitKind::DecompressedStream))));
    assert!(matches!(decode(cut, true, &unbounded()), Err(Error::Decode { filter: "LZWDecode", .. })));
}
