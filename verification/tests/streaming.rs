//! The UTF-8 re-assembly buffer, compared against the standard library's
//! lossy decoding on whole inputs, and fed in arbitrarily small chunks.

use term_engine::utf8stream::Utf8Stream;

fn decode_whole(bytes: &[u8]) -> String {
    let mut d = Utf8Stream::new();
    let mut out = d.decode_chunk(bytes);
    out.push_str(&d.finish());
    out
}

fn decode_chunked(bytes: &[u8], n: usize) -> String {
    let mut d = Utf8Stream::new();
    let mut out = String::new();
    let mut i = 0;
    while i < bytes.len() {
        let end = if i + n < bytes.len() { i + n } else { bytes.len() };
        out.push_str(&d.decode_chunk(&bytes[i..end]));
        i = end;
    }
    out.push_str(&d.finish());
    out
}

fn samples() -> Vec<Vec<u8>> {
    vec![
        b"hello world".to_vec(),
        "héllo wörld…".as_bytes().to_vec(),
        "🚀🎉 mixed ascii 字字".as_bytes().to_vec(),
        vec![0x80, 0x81, 0xff, 0xfe],
        vec![0xc2],
        vec![0xe2, 0x82],
        vec![0xf0, 0x9f, 0x92],
        vec![0x61, 0xc2, 0x41],
        vec![0xe0, 0x80, 0xaf],
        vec![0xed, 0xa0, 0x80],
        vec![0xf4, 0x90, 0x80, 0x80],
        vec![0xc0, 0xaf],
        vec![0x61, 0xe2, 0x82, 0xac, 0x62],
        vec![0xf0, 0x28, 0x8c, 0xbc],
    ]
}

#[test]
fn matches_std_lossy_decoding() {
    for bytes in samples() {
        let expected = String::from_utf8_lossy(&bytes).to_string();
        assert_eq!(decode_whole(&bytes), expected, "input {:?}", bytes);
    }
}

#[test]
fn chunking_never_changes_the_output() {
    // The chunked decode of any stream equals the one-chunk decode.
    for bytes in samples() {
        let whole = decode_whole(&bytes);
        for n in 1..5 {
            assert_eq!(decode_chunked(&bytes, n), whole, "input {:?} chunk {}", bytes, n);
        }
    }
}

#[test]
fn split_codepoints_survive_read_boundaries() {
    let text = "a€😀b";
    let bytes = text.as_bytes();
    for n in 1..bytes.len() {
        assert_eq!(decode_chunked(bytes, n), text);
    }
}

#[test]
fn truncated_tail_becomes_one_replacement() {
    let mut d = Utf8Stream::new();
    let out = d.decode_chunk(&[0x61, 0xe2, 0x82]);
    assert_eq!(out, "a");
    let tail = d.finish();
    assert_eq!(tail, "\u{fffd}");
}
