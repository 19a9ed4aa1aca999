use dfsnode::query::{extract_sign_param, qs_decode_vec};
use serde_querystring::DuplicateQS;

/// The token the `$` parameter carries, read with the serde-querystring
/// parser: the first `$` pair's decoded value.
fn reference_extract(query: &[u8]) -> Option<Vec<u8>> {
    let parsed = DuplicateQS::parse(query);
    let first = parsed.values(b"$").and_then(|v| v.first().cloned().unwrap_or(None));
    first.map(|cow| cow.into_owned())
}

#[test]
fn extraction_matches_querystring_parser() {
    let cases: &[&[u8]] = &[
        b"",
        b"$",
        b"$=",
        b"$=abc",
        b"a=b&$=abc",
        b"$=abc&$=def",
        b"$&$=later",
        b"%24=tok",
        b"a=%24&b=c",
        b"$=a%20b",
        b"$=a+b",
        b"$=a%2Gb",
        b"$=%",
        b"$=%2",
        b"$=%41",
        b"x&&y=1&$=t",
        b"=$",
        b"&&&",
        b"$$=x",
        b"a=b&c",
    ];
    for q in cases {
        assert_eq!(
            extract_sign_param(q).as_deref(),
            reference_extract(q).as_deref(),
            "query {:?} disagrees",
            String::from_utf8_lossy(q)
        );
    }
}

#[test]
fn decoding_matches_querystring_parser() {
    // decode whole components via a query the parser decodes for us
    let cases: &[(&[u8], &[u8])] = &[
        (b"abc", b"abc"),
        (b"a+b", b"a b"),
        (b"a%41b", b"aAb"),
        (b"%7e", b"~"),
        (b"%7E", b"~"),
        (b"%", b"%"),
        (b"%2", b"%2"),
        (b"%2x", b"%2x"),
        (b"%%41", b"%A"),
        (b"%e2%82%ac", "€".as_bytes()),
    ];
    for (raw, want) in cases {
        assert_eq!(qs_decode_vec(raw).as_slice(), *want, "decoding {:?}", String::from_utf8_lossy(raw));
    }
}
