use yume_override::compiler::digest::sha256_hex;
use yume_override::compiler::fingerprint_for;
use yume_override::engine::js::{
    base64_decode_string, base64_encode_string, decode_base64_chunk, helper_script,
    override_log_path, parse_fetch_port, parse_fetch_url, settle_step, PromiseShows, SettleStep,
    MAX_PROMISE_JOB_PASSES,
};
use yume_override::text::usize_text;

#[test]
fn base64_encodes_with_padding() {
    assert_eq!(base64_encode_string(b""), "");
    assert_eq!(base64_encode_string(b"f"), "Zg==");
    assert_eq!(base64_encode_string(b"fo"), "Zm8=");
    assert_eq!(base64_encode_string(b"foo"), "Zm9v");
    assert_eq!(base64_encode_string(b"foobar"), "Zm9vYmFy");
    assert_eq!(base64_encode_string(&[0xff, 0xfe, 0x3f]), "//4/");
}

#[test]
fn base64_round_trip_of_text() {
    for text in ["", "a", "hello world", "混合 text ✓", "line\nbreak"] {
        let encoded = base64_encode_string(text.as_bytes());
        assert_eq!(base64_decode_string(&encoded), Ok(text.to_string()));
    }
}

#[test]
fn base64_decoding_ignores_whitespace() {
    assert_eq!(base64_decode_string(" Zm9v\nYmFy\t"), Ok("foobar".to_string()));
}

#[test]
fn base64_decoding_reports_bad_characters_and_padding() {
    assert_eq!(
        base64_decode_string("Zm9*"),
        Err("invalid base64 character: *".to_string())
    );
    assert_eq!(base64_decode_string("Zm9vY"), Err("invalid base64 padding".to_string()));
    assert!(base64_decode_string("/w==").is_err());
}

#[test]
fn base64_chunk_decodes_onto_the_buffer() {
    let mut bytes = vec![1u8];
    assert!(decode_base64_chunk(b"Zg==", &mut bytes).is_ok());
    assert_eq!(bytes, vec![1u8, b'f']);
    assert!(decode_base64_chunk(b"Zm9v", &mut bytes).is_ok());
    assert_eq!(bytes, vec![1u8, b'f', b'f', b'o', b'o']);
    assert!(decode_base64_chunk(b"Z!==", &mut bytes).is_err());
}

#[test]
fn sha256_digest_is_lowercase_hex() {
    assert_eq!(
        sha256_hex(b"abc"),
        "ba7816bf8f01cfea414140de5dae2223b00361a396177a9cb410ff61f20015ad"
    );
}

#[test]
fn fingerprint_hashes_id_then_payload() {
    assert_eq!(fingerprint_for(b"ab", b"c"), sha256_hex(b"abc"));
    assert_eq!(fingerprint_for(b"", b"abc").len(), 64);
}

#[test]
fn decimal_text_of_numbers() {
    assert_eq!(usize_text(0), "0");
    assert_eq!(usize_text(7), "7");
    assert_eq!(usize_text(1024), "1024");
}

#[test]
fn fetch_url_parts() {
    let u = parse_fetch_url("HTTP://example.com:8080/a/b?x=1").expect("parse");
    assert_eq!(u.scheme, "http");
    assert_eq!(u.authority, "example.com:8080");
    assert_eq!(u.host, "example.com");
    assert_eq!(u.port, 8080);
    assert_eq!(u.path_and_query, "/a/b?x=1");

    let u = parse_fetch_url("https://example.com").expect("parse");
    assert_eq!(u.port, 443);
    assert_eq!(u.path_and_query, "/");

    let u = parse_fetch_url("http://[::1]:9090/x").expect("parse");
    assert_eq!(u.host, "[::1]");
    assert_eq!(u.port, 9090);

    let u = parse_fetch_url("http://[::1]/x").expect("parse");
    assert_eq!(u.port, 80);

    let u = parse_fetch_url("http://a:b:c/").expect("parse");
    assert_eq!(u.host, "a:b:c");
    assert_eq!(u.port, 80);
}

#[test]
fn fetch_url_errors() {
    assert_eq!(
        parse_fetch_url("example.com").err(),
        Some("invalid fetch url: example.com".to_string())
    );
    assert_eq!(
        parse_fetch_url("ftp://example.com").err(),
        Some("unsupported fetch scheme: ftp".to_string())
    );
    assert_eq!(
        parse_fetch_url("http:///path").err(),
        Some("invalid fetch url authority: http:///path".to_string())
    );
    assert_eq!(
        parse_fetch_url("http://[::1/x").err(),
        Some("invalid IPv6 fetch authority: [::1".to_string())
    );
    let err = parse_fetch_url("http://host:99999/").err().expect("bad port");
    assert!(err.starts_with("invalid fetch port 99999: "));
}

#[test]
fn fetch_port_accepts_plus_sign_and_refuses_overflow() {
    assert_eq!(parse_fetch_port("+80"), Ok(80));
    assert_eq!(parse_fetch_port("65535"), Ok(65535));
    assert!(parse_fetch_port("65536").is_err());
    assert!(parse_fetch_port("").is_err());
}

#[test]
fn override_log_path_swaps_the_extension() {
    assert_eq!(override_log_path("/data/overrides/main.js"), "/data/overrides/main.log");
    assert_eq!(override_log_path("dir/archive.tar.js"), "dir/archive.tar.log");
    assert_eq!(override_log_path("dir/noext"), "dir/noext.log");
    assert_eq!(override_log_path("dir/.hidden"), "dir/.hidden.log");
    assert_eq!(override_log_path("dir/file.js/"), "dir/file.log");
    assert_eq!(override_log_path("/"), "/");
    assert_eq!(override_log_path("dir/.."), "dir/..");
}

#[test]
fn helper_script_defines_the_globals() {
    let script = helper_script();
    assert!(script.contains("globalThis.fetch = fetch;"));
    assert!(script.contains("globalThis.yaml = yaml;"));
}

#[test]
fn async_main_settles_within_the_pass_limit() {
    assert_eq!(settle_step(1, PromiseShows::Pending), SettleStep::RunJobs);
    assert_eq!(settle_step(1, PromiseShows::Fulfilled), SettleStep::Resolved);
    assert_eq!(
        settle_step(3, PromiseShows::Rejected("boom".to_string())),
        SettleStep::Failed("JS override rejected: boom".to_string())
    );
    assert_eq!(settle_step(MAX_PROMISE_JOB_PASSES - 1, PromiseShows::Pending), SettleStep::RunJobs);
    assert_eq!(
        settle_step(MAX_PROMISE_JOB_PASSES, PromiseShows::Pending),
        SettleStep::Failed("async main(profile) did not settle".to_string())
    );
}
