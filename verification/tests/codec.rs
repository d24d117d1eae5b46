use name_resolver::aggregate::Counters;
use name_resolver::ident::format_id;
use name_resolver::ident::parse_id;
use name_resolver::resolver::decode_entries;
use name_resolver::resolver::decode_response;
use name_resolver::resolver::encode_batch;
use name_resolver::status::render_pair;
use name_resolver::status::render_status;
use uuid::Uuid;

fn bv(s: &str) -> Vec<u8> {
    s.as_bytes().to_vec()
}

#[test]
fn encoding_agrees_with_the_uuid_crate() {
    let values: [u128; 4] = [
        0,
        1,
        0xdeadbeef_1234_5678_9abc_def012345678,
        u128::MAX,
    ];
    for v in values {
        let expected = Uuid::from_u128(v).hyphenated().to_string();
        assert_eq!(format_id(v), expected.as_bytes().to_vec());
        let parsed = parse_id(&expected.as_bytes().to_vec());
        assert_eq!(parsed, Some(v));
    }
}

#[test]
fn batch_encoding_is_the_json_array() {
    let names = vec![bv("bob"), bv("bob_01")];
    let body = encode_batch(&names);
    assert_eq!(body, "[\"bob\",\"bob_01\"]");
    let empty: Vec<Vec<u8>> = Vec::new();
    assert_eq!(encode_batch(&empty), "[]");
}

#[test]
fn response_decoding_reads_id_and_name() {
    let body = "[{\"id\":\"deadbeef-1234-5678-9abc-def012345678\",\"name\":\"Steve\"}]";
    let pairs = decode_response(body).expect("well-formed response");
    assert_eq!(pairs.len(), 1);
    assert_eq!(pairs[0].0, 0xdeadbeef_1234_5678_9abc_def012345678);
    assert_eq!(pairs[0].1, bv("Steve"));
}

#[test]
fn response_decoding_rejects_malformed_payloads() {
    assert!(decode_response("not json").is_none());
    assert!(decode_response("{\"id\":\"x\"}").is_none());
    assert!(decode_response("[{\"id\":\"zzz\",\"name\":\"a\"}]").is_none());
    assert!(decode_response("[{\"name\":\"a\"}]").is_none());
    assert!(decode_response("[{\"id\":\"deadbeef-1234-5678-9abc-def012345678\"}]").is_none());
    let empty = decode_response("[]").expect("empty array is a valid response");
    assert!(empty.is_empty());
}

#[test]
fn entry_decoding_is_exact() {
    let entries = vec![
        (bv("00000000-0000-0000-0000-000000000001"), bv("Steve")),
        (bv("00000000000000000000000000000002"), bv("Alex")),
    ];
    let pairs = decode_entries(&entries).expect("both identifiers parse");
    assert_eq!(pairs, vec![(1u128, bv("Steve")), (2u128, bv("Alex"))]);
    let bad = vec![(bv("nope"), bv("Steve"))];
    assert!(decode_entries(&bad).is_none());
}

#[test]
fn status_line_shows_the_three_counters() {
    let c = Counters::new();
    assert_eq!(render_status(&c), bv("\x1b[2K\rreqs: 0 | found: 0 (0 total)"));
    let mut c = Counters::new();
    c.record_call();
    c.record_resolved(34);
    c.record_accepted();
    c.record_accepted();
    assert_eq!(render_status(&c), bv("\x1b[2K\rreqs: 1 | found: 2 (34 total)"));
}

#[test]
fn pair_lines_render_in_both_styles() {
    let id: u128 = 1;
    let name = bv("Steve");
    assert_eq!(
        render_pair(id, &name, false),
        bv("\x1b[2K\r00000000-0000-0000-0000-000000000001:Steve")
    );
    assert_eq!(
        render_pair(id, &name, true),
        bv("\x1b[2K\r\x1b[38;5;241m00000000-0000-0000-0000-000000000001:Steve\x1b[0m")
    );
}
