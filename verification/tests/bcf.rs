use bcf::codec::{encode_list, encode_map};
use bcf::config::{RawConfig, ScanErrorKind};
use bcf::decode::{BCFValue, BcfMap, Span, Text};
use bcf::diag::{absolute_span, render_error};
use bcf::lurky::LurkyConfig;
use bcf::tokenizer::tokenize;

fn parse_doc(text: &str) -> RawConfig {
    RawConfig::parse(text.as_bytes().to_vec()).expect("Failed to parse config")
}

#[test]
pub fn test_thing() {
    let data = "val1:65535\nval2:1234\nbanned_mfs:6\\96\\9,420,5923\nescape_test:hello\\, world,hey!\ntest_map:hello|world,hey|there,test_escape|test\\,ok!\\\\|ok!\ntest_map_two:567|1\\23,123|5\\67\n";
    let conf = parse_doc(data);
    let val1: u64 = conf.get(b"val1").unwrap();
    let val2: u64 = conf.get(b"val2").unwrap();
    let banned_mfs: Vec<u64> = conf.get(b"banned_mfs").unwrap();
    let escape_test: Vec<Text> = conf.get(b"escape_test").unwrap();
    let test_map: BcfMap<Text, Text> = conf.get(b"test_map").unwrap();
    let test_map_two: BcfMap<u64, u64> = conf.get(b"test_map_two").unwrap();
    assert_eq!(val1, 65535);
    assert_eq!(val2, 1234);
    assert_eq!(banned_mfs, vec![6969, 420, 5923]);
    assert_eq!(
        escape_test,
        vec![
            Text(b"hello, world".to_vec()),
            Text(b"hey!".to_vec())
        ]
    );
    assert_eq!(
        test_map.get(&b"hello"[..]),
        Some(&Text(b"world".to_vec()))
    );
    assert_eq!(test_map.get(&b"hey"[..]), Some(&Text(b"there".to_vec())));
    assert_eq!(
        test_map.get(&b"test_escape"[..]),
        Some(&Text(b"test,ok!|ok!".to_vec()))
    );
    assert_eq!(test_map.entries.len(), 3);
    assert_eq!(test_map_two.get(567), Some(&123));
    assert_eq!(test_map_two.get(123), Some(&567));
}

#[test]
fn scenario_u16_and_lists() {
    let data = "val1:65535\nval2:1234\nbanned_mfs:6\\9,420,5923\nescape_test:hello\\, world,hey!\ntest_map:hello|world,hey|there\n";
    let conf = parse_doc(data);
    let val1: u16 = conf.get(b"val1").unwrap();
    assert_eq!(val1, 65535);
    // the escaped comma is absorbed into the first element's literal text,
    // which must itself parse as a number
    let banned: Vec<u64> = conf.get(b"banned_mfs").unwrap();
    assert_eq!(banned, vec![69, 420, 5923]);
    let esc: Vec<Text> = conf.get(b"escape_test").unwrap();
    assert_eq!(esc[0], Text(b"hello, world".to_vec()));
    assert_eq!(esc[1], Text(b"hey!".to_vec()));
    let m: BcfMap<Text, Text> = conf.get(b"test_map").unwrap();
    assert_eq!(m.get(&b"hello"[..]), Some(&Text(b"world".to_vec())));
    assert_eq!(m.get(&b"hey"[..]), Some(&Text(b"there".to_vec())));
}

#[test]
fn tokenize_plain_is_identity() {
    let toks = tokenize(b"hello world", b',');
    assert_eq!(toks.len(), 1);
    assert_eq!(toks[0].0, b"hello world".to_vec());
    assert_eq!(toks[0].1, 0);
}

#[test]
fn tokenize_splits_and_counts_escapes() {
    let toks = tokenize(b"a\\,b,c,,", b',');
    assert_eq!(
        toks,
        vec![
            (b"a,b".to_vec(), 1),
            (b"c".to_vec(), 0),
            (b"".to_vec(), 0),
            (b"".to_vec(), 0),
        ]
    );
}

#[test]
fn tokenize_escapes_any_byte() {
    // an escape before a byte with no special meaning still strips the backslash
    let toks = tokenize(b"a\\xb", b',');
    assert_eq!(toks, vec![(b"axb".to_vec(), 1)]);
    // a trailing lone escape is dropped
    let toks = tokenize(b"ab\\", b',');
    assert_eq!(toks, vec![(b"ab".to_vec(), 0)]);
    // empty input: exactly one empty token
    let toks = tokenize(b"", b',');
    assert_eq!(toks, vec![(b"".to_vec(), 0)]);
}

#[test]
fn list_round_trip_concrete() {
    let items = vec![b"a,b".to_vec(), b"c\\d".to_vec(), b"plain".to_vec()];
    let encoded = encode_list(&items);
    assert_eq!(encoded, b"a\\,b,c\\\\d,plain".to_vec());
    let decoded: Vec<Text> = <Vec<Text>>::parse_bcf(&encoded).unwrap();
    let texts: Vec<Vec<u8>> = decoded.into_iter().map(|t| t.0).collect();
    assert_eq!(texts, items);
}

#[test]
fn map_round_trip_concrete() {
    let pairs = vec![
        (b"k,1".to_vec(), b"v|1".to_vec()),
        (b"k2".to_vec(), b"v2".to_vec()),
    ];
    let encoded = encode_map(&pairs);
    let decoded: BcfMap<Text, Text> = BcfMap::parse_bcf(&encoded).unwrap();
    assert_eq!(decoded.get(&b"k,1"[..]), Some(&Text(b"v|1".to_vec())));
    assert_eq!(decoded.get(&b"k2"[..]), Some(&Text(b"v2".to_vec())));
    assert_eq!(decoded.entries.len(), 2);
}

#[test]
fn map_duplicate_key_last_wins() {
    let m: BcfMap<Text, Text> = BcfMap::parse_bcf(b"k|first,k|second").unwrap();
    assert_eq!(m.get(&b"k"[..]), Some(&Text(b"second".to_vec())));
    let m2: BcfMap<u64, u64> = BcfMap::parse_bcf(b"7|1,7|2,7|3").unwrap();
    assert_eq!(m2.get(7), Some(&3));
}

#[test]
fn list_error_span_points_at_failing_token() {
    // third token fails; earlier tokens shift the span by decoded length
    // plus escape count plus separator
    let err = <Vec<u64>>::parse_bcf(b"1,2,x").unwrap_err();
    assert_eq!(err.span, Span { start: 4, end: 5 });
    assert_eq!(err.error, "invalid unsigned integer");
    // an escape consumed in an earlier token must not skew the span
    let err = <Vec<u64>>::parse_bcf(b"1\\21,2,x").unwrap_err();
    assert_eq!(err.span, Span { start: 7, end: 8 });
    // the failing token's own escapes widen the end of the span
    let err = <Vec<u64>>::parse_bcf(b"1,x\\yz").unwrap_err();
    assert_eq!(err.span, Span { start: 2, end: 6 });
}

#[test]
fn absolute_span_adds_offset_key_and_colon() {
    let data = "first:1\nlist:1,2,x\n";
    let conf = parse_doc(data);
    let err = conf.get::<Vec<u64>>(b"list").unwrap_err();
    assert_eq!(err.span, Span { start: 4, end: 5 });
    let abs = absolute_span(conf.key_offset(b"list"), b"list".len(), &err.span);
    // line starts at 8; key is 4 bytes; one colon; relative 4..5
    assert_eq!(abs, Span { start: 17, end: 18 });
    assert_eq!(&data.as_bytes()[17..18], b"x");
}

#[test]
fn map_structural_error_covers_whole_entry() {
    // no pipe at all in the second entry
    let err = <BcfMap<Text, Text>>::parse_bcf(b"a|b,cde").unwrap_err();
    assert_eq!(err.error, "Invalid key value pair");
    assert_eq!(err.span, Span { start: 3, end: 6 });
    // two pipes in the first entry
    let err = <BcfMap<Text, Text>>::parse_bcf(b"a|b|c").unwrap_err();
    assert_eq!(err.error, "Invalid key value pair");
    assert_eq!(err.span, Span { start: 0, end: 5 });
}

#[test]
fn map_member_error_spans() {
    // key of the second entry fails to parse as a number
    let err = <BcfMap<u64, u64>>::parse_bcf(b"1|2,x|3").unwrap_err();
    assert_eq!(err.error, "invalid unsigned integer");
    assert_eq!(err.span, Span { start: 4, end: 5 });
    // value of the first entry fails; the reported range starts one past
    // the value's first byte (the entry-leading boundary is counted twice)
    let err = <BcfMap<u64, u64>>::parse_bcf(b"1|y").unwrap_err();
    assert_eq!(err.error, "invalid unsigned integer");
    assert_eq!(err.span, Span { start: 3, end: 4 });
}

#[test]
fn scan_skips_comments_and_blanks_but_keeps_offsets() {
    let data = "# comment\n\nkey:value\n";
    let conf = parse_doc(data);
    assert_eq!(conf.key_offset(b"key"), 11);
    let v: Text = conf.get(b"key").unwrap();
    assert_eq!(v, Text(b"value".to_vec()));
}

#[test]
fn scan_trims_and_last_duplicate_wins() {
    let data = "  key  :  value  \nkey:second\n";
    let conf = parse_doc(data);
    let v: Text = conf.get(b"key").unwrap();
    assert_eq!(v, Text(b"second".to_vec()));
    // the offset also follows the later occurrence
    assert_eq!(conf.key_offset(b"key"), 18);
}

#[test]
fn scan_final_line_without_newline() {
    let conf = parse_doc("a:1\nb:2");
    let b: u64 = conf.get(b"b").unwrap();
    assert_eq!(b, 2);
}

#[test]
fn scan_structural_errors() {
    let e = RawConfig::parse(b"nocolon\n".to_vec()).unwrap_err();
    assert_eq!(e.kind, ScanErrorKind::MissingColon);
    assert_eq!(e.offset, 0);
    let e = RawConfig::parse(b"ok:1\n  :value\n".to_vec()).unwrap_err();
    assert_eq!(e.kind, ScanErrorKind::EmptyKey);
    assert_eq!(e.offset, 5);
    let e = RawConfig::parse(b"key:   \n".to_vec()).unwrap_err();
    assert_eq!(e.kind, ScanErrorKind::EmptyValue);
    assert_eq!(e.offset, 0);
}

#[test]
fn missing_key_error() {
    let conf = parse_doc("a:1\n");
    let err = conf.get::<u64>(b"absent").unwrap_err();
    assert_eq!(err.span, Span { start: 0, end: 0 });
    assert_eq!(err.error, "missing key");
}

#[test]
fn unsigned_decoding_edges() {
    let conf = parse_doc("big:18446744073709551615\nover:18446744073709551616\nplus:+7\n");
    assert_eq!(conf.get::<u64>(b"big").unwrap(), u64::MAX);
    assert!(conf.get::<u64>(b"over").is_err());
    assert_eq!(conf.get::<u64>(b"plus").unwrap(), 7);
    assert!(conf.get::<u16>(b"big").is_err());
    let err = conf.get::<u16>(b"over").unwrap_err();
    assert_eq!(err.span, Span { start: 0, end: 20 });
}

#[test]
fn rendered_diagnostic_names_key_and_points_at_span() {
    let data = "first:1\nlist:1,2,x\n";
    let conf = parse_doc(data);
    let err = conf.get::<Vec<u64>>(b"list").unwrap_err();
    let rendered = render_error(&conf, b"list", &err);
    let text = String::from_utf8_lossy(&rendered).into_owned();
    assert!(text.contains("list"));
    assert!(text.contains("invalid unsigned integer"));
    assert!(text.contains("ERROR"));
    // the caret line points inside the document text, which is echoed
    assert!(text.contains("1,2,x"));
}

#[test]
fn lurky_config_parses_all_fields() {
    let data = "servers:1|alpha,2|beta\ndb_type:memory\ndb_url:mem\nrefresh_cooldown:30\nauth_key:examplekey\n";
    let conf = parse_doc(data);
    let lc = LurkyConfig::parse_data(&conf).unwrap();
    assert_eq!(lc.servers.len(), 2);
    assert_eq!(lc.servers[0], Text(b"1|alpha".to_vec()));
    assert_eq!(lc.db_type, Text(b"memory".to_vec()));
    assert_eq!(lc.db_url, Text(b"mem".to_vec()));
    assert_eq!(lc.refresh_cooldown, 30);
    assert_eq!(lc.auth_key, Text(b"examplekey".to_vec()));
}

#[test]
fn lurky_config_reports_first_failing_field() {
    let data = "servers:1|alpha\ndb_type:memory\ndb_url:mem\nrefresh_cooldown:soon\nauth_key:k\n";
    let conf = parse_doc(data);
    let fe = LurkyConfig::parse_data(&conf).unwrap_err();
    assert_eq!(fe.key, b"refresh_cooldown".to_vec());
    assert_eq!(fe.err.error, "invalid unsigned integer");
    let data = "db_type:memory\ndb_url:mem\nrefresh_cooldown:1\nauth_key:k\n";
    let conf = parse_doc(data);
    let fe = LurkyConfig::parse_data(&conf).unwrap_err();
    assert_eq!(fe.key, b"servers".to_vec());
    assert_eq!(fe.err.error, "missing key");
}
