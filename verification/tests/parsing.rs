use hydrasect::history::{parse_history_line, read_history};
use hydrasect::oid::Oid;
use hydrasect::page::parse_page;

fn oid(s: &[u8]) -> Oid {
    Oid::parse(s).unwrap()
}

#[test]
fn test_oid_display() {
    let o = oid(b"0011f9065a1ad1da4db67bec8d535d91b0a78fba");
    assert_eq!(o.to_hex(), b"0011f9065a1ad1da4db67bec8d535d91b0a78fba".to_vec());
}

#[test]
fn test_oid_round_trip() {
    let text: &[u8] = b"0d4431cfe90b2242723ccb1ccc90714f2f68a609";
    let o = Oid::parse(text).unwrap();
    let again = Oid::parse(&o.to_hex()).unwrap();
    assert_eq!(o, again);
    assert_eq!(again.to_hex(), text.to_vec());
}

#[test]
fn test_oid_uppercase_decodes_lowercase() {
    let o = oid(b"AB");
    assert_eq!(o.to_hex(), b"ab".to_vec());
}

#[test]
fn test_oid_parse_rejects_non_hex_pair() {
    let e = Oid::parse(b"00gh11").unwrap_err();
    assert_eq!(e.chunk, b"gh".to_vec());
}

#[test]
fn test_oid_parse_rejects_odd_length() {
    let e = Oid::parse(b"abc").unwrap_err();
    assert_eq!(e.chunk, b"c".to_vec());
}

#[test]
fn test_oid_parse_rejects_plus_sign() {
    let e = Oid::parse(b"+5").unwrap_err();
    assert_eq!(e.chunk, b"+5".to_vec());
}

#[test]
fn test_oid_parse_empty_is_empty() {
    let o = Oid::parse(b"").unwrap();
    assert_eq!(o.to_hex(), Vec::<u8>::new());
}

#[test]
fn test_parse_history_line_drops_timestamp() {
    let o = parse_history_line(b"0011f9065a1ad1da4db67bec8d535d91b0a78fba 1496527122").unwrap();
    assert_eq!(o, oid(b"0011f9065a1ad1da4db67bec8d535d91b0a78fba"));
}

#[test]
fn test_read_history() {
    let input = b"0011f9065a1ad1da4db67bec8d535d91b0a78fba 1496527122\n\
                  0d4431cfe90b2242723ccb1ccc90714f2f68a609 1497692199\n";
    let expected = vec![
        oid(b"0011f9065a1ad1da4db67bec8d535d91b0a78fba"),
        oid(b"0d4431cfe90b2242723ccb1ccc90714f2f68a609"),
    ];
    assert_eq!(read_history(input).unwrap(), expected);
}

#[test]
fn test_read_history_collapses_duplicates() {
    let input = b"AA 1\nBB 2\nAA 3\n";
    assert_eq!(read_history(input).unwrap(), vec![oid(b"AA"), oid(b"BB")]);
}

#[test]
fn test_read_history_rejects_odd_run() {
    let e = read_history(b"AA 1\nabc 2\n").unwrap_err();
    assert_eq!(e.record, 1);
    assert_eq!(e.cause.chunk, b"c".to_vec());
}

#[test]
fn test_read_history_empty_input() {
    assert_eq!(read_history(b"").unwrap(), Vec::<Oid>::new());
}

#[test]
fn can_parse_page_suffix() {
    assert_eq!(parse_page(""), None);
    assert_eq!(parse_page("xxx"), None);
    assert_eq!(parse_page("?page=588"), Some(588));
    assert_eq!(parse_page("?page=xxx"), None);
}

#[test]
fn test_parse_page_details() {
    assert_eq!(parse_page("?page="), None);
    assert_eq!(parse_page("?page=+7"), Some(7));
    assert_eq!(parse_page("?page=+"), None);
    assert_eq!(parse_page("?page=4294967295"), Some(u32::MAX));
    assert_eq!(parse_page("?page=4294967296"), None);
    assert_eq!(parse_page("a=1&b=2"), None);
    assert_eq!(parse_page("=9"), Some(9));
}
