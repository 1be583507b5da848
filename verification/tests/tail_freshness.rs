use hydrasect::freshness::{history_freshness, Freshness};
use hydrasect::tail::last_line;

const CHUNK: usize = 4096;

/// What a scan of the whole text gives: the bytes after the final
/// newline, one trailing terminator ignored.
fn naive_last_record(data: &[u8]) -> Vec<u8> {
    let content = if data.last() == Some(&b'\n') { &data[..data.len() - 1] } else { data };
    match content.iter().rposition(|b| *b == b'\n') {
        Some(i) => content[i + 1..].to_vec(),
        None => content.to_vec(),
    }
}

#[test]
fn test_last_line_empty() {
    let line = last_line(b"", CHUNK);
    assert!(line.is_empty());
}

#[test]
fn test_last_line_first() {
    let len = 4096 * 3;
    let mut data = vec![b'a'; len];
    *data.last_mut().unwrap() = b'\n';

    let line = last_line(&data, CHUNK);
    assert_eq!(data[..(len - 1)], line);
    assert_eq!(naive_last_record(&data), line);
}

#[test]
fn test_last_line_short() {
    let len = 1024;
    let mut data = vec![b'a'; len];
    data[len - 10] = b'\n';
    data[len - 9] = b'b';

    let line = last_line(&data, CHUNK);
    assert_eq!(data[(len - 9)..], line);
    assert_eq!(naive_last_record(&data), line);
}

#[test]
fn test_last_line_long() {
    let len = 4096 * 3;
    let mut data = vec![b'a'; len];
    *data.last_mut().unwrap() = b'\n';
    data[len / 2] = b'\n';
    data[len / 2 + 1] = b'b';

    let line = last_line(&data, CHUNK);
    assert_eq!(data[(len / 2 + 1)..(len - 1)], line);
    assert_eq!(naive_last_record(&data), line);
}

#[test]
fn test_last_line_at_chunk_boundary() {
    // The final newline sits exactly one chunk from the end of the
    // content, so the record starts at a chunk boundary.
    let mut data = vec![b'a'; CHUNK];
    data.push(b'\n');
    data.extend(vec![b'b'; CHUNK]);

    let line = last_line(&data, CHUNK);
    assert_eq!(line, vec![b'b'; CHUNK]);
    assert_eq!(naive_last_record(&data), line);
}

#[test]
fn test_last_line_small_chunks() {
    let data = b"one\ntwo\nthree\n";
    for chunk in 1..20 {
        let line = last_line(data, chunk);
        assert_eq!(line, b"three".to_vec());
        assert_eq!(naive_last_record(data), line);
    }
}

#[test]
fn test_last_line_no_terminator() {
    assert_eq!(last_line(b"one\ntwo", CHUNK), b"two".to_vec());
    assert_eq!(last_line(b"lone", CHUNK), b"lone".to_vec());
}

#[test]
fn test_freshness_covering_cache_is_used() {
    assert_eq!(history_freshness(true, 100_000, 0), Freshness::UseCache);
}

#[test]
fn test_freshness_recent_cache_is_used() {
    assert_eq!(history_freshness(false, 900, 0), Freshness::UseCache);
    assert_eq!(history_freshness(false, 899, 999_999_999), Freshness::UseCache);
}

#[test]
fn test_freshness_stale_cache_is_refreshed() {
    assert_eq!(history_freshness(false, 901, 0), Freshness::Refresh);
    assert_eq!(history_freshness(false, 900, 1), Freshness::Refresh);
}
