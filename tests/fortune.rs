use tailr::fortune::FortuneChunks;

fn split_fortunes(data: &[u8]) -> Vec<String> {
    let mut chunks = FortuneChunks::new();
    let mut out = Vec::new();
    let mut rest = data;
    while !rest.is_empty() {
        let end = rest.iter().position(|&b| b == b'%').map_or(rest.len(), |p| p + 1);
        if let Some(f) = chunks.push_chunk(&rest[..end]) {
            out.push(f);
        }
        rest = &rest[end..];
    }
    out
}

#[test]
fn fortunes_between_separators() {
    let data = b"Q. What?\nA. That.\n%\n  Second one.\n%\n";
    assert_eq!(split_fortunes(data), vec!["Q. What?\nA. That.", "Second one."]);
}

#[test]
fn empty_pieces_are_carried_over() {
    let data = b"%\nAfter\n%";
    assert_eq!(split_fortunes(data), vec!["%\nAfter"]);
    assert_eq!(split_fortunes(b"\n%\n%\n"), vec!["%\n%"]);
    assert!(split_fortunes(b"\n%\n").is_empty());
}

#[test]
fn invalid_bytes_are_replaced() {
    assert_eq!(split_fortunes(b"caf\xff!%"), vec!["caf\u{fffd}!"]);
}
