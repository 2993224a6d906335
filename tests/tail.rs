use tailr::tail::{
    count_lines_bytes, emits_line, get_start_index, header, illegal_count_message, parse_num,
    split_lines, window_bytes, window_lines, TakeValue::{PlusZero, TakeNum},
};

#[test]
fn test_count_lines_bytes() {
    let one = "Öne line, four wörds.\n".as_bytes();
    let (lines, bytes) = count_lines_bytes(one);
    assert_eq!(lines, 1);
    assert_eq!(bytes, 24);

    let twelve = "one\ntwo\nthree\nfour\nfive\nsix\nseven\neight\nnine\nten\neleven\ntwelve\n";
    let (lines, bytes) = count_lines_bytes(twelve.as_bytes());
    assert_eq!(lines, 12);
    assert_eq!(bytes, 63);
}

#[test]
fn test_get_start_index() {
    // +0 from an empty file (0 lines/bytes) returns None
    assert_eq!(get_start_index(&PlusZero, 0), None);

    // +0 from a nonempty file returns an index that
    // is one less than the number of lines/bytes
    assert_eq!(get_start_index(&PlusZero, 1), Some(0));

    // Taking 0 lines/bytes returns None
    assert_eq!(get_start_index(&TakeNum(0), 1), None);

    // Taking any lines/bytes from an empty file returns None
    assert_eq!(get_start_index(&TakeNum(1), 0), None);

    // Taking more lines/bytes than is available returns None
    assert_eq!(get_start_index(&TakeNum(2), 1), None);

    // When starting line/byte is less than total lines/bytes,
    // return one less than starting number
    assert_eq!(get_start_index(&TakeNum(1), 10), Some(0));
    assert_eq!(get_start_index(&TakeNum(2), 10), Some(1));
    assert_eq!(get_start_index(&TakeNum(3), 10), Some(2));

    // When starting line/byte is negative and less than total,
    // return total - start
    assert_eq!(get_start_index(&TakeNum(-1), 10), Some(9));
    assert_eq!(get_start_index(&TakeNum(-2), 10), Some(8));
    assert_eq!(get_start_index(&TakeNum(-3), 10), Some(7));

    // When the starting line/byte is negative and more than the total,
    // return 0 to print the whole file
    assert_eq!(get_start_index(&TakeNum(-20), 10), Some(0));

    assert_eq!(get_start_index(&TakeNum(1), 1), Some(0));
}

#[test]
fn test_parse_num() {
    // All integers should be interpreted as negative numbers
    let res = parse_num("3".to_string());
    assert!(res.is_ok());
    assert_eq!(res.unwrap(), TakeNum(-3));

    // A leading "+" should result in a positive number
    let res = parse_num("+3".to_string());
    assert!(res.is_ok());
    assert_eq!(res.unwrap(), TakeNum(3));

    // An explicit "-" value should result in a negative number
    let res = parse_num("-3".to_string());
    assert!(res.is_ok());
    assert_eq!(res.unwrap(), TakeNum(-3));

    // Zero is zero
    let res = parse_num("0".to_string());
    assert!(res.is_ok());
    assert_eq!(res.unwrap(), TakeNum(0));

    // Plus zero is special
    let res = parse_num("+0".to_string());
    assert!(res.is_ok());
    assert_eq!(res.unwrap(), PlusZero);

    // Test boundaries
    let res = parse_num(i64::MAX.to_string());
    assert!(res.is_ok());
    assert_eq!(res.unwrap(), TakeNum(i64::MIN + 1));

    let res = parse_num((i64::MIN + 1).to_string());
    assert!(res.is_ok());
    assert_eq!(res.unwrap(), TakeNum(i64::MIN + 1));

    let res = parse_num(format!("+{}", i64::MAX));
    assert!(res.is_ok());
    assert_eq!(res.unwrap(), TakeNum(i64::MAX));

    let res = parse_num(i64::MIN.to_string());
    assert!(res.is_ok());
    assert_eq!(res.unwrap(), TakeNum(i64::MIN));

    // A floating-point value is invalid
    let res = parse_num("3.14".to_string());
    assert!(res.is_err());
    assert_eq!(res.unwrap_err().message(), "3.14");

    // Any non-integer string is invalid
    let res = parse_num("foo".to_string());
    assert!(res.is_err());
    assert_eq!(res.unwrap_err().message(), "foo");
}

#[test]
fn parse_num_saturates_out_of_range_magnitudes() {
    assert_eq!(parse_num("99999999999999999999".to_string()).unwrap(), TakeNum(i64::MIN));
    assert_eq!(parse_num("+99999999999999999999".to_string()).unwrap(), TakeNum(i64::MAX));
    assert_eq!(parse_num("-9223372036854775809".to_string()).unwrap(), TakeNum(i64::MIN));
    assert_eq!(parse_num("+9223372036854775808".to_string()).unwrap(), TakeNum(i64::MAX));
}

#[test]
fn parse_num_rejects_malformed_text() {
    for bad in ["", "+", "-", "+-3", "3-", " 3", "3 ", "1e3", "٣"] {
        let res = parse_num(bad.to_string());
        assert_eq!(res.unwrap_err().text, bad);
    }
}

#[test]
fn parse_num_keeps_signed_zero_apart() {
    assert_eq!(parse_num("+0".to_string()).unwrap(), PlusZero);
    assert_eq!(parse_num("+000".to_string()).unwrap(), PlusZero);
    assert_eq!(parse_num("-0".to_string()).unwrap(), TakeNum(0));
    assert_eq!(parse_num("0".to_string()).unwrap(), TakeNum(0));
    assert_eq!(parse_num("+007".to_string()).unwrap(), TakeNum(7));
    assert_eq!(parse_num("-42".to_string()).unwrap(), TakeNum(-42));
}

#[test]
fn start_index_laws_on_samples() {
    for total in [0i64, 1, 5, 1000] {
        assert_eq!(get_start_index(&TakeNum(0), total), None);
    }
    assert_eq!(get_start_index(&PlusZero, 7), Some(0));
    assert_eq!(get_start_index(&TakeNum(4), 4), Some(3));
    assert_eq!(get_start_index(&TakeNum(5), 4), None);
    assert_eq!(get_start_index(&TakeNum(-4), 4), Some(0));
    assert_eq!(get_start_index(&TakeNum(i64::MIN), i64::MAX), Some(0));
    assert_eq!(get_start_index(&TakeNum(i64::MAX), i64::MAX), Some((i64::MAX - 1) as u64));
}

fn lines_of(text: &str) -> Vec<Vec<u8>> {
    split_lines(text.as_bytes())
}

fn tail_lines(count: &str, text: &str) -> Vec<Vec<u8>> {
    let spec = parse_num(count.to_string()).unwrap();
    let (total, _) = count_lines_bytes(text.as_bytes());
    window_lines(&lines_of(text), get_start_index(&spec, total))
}

const TEN: &str = "1\n2\n3\n4\n5\n6\n7\n8\n9\n10\n";

#[test]
fn plus_zero_on_empty_resource_shows_nothing() {
    assert!(tail_lines("+0", "").is_empty());
}

#[test]
fn plus_zero_shows_all_lines() {
    let text = "a\nb\nc\nd\ne\n";
    assert_eq!(tail_lines("+0", text), lines_of(text));
}

#[test]
fn bare_count_shows_last_lines() {
    assert_eq!(tail_lines("3", TEN), lines_of("8\n9\n10\n"));
}

#[test]
fn plus_count_skips_leading_lines() {
    assert_eq!(tail_lines("+3", TEN), lines_of("3\n4\n5\n6\n7\n8\n9\n10\n"));
}

#[test]
fn negative_count_beyond_extent_shows_everything() {
    assert_eq!(tail_lines("-20", TEN), lines_of(TEN));
}

#[test]
fn decimal_count_is_invalid() {
    let err = parse_num("3.14".to_string()).unwrap_err();
    assert_eq!(err.text, "3.14");
    assert_eq!(illegal_count_message(false, &err), "illegal line count -- 3.14");
    assert_eq!(illegal_count_message(true, &err), "illegal byte count -- 3.14");
}

#[test]
fn line_window_keeps_suffix_with_terminators() {
    let lines = lines_of("a\r\nb\n\nlast");
    let w = window_lines(&lines, Some(1));
    assert_eq!(w.len(), 3);
    assert_eq!(w, vec![b"b\n".to_vec(), b"\n".to_vec(), b"last".to_vec()]);
    assert!(window_lines(&lines, None).is_empty());
    assert!(window_lines(&lines, Some(4)).is_empty());
    assert!(window_lines(&lines, Some(9)).is_empty());
    assert_eq!(window_lines(&lines, Some(0)), lines);
}

#[test]
fn byte_window_keeps_suffix() {
    let data = "héllo\n".as_bytes();
    assert_eq!(window_bytes(data, Some(2)), data[2..].to_vec());
    assert_eq!(window_bytes(data, Some(2)).len(), data.len() - 2);
    assert_eq!(window_bytes(data, Some(0)), data.to_vec());
    assert!(window_bytes(data, Some(data.len() as u64)).is_empty());
    assert!(window_bytes(data, Some(100)).is_empty());
    assert!(window_bytes(data, None).is_empty());
}

#[test]
fn emits_line_from_start() {
    assert!(!emits_line(0, None));
    assert!(!emits_line(2, Some(3)));
    assert!(emits_line(3, Some(3)));
    assert!(emits_line(9, Some(0)));
}

#[test]
fn headers_between_resources() {
    assert_eq!(header(0, 2, false, "a.txt"), Some("==> a.txt <==".to_string()));
    assert_eq!(header(1, 2, false, "b.txt"), Some("\n==> b.txt <==".to_string()));
    assert_eq!(header(1, 2, true, "b.txt"), None);
    assert_eq!(header(0, 1, false, "a.txt"), None);
}

#[test]
fn split_keeps_terminators() {
    assert!(split_lines(b"").is_empty());
    assert_eq!(split_lines(b"\n"), vec![b"\n".to_vec()]);
    assert_eq!(
        split_lines(b"a\r\n\nb"),
        vec![b"a\r\n".to_vec(), b"\n".to_vec(), b"b".to_vec()]
    );
    let text = "x\ny\nz\n";
    assert_eq!(split_lines(text.as_bytes()).len() as i64, count_lines_bytes(text.as_bytes()).0);
    assert_eq!(split_lines(text.as_bytes()).concat(), text.as_bytes());
}
