use tailr::wc::{count, FileInfo, NotUtf8};

#[test]
fn test_count() {
    let text = "I don't want the world. I just want your half.\r\n";
    let info = count(text.as_bytes());
    assert!(info.is_ok());
    let expected = FileInfo {
        num_lines: 1,
        num_words: 10,
        num_bytes: 48,
        num_chars: 48,
    };
    assert_eq!(info.unwrap(), expected);
}

#[test]
fn count_multibyte_and_unicode_spaces() {
    let text = "Öne\u{a0}line,\tfour  wörds.\nno newline";
    let info = count(text.as_bytes()).unwrap();
    assert_eq!(info.num_lines, 2);
    assert_eq!(info.num_words, 6);
    assert_eq!(info.num_bytes, text.len());
    assert_eq!(info.num_chars, text.chars().count());
}

#[test]
fn count_empty_and_invalid() {
    let empty = count(b"").unwrap();
    assert_eq!(empty, FileInfo { num_lines: 0, num_words: 0, num_bytes: 0, num_chars: 0 });
    assert_eq!(count(&[0x66, 0xff, 0x0a]), Err(NotUtf8));
}

#[test]
fn add_sums_each_count() {
    let mut total = FileInfo { num_lines: 1, num_words: 2, num_bytes: 3, num_chars: 4 };
    total.add(&FileInfo { num_lines: 10, num_words: 20, num_bytes: 30, num_chars: 40 });
    assert_eq!(total, FileInfo { num_lines: 11, num_words: 22, num_bytes: 33, num_chars: 44 });
}

use tailr::wc::Selection;

#[test]
fn finalize_defaults_to_lines_words_bytes() {
    let mut sel = Selection { lines: false, words: false, bytes: false, chars: false };
    sel.finalize();
    assert_eq!(sel, Selection { lines: true, words: true, bytes: true, chars: false });
    let mut chars = Selection { lines: false, words: false, bytes: false, chars: true };
    chars.finalize();
    assert_eq!(chars, Selection { lines: false, words: false, bytes: false, chars: true });
}

#[test]
fn report_line_layout() {
    let info = FileInfo { num_lines: 1, num_words: 10, num_bytes: 48, num_chars: 48 };
    let sel = Selection { lines: true, words: true, bytes: true, chars: false };
    assert_eq!(info.format("fox.txt", &sel), "       1      10      48 fox.txt");
    assert_eq!(info.format("-", &sel), "       1      10      48");
    let chars = Selection { lines: false, words: false, bytes: false, chars: true };
    assert_eq!(info.format("total", &chars), "      48 total");
    let big = FileInfo { num_lines: 123456789, num_words: 0, num_bytes: 0, num_chars: 0 };
    let lines = Selection { lines: true, words: false, bytes: false, chars: false };
    assert_eq!(big.format("-", &lines), "123456789");
}
