use tailr::head::head_window;

#[test]
fn byte_count_keeps_prefix() {
    let data = "héllo\n".as_bytes();
    assert_eq!(head_window(data, Some(2)), data[..2].to_vec());
    assert_eq!(head_window(data, Some(100)), data.to_vec());
    assert_eq!(head_window(data, Some(0)), Vec::<u8>::new());
    assert_eq!(head_window(data, None), data.to_vec());
    assert!(head_window(b"", Some(3)).is_empty());
}
