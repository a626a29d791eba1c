use gssavegame::{archive_entry_name, trim_nul_end};

#[test]
fn entry_names_use_forward_slashes() {
    assert_eq!(archive_entry_name("dir\\sub\\f.xml"), "dir/sub/f.xml");
    assert_eq!(archive_entry_name("plain/name"), "plain/name");
    assert_eq!(archive_entry_name(""), "");
}

#[test]
fn trailing_nuls_are_trimmed() {
    assert_eq!(trim_nul_end("abc\0\0"), "abc");
    assert_eq!(trim_nul_end("a\0b\0"), "a\0b");
    assert_eq!(trim_nul_end("\0\0"), "");
    assert_eq!(trim_nul_end("ação"), "ação");
}
