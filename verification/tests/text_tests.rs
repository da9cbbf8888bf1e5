use fcom::text::base_name_of;
use fcom::text::format_content;
use fcom::text::lines_of;
use fcom::text::trim_bytes;
use fcom::text::u64_to_dec;

#[test]
fn decimal_rendering() {
    assert_eq!(u64_to_dec(0), b"0".to_vec());
    assert_eq!(u64_to_dec(7), b"7".to_vec());
    assert_eq!(u64_to_dec(42), b"42".to_vec());
    assert_eq!(u64_to_dec(1000), b"1000".to_vec());
    assert_eq!(u64_to_dec(987654), b"987654".to_vec());
}

#[test]
fn line_splitting_follows_lines_semantics() {
    assert_eq!(lines_of(&b"a\nb".to_vec()), vec![b"a".to_vec(), b"b".to_vec()]);
    assert_eq!(lines_of(&b"a\n".to_vec()), vec![b"a".to_vec()]);
    assert_eq!(lines_of(&b"".to_vec()), Vec::<Vec<u8>>::new());
    assert_eq!(lines_of(&b"\n".to_vec()), vec![b"".to_vec()]);
    assert_eq!(lines_of(&b"a\r\nb".to_vec()), vec![b"a".to_vec(), b"b".to_vec()]);
}

#[test]
fn numbering_two_lines() {
    let out = format_content(&b"a\nb".to_vec(), true);
    assert_eq!(String::from_utf8(out).unwrap(), "1     | a\n2     | b");
}

#[test]
fn numbering_off_only_trims() {
    let out = format_content(&b"  text \n".to_vec(), false);
    assert_eq!(out, b"text".to_vec());
}

#[test]
fn trimming_both_ends() {
    assert_eq!(trim_bytes(&b" \t x y \n".to_vec()), b"x y".to_vec());
    assert_eq!(trim_bytes(&b"\n\r\t ".to_vec()), b"".to_vec());
    assert_eq!(trim_bytes(&b"solid".to_vec()), b"solid".to_vec());
}

#[test]
fn base_name_of_paths() {
    assert_eq!(base_name_of(&b"a/b/c.txt".to_vec()), b"c.txt".to_vec());
    assert_eq!(base_name_of(&b"c.txt".to_vec()), b"c.txt".to_vec());
}
