use diskchurn::decimal::{parse_u64, push_decimal};
use diskchurn::paths::{chars_of, file_name_of, parent_of};

#[test]
fn parent_of_windows_paths() {
    assert_eq!(parent_of("C:\\foo\\a.txt").as_deref(), Some("C:\\foo"));
    assert_eq!(parent_of("C:\\a.txt").as_deref(), Some("C:\\"));
    assert_eq!(parent_of("C:\\").as_deref(), None);
    assert_eq!(parent_of("C:").as_deref(), None);
    assert_eq!(parent_of("").as_deref(), None);
    assert_eq!(parent_of("foo").as_deref(), Some(""));
    assert_eq!(parent_of("C:foo").as_deref(), Some("C:"));
    assert_eq!(parent_of("/a/b").as_deref(), Some("/a"));
    assert_eq!(parent_of("C:\\foo\\\\bar").as_deref(), Some("C:\\foo"));
    assert_eq!(parent_of("C:\\foo\\bar\\").as_deref(), Some("C:\\foo"));
    assert_eq!(parent_of("C:/x/y").as_deref(), Some("C:/x"));
}

#[test]
fn file_name_of_windows_paths() {
    assert_eq!(file_name_of("C:\\foo\\a.txt"), "a.txt");
    assert_eq!(file_name_of("C:\\foo\\"), "foo");
    assert_eq!(file_name_of("C:\\foo\\.."), "");
    assert_eq!(file_name_of("C:\\"), "");
    assert_eq!(file_name_of("plain"), "plain");
}

#[test]
fn chars_round_trip() {
    let s = "añb😀";
    let cs = chars_of(s);
    assert_eq!(cs.len(), 4);
    assert_eq!(cs, vec!['a', 'ñ', 'b', '😀']);
    assert_eq!(parent_of("ñ\\😀b").as_deref(), Some("ñ"));
    assert_eq!(file_name_of("ñ\\😀b"), "😀b");
}

#[test]
fn decimal_formatting_and_parsing() {
    let mut out = vec!['x'];
    push_decimal(&mut out, 0);
    push_decimal(&mut out, 1_234_567);
    push_decimal(&mut out, u64::MAX);
    let s: String = out.iter().collect();
    assert_eq!(s, format!("x0{}{}", 1_234_567, u64::MAX));
    let digits: Vec<char> = "+0018446744073709551615".chars().collect();
    assert_eq!(parse_u64(&digits, 0, digits.len()), Some(u64::MAX));
    let over: Vec<char> = "18446744073709551616".chars().collect();
    assert_eq!(parse_u64(&over, 0, over.len()), None);
    let odd: Vec<char> = "+-12 ".chars().collect();
    assert_eq!(parse_u64(&odd, 0, 1), None);
    assert_eq!(parse_u64(&odd, 1, 4), None);
    assert_eq!(parse_u64(&odd, 2, 4), Some(12));
    assert_eq!(parse_u64(&odd, 2, 5), None);
    assert_eq!(parse_u64(&odd, 2, 2), None);
}

#[test]
fn current_directory_components_are_skipped() {
    assert_eq!(parent_of("C:\\foo\\.\\bar").as_deref(), Some("C:\\foo"));
    assert_eq!(parent_of("C:\\foo\\bar\\.").as_deref(), Some("C:\\foo"));
    assert_eq!(parent_of("C:\\foo\\.\\.\\bar\\").as_deref(), Some("C:\\foo"));
    assert_eq!(parent_of("C:\\.").as_deref(), None);
    assert_eq!(parent_of(".\\a").as_deref(), Some("."));
    assert_eq!(parent_of(".").as_deref(), Some(""));
    assert_eq!(parent_of("C:.\\a").as_deref(), Some("C:."));
    assert_eq!(file_name_of("C:\\foo\\."), "foo");
    assert_eq!(file_name_of("C:\\foo\\.\\bar"), "bar");
    assert_eq!(file_name_of("."), "");
    assert_eq!(file_name_of("a.\\b."), "b.");
}
