use bitperfect::paths::{comps_of, extension_of, file_stem_of, join_path};
use bitperfect::text::{
    char_is_space, chars_of, find_year, lower_of, next_line, parse_numeral, push_decimal,
    push_padded, push_signed, string_of, trim_of, upper_of,
};
use std::path::Path;

#[test]
fn white_space_is_what_the_standard_says() {
    for n in 0..=0x10_FFFFu32 {
        if let Some(c) = char::from_u32(n) {
            assert_eq!(char_is_space(c), c.is_whitespace(), "U+{n:04X}");
        }
    }
}

#[test]
fn numbers_are_written_and_read() {
    let mut s = String::new();
    push_decimal(&mut s, u64::MAX);
    assert_eq!(s, u64::MAX.to_string());
    let mut s = String::from("x");
    push_signed(&mut s, i64::MIN);
    assert_eq!(s, format!("x{}", i64::MIN));
    let mut s = String::new();
    push_padded(&mut s, 7, 3);
    push_padded(&mut s, 1234, 3);
    assert_eq!(s, "0071234");
    for t in ["", "+", "-", "0", "+7", "-7", "12a", " 1", "18446744073709551615", "18446744073709551616", "00"] {
        let c = chars_of(t);
        assert_eq!(parse_numeral(&c, u64::MAX), t.parse::<u64>().ok(), "{t:?}");
        assert_eq!(parse_numeral(&c, 255), t.parse::<u8>().ok().map(u64::from), "{t:?}");
    }
}

#[test]
fn lines_are_those_of_the_standard() {
    for t in ["", "a", "a\n", "a\nb", "a\r\nb\r", "\n\n", "\r\n", "a\n\nb\n"] {
        let c = chars_of(t);
        let mut at = 0;
        let mut got = Vec::new();
        while at < c.len() {
            let (line, next) = next_line(&c, at);
            got.push(string_of(line));
            at = next;
        }
        assert_eq!(got, t.lines().map(str::to_string).collect::<Vec<_>>(), "{t:?}");
    }
}

#[test]
fn case_is_changed_in_ascii_only() {
    let c = chars_of("AbÄz");
    assert_eq!(string_of(&lower_of(&c)), "AbÄz".to_ascii_lowercase());
    assert_eq!(string_of(&upper_of(&c)), "AbÄz".to_ascii_uppercase());
    assert_eq!(string_of(trim_of(&chars_of("\u{3000} x y\t"))), "x y");
    assert_eq!(find_year(&chars_of("(c) 19999")), Some(1999));
    assert_eq!(find_year(&chars_of("19x9")), None);
}

const PATHS: [&str; 24] = [
    "", "/", ".", "..", "a", "/a", "a/", "a/b", "a/b.c", "a/.b", "a/b.", "a/..", "a/.", "a/./b",
    "//a//b.tar.gz//", ".a.b", "...", "a/...", "/a/b c.flac", "x.", "./a", "./.", "a/b/.", "/..",
];

#[test]
fn paths_are_read_as_the_standard_does() {
    for p in PATHS {
        let path = Path::new(p);
        let stem = path.file_stem().map(|x| x.to_str().unwrap().to_string());
        let ext = path.extension().map(|x| x.to_str().unwrap().to_string());
        assert_eq!(file_stem_of(p), stem, "{p:?}");
        assert_eq!(extension_of(p).map(|e| string_of(&e)), ext, "{p:?}");
        for q in PATHS {
            let same = comps_of(p) == comps_of(q);
            assert_eq!(same, path == Path::new(q), "{p:?} {q:?}");
            assert_eq!(join_path(p, q), path.join(q).to_str().unwrap(), "{p:?} {q:?}");
        }
    }
}
