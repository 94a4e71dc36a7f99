use wordle::text::{chars_of, parse_count, parse_dictionary, parse_entry};

fn v(s: &str) -> Vec<char> {
    s.chars().collect()
}

#[test]
fn count_reads_decimal_digits() {
    assert_eq!(parse_count(&v("0")), Some(0));
    assert_eq!(parse_count(&v("1234")), Some(1234));
    assert_eq!(parse_count(&v("+7")), Some(7));
    assert_eq!(parse_count(&v("")), None);
    assert_eq!(parse_count(&v("+")), None);
    assert_eq!(parse_count(&v("-1")), None);
    assert_eq!(parse_count(&v("12a")), None);
    assert_eq!(parse_count(&v(" 1")), None);
}

#[test]
fn count_bounds() {
    let max = usize::MAX.to_string();
    assert_eq!(parse_count(&v(&max)), Some(usize::MAX));
    let over = format!("{}0", max);
    assert_eq!(parse_count(&v(&over)), None);
}

#[test]
fn entry_splits_at_first_space() {
    assert_eq!(parse_entry(&v("crane 42")), Some((v("crane"), 42)));
    assert_eq!(parse_entry(&v("a b 1")), None);
    assert_eq!(parse_entry(&v(" 1")), Some((v(""), 1)));
    assert_eq!(parse_entry(&v("crane")), None);
    assert_eq!(parse_entry(&v("crane ")), None);
}

#[test]
fn dictionary_lines() {
    let d = parse_dictionary("crane 42\r\nslate 7\nzz 1").unwrap();
    assert_eq!(d, vec![(v("crane"), 42), (v("slate"), 7), (v("zz"), 1)]);
    assert_eq!(parse_dictionary("").unwrap(), vec![]);
    assert_eq!(parse_dictionary("a 1\n").unwrap(), vec![(v("a"), 1)]);
    assert!(parse_dictionary("a 1\n\n").is_none());
    assert!(parse_dictionary("a 1\r").is_none());
    assert!(parse_dictionary("a 1\nb\n").is_none());
}

#[test]
fn chars_in_order() {
    assert_eq!(chars_of("héllo"), vec!['h', 'é', 'l', 'l', 'o']);
    assert_eq!(chars_of(""), Vec::<char>::new());
}
