use laser_lockdown::text::{from_chars, parse_u64, split_lines, to_chars, write_decimal};

fn lines(s: &str) -> Vec<String> {
    split_lines(&to_chars(s)).iter().map(|l| from_chars(l)).collect()
}

#[test]
fn texts_and_characters() {
    assert_eq!(to_chars("aé→"), vec!['a', 'é', '→']);
    assert_eq!(from_chars(&['a', 'é', '→']), "aé→");
    assert_eq!(from_chars(&[]), "");
}

#[test]
fn lines_are_split_as_in_std() {
    for s in [
        "", "\n", "a", "a\n", "a\nb", "a\r\nb\r\n", "a\r", "\r\n", "\n\n", "a\r\r\nb", "x\ry\n",
    ] {
        let expected: Vec<String> = s.lines().map(|l| l.to_string()).collect();
        assert_eq!(lines(s), expected, "{:?}", s);
    }
}

#[test]
fn numbers_are_written_as_in_std() {
    for n in [0, 9, 10, 99, 100, 12345, u64::MAX] {
        assert_eq!(from_chars(&write_decimal(n)), n.to_string());
    }
}

#[test]
fn numbers_are_read_as_in_std() {
    for s in [
        "", "+", "-", "0", "00", "7", "+7", "-7", "++7", "12a", " 1", "1 ", "٣",
        "18446744073709551615", "18446744073709551616", "99999999999999999999999",
        "0000000000000000000000000001",
    ] {
        assert_eq!(parse_u64(&to_chars(s)), s.parse::<u64>().ok(), "{:?}", s);
    }
}
