use cssbox::text::{parse_i32, parse_u32};

fn chars(s: &str) -> Vec<char> {
    s.chars().collect()
}

#[test]
fn integers_parse_like_from_str() {
    for s in ["0", "42", "+42", "4294967295", "", "+", "-1", "4294967296", "1a", " 1"] {
        assert_eq!(parse_u32(&chars(s)), s.parse::<u32>().ok(), "u32 {:?}", s);
    }
    for s in ["0", "-0", "-2147483648", "2147483647", "2147483648", "-2147483649", "+5", "-", "--1", "12 "] {
        assert_eq!(parse_i32(&chars(s)), s.parse::<i32>().ok(), "i32 {:?}", s);
    }
}
