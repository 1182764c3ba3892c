use nikkadb::config::{
    builder_from_settings, char_is_space, config_is_valid, config_settings_of, parse_host,
    parse_u16, parse_u32, parse_u8, setting_value, settings_are_usable, split_chars, split_crlf,
    trim_chars,
};

fn chars(s: &str) -> Vec<char> {
    s.chars().collect()
}

fn text(cs: &[char]) -> String {
    cs.iter().collect()
}

fn pairs(list: &[(&str, &str)]) -> Vec<(String, String)> {
    list.iter().map(|(a, b)| (a.to_string(), b.to_string())).collect()
}

const SAMPLES: [&str; 9] = [
    "",
    "plain",
    "  padded\t",
    "\u{3000}\u{85} wide \u{2028}",
    "\u{200b}zero width\u{200b}",
    "a\r\nb\r\n",
    "\r\r\n\n\r\n",
    "x=y=z",
    "==",
];

#[test]
fn trim_agrees_with_str_trim() {
    for s in SAMPLES {
        assert_eq!(text(&trim_chars(&chars(s))), s.trim(), "{s:?}");
    }
}

#[test]
fn whitespace_agrees_with_char_is_whitespace() {
    for u in 0u32..0x3100 {
        if let Some(c) = char::from_u32(u) {
            assert_eq!(char_is_space(c), c.is_whitespace(), "{u:#x}");
        }
    }
}

#[test]
fn split_agrees_with_str_split() {
    for s in SAMPLES {
        let mine: Vec<String> = split_crlf(&chars(s)).iter().map(|p| text(p)).collect();
        let theirs: Vec<String> = s.split("\r\n").map(ToString::to_string).collect();
        assert_eq!(mine, theirs, "{s:?}");
        let mine: Vec<String> = split_chars(&chars(s), '=').iter().map(|p| text(p)).collect();
        let theirs: Vec<String> = s.split('=').map(ToString::to_string).collect();
        assert_eq!(mine, theirs, "{s:?}");
    }
}

#[test]
fn settings_file_is_read_line_by_line() {
    let content = "host = 10.0.0.2\r\n# a comment\r\nport=8080 # the port\r\n\r\nwal_name = w.nikka\r\nport = 9090";
    assert!(config_is_valid(content));
    let settings = config_settings_of(content);
    assert_eq!(
        settings,
        pairs(&[("host", "10.0.0.2"), ("port", "8080"), ("wal_name", "w.nikka"), ("port", "9090")])
    );
    assert_eq!(setting_value(&settings, "port"), Some(&"9090".to_string()));
    assert_eq!(setting_value(&settings, "backup_name"), None);

    assert!(settings_are_usable(&settings));
    let builder = builder_from_settings(&settings);
    assert_eq!(builder.host, Some((10, 0, 0, 2)));
    assert_eq!(builder.port, Some(9090));
    assert_eq!(builder.backup_operations_count, None);
    assert_eq!(builder.backup, None);
    assert_eq!(builder.wal, Some("w.nikka"));
    assert_eq!(builder.address(), ((10, 0, 0, 2), 9090));
    assert_eq!(builder.backup_counter(), 10000);
    assert_eq!(builder.backup_file(), "backup.nikka");
    assert_eq!(builder.wal_file(), "w.nikka");
}

#[test]
fn malformed_settings_lines_are_found() {
    assert!(!config_is_valid("a=b=c"));
    assert!(!config_is_valid("novalue"));
    assert!(!config_is_valid(" # not a comment"));
    assert!(!config_is_valid("a=1\nb=2"));
    assert!(config_is_valid("# only a comment\r\n"));
    assert!(config_is_valid("key="));
    assert_eq!(config_settings_of("key="), pairs(&[("key", "")]));
    assert_eq!(config_settings_of(""), pairs(&[]));
}

#[test]
fn unusable_values_are_found() {
    assert!(!settings_are_usable(&pairs(&[("host", "1.2.3")])));
    assert!(!settings_are_usable(&pairs(&[("port", "65536")])));
    assert!(!settings_are_usable(&pairs(&[("backup_operations_count", "-1")])));
    assert!(settings_are_usable(&pairs(&[("port", "x"), ("port", "1")])));
    let settings = pairs(&[("backup_operations_count", "+5"), ("backup_name", "b")]);
    let builder = builder_from_settings(&settings);
    assert_eq!(builder.backup_operations_count, Some(5));
    assert_eq!(builder.backup_file(), "b");
    assert_eq!(builder.address(), ((127, 0, 0, 1), 0));
}

#[test]
fn numbers_are_read_as_str_parse_reads_them() {
    for s in ["", "+", "-", "-1", "+7", "007", "255", "256", " 1", "1 ", "65535", "65536", "4294967295", "4294967296", "99999999999999999999", "12a"] {
        assert_eq!(parse_u8(s), s.parse::<u8>().ok(), "{s:?}");
        assert_eq!(parse_u16(s), s.parse::<u16>().ok(), "{s:?}");
        assert_eq!(parse_u32(s), s.parse::<u32>().ok(), "{s:?}");
    }
    assert_eq!(parse_u8("+12"), Some(12));
    assert_eq!(parse_u32("4294967295"), Some(u32::MAX));
}

#[test]
fn hosts_are_four_dotted_bytes() {
    assert_eq!(parse_host("127.0.0.1"), Some((127, 0, 0, 1)));
    assert_eq!(parse_host("255.255.255.255"), Some((255, 255, 255, 255)));
    assert_eq!(parse_host("1.2.3"), None);
    assert_eq!(parse_host("1.2.3.4.5"), None);
    assert_eq!(parse_host("1.2.3.256"), None);
    assert_eq!(parse_host("a.b.c.d"), None);
    assert_eq!(parse_host(""), None);
}
