use deck_playtime::procfs::{find, get_app_id, get_children, is_named, parse_number};

#[test]
fn parse_number_reads_decimal_digits() {
    assert_eq!(parse_number(b"0"), Some(0));
    assert_eq!(parse_number(b"123"), Some(123));
    assert_eq!(parse_number(b"007"), Some(7));
    assert_eq!(parse_number(b"+7"), Some(7));
    assert_eq!(parse_number(b"4294967295"), Some(u32::MAX));
    assert_eq!(parse_number(b"+0004294967295"), Some(u32::MAX));
}

#[test]
fn parse_number_rejects_everything_else() {
    assert_eq!(parse_number(b""), None);
    assert_eq!(parse_number(b"+"), None);
    assert_eq!(parse_number(b"-1"), None);
    assert_eq!(parse_number(b"++1"), None);
    assert_eq!(parse_number(b"1+"), None);
    assert_eq!(parse_number(b"12a"), None);
    assert_eq!(parse_number(b" 12"), None);
    assert_eq!(parse_number(b"12 "), None);
    assert_eq!(parse_number(b"4294967296"), None);
    assert_eq!(parse_number(b"99999999999999999999999999"), None);
    assert_eq!(parse_number(b"4294967296x"), None);
    assert_eq!(parse_number(b"1\0"), None);
}

#[test]
fn parse_number_agrees_with_the_standard_parser() {
    let words = [
        "", "+", "-", "0", "+0", "-0", "1", "42", "0042", "4294967294", "4294967295",
        "4294967296", "42949672950", "18446744073709551616", "1e3", "0x10", "1_000", "12 ", "٣",
    ];
    for word in words {
        assert_eq!(parse_number(word.as_bytes()), word.parse::<u32>().ok(), "{word:?}");
    }
}

#[test]
fn find_gives_the_first_occurrence() {
    assert_eq!(find(b"abcabc", b"bc"), Some(1));
    assert_eq!(find(b"abcabc", b"abc"), Some(0));
    assert_eq!(find(b"aaab", b"ab"), Some(2));
    assert_eq!(find(b"abc", b"c"), Some(2));
    assert_eq!(find(b"abc", b"d"), None);
    assert_eq!(find(b"ab", b"abc"), None);
    assert_eq!(find(b"", b"a"), None);
    assert_eq!(find(b"abc", b""), Some(0));
    assert_eq!(find(b"", b""), Some(0));
}

#[test]
fn app_id_is_read_from_a_command_line() {
    let cmdline = b"/home/deck/reaper\0SteamLaunch\0AppId=440\0--\0/game\0";
    assert_eq!(get_app_id(cmdline), Some(440));
    assert_eq!(get_app_id(b"AppId=0\0"), Some(0));
    assert_eq!(get_app_id(b"xAppId=+12\0AppId=13\0"), Some(12));
}

#[test]
fn app_id_needs_key_number_and_end() {
    assert_eq!(get_app_id(b""), None);
    assert_eq!(get_app_id(b"/bin/sh\0-c\0true\0"), None);
    assert_eq!(get_app_id(b"SteamLaunch\0AppId=440"), None);
    assert_eq!(get_app_id(b"SteamLaunch\0AppId=\0"), None);
    assert_eq!(get_app_id(b"SteamLaunch\0AppId=abc\0"), None);
    assert_eq!(get_app_id(b"SteamLaunch\0appid=440\0"), None);
    assert_eq!(get_app_id(b"AppId=4294967296\0"), None);
    // the first key decides
    assert_eq!(get_app_id(b"AppId=x\0AppId=5\0"), None);
}

#[test]
fn children_are_the_numbers_among_the_words() {
    assert_eq!(get_children(b"12 34\n56\t x 78 "), vec![12, 34, 56, 78]);
    assert_eq!(get_children(b"4242"), vec![4242]);
    assert_eq!(get_children(b"  1  "), vec![1]);
    assert_eq!(get_children(b"1\r\n2\x0c3"), vec![1, 2, 3]);
    assert_eq!(get_children(b"1\x0b2"), Vec::<u32>::new());
    assert_eq!(get_children(b""), Vec::<u32>::new());
    assert_eq!(get_children(b" \n\t"), Vec::<u32>::new());
    assert_eq!(get_children(b"4294967296 7 -3 +5"), vec![7, 5]);
}

#[test]
fn children_agree_with_the_standard_splitter() {
    let texts = [
        "", " ", "1", "1 2 3", "10\n20\n", "\t7\t", "a 1 b 2", "1\u{b}2 3", "99999999999 4",
        "  12   13  ", "3\r\n4",
    ];
    for text in texts {
        let expected: Vec<u32> =
            text.split_ascii_whitespace().filter_map(|word| word.parse().ok()).collect();
        assert_eq!(get_children(text.as_bytes()), expected, "{text:?}");
    }
}

#[test]
fn process_name_is_the_comm_line_without_its_end() {
    assert!(is_named(b"steam\n", b"steam"));
    assert!(!is_named(b"steamwebhelper\n", b"steam"));
    assert!(!is_named(b"stea\n", b"steam"));
    assert!(!is_named(b"Steam\n", b"steam"));
    assert!(is_named(b"\n", b""));
    // the last byte goes, whatever it is
    assert!(is_named(b"steam", b"stea"));
    assert!(!is_named(b"steam", b"steam"));
}
