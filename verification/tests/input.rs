use tic_tac_toe::input::{read_entry, Entry};

/// The same decision, taken with the standard library's own text functions.
fn expected_entry(line: &str) -> Entry {
    let input = line.trim();
    if input.eq_ignore_ascii_case("quit") || input.eq_ignore_ascii_case("q") {
        return Entry::Quit;
    }
    let parts: Vec<&str> = input.split_whitespace().collect();
    if parts.len() != 2 {
        return Entry::NotTwoParts;
    }
    match (parts[0].parse::<usize>(), parts[1].parse::<usize>()) {
        (Ok(row), Ok(col)) => {
            if row < 3 && col < 3 {
                Entry::Move(row, col)
            } else {
                Entry::OutOfRange
            }
        }
        _ => Entry::NotNumbers,
    }
}

#[test]
fn test_entry_move() {
    assert_eq!(read_entry("1 2"), Entry::Move(1, 2));
    assert_eq!(read_entry("0 0\n"), Entry::Move(0, 0));
    assert_eq!(read_entry("  2\t \t1  \r\n"), Entry::Move(2, 1));
    assert_eq!(read_entry("+1 002"), Entry::Move(1, 2));
    assert_eq!(read_entry("1\u{3000}2"), Entry::Move(1, 2));
}

#[test]
fn test_entry_quit() {
    assert_eq!(read_entry("quit"), Entry::Quit);
    assert_eq!(read_entry("q"), Entry::Quit);
    assert_eq!(read_entry("  QuIt \n"), Entry::Quit);
    assert_eq!(read_entry("Q\n"), Entry::Quit);
    assert_eq!(read_entry("quit now"), Entry::NotNumbers);
    assert_eq!(read_entry("qu it"), Entry::NotNumbers);
    assert_eq!(read_entry("quits"), Entry::NotTwoParts);
}

#[test]
fn test_entry_not_two_parts() {
    assert_eq!(read_entry(""), Entry::NotTwoParts);
    assert_eq!(read_entry("   \n"), Entry::NotTwoParts);
    assert_eq!(read_entry("1"), Entry::NotTwoParts);
    assert_eq!(read_entry("1 2 3"), Entry::NotTwoParts);
    assert_eq!(read_entry("1,2"), Entry::NotTwoParts);
}

#[test]
fn test_entry_not_numbers() {
    assert_eq!(read_entry("a b"), Entry::NotNumbers);
    assert_eq!(read_entry("1 b"), Entry::NotNumbers);
    assert_eq!(read_entry("-1 2"), Entry::NotNumbers);
    assert_eq!(read_entry("+ 2"), Entry::NotNumbers);
    assert_eq!(read_entry("1.0 2"), Entry::NotNumbers);
    assert_eq!(read_entry("1 ٢"), Entry::NotNumbers);
    assert_eq!(read_entry("340282366920938463463374607431768211456 1"), Entry::NotNumbers);
}

#[test]
fn test_entry_out_of_range() {
    assert_eq!(read_entry("3 0"), Entry::OutOfRange);
    assert_eq!(read_entry("0 3"), Entry::OutOfRange);
    assert_eq!(read_entry("4294967295 1"), Entry::OutOfRange);
    assert_eq!(read_entry(&format!("{} {}", usize::MAX, usize::MAX)), Entry::OutOfRange);
}

#[test]
fn test_entry_agrees_with_standard_text_functions() {
    let words = [
        "", "0", "1", "2", "3", "+2", "++2", "-0", "00", "q", "Q", "quit", "QUIT", "qUiT", "x",
        "1a", "18446744073709551615", "18446744073709551616", "4294967295", "4294967296",
        "\u{212A}", "qu\u{131}t",
    ];
    let gaps =
        ["", " ", "\t", "\n", "\r\n", "\u{A0}", "\u{2003}", "\u{85}", "\u{200B}", "\u{180E}"];
    for first in words {
        for second in words {
            for gap in gaps {
                for pad in gaps {
                    let line = format!("{pad}{first}{gap}{second}{pad}");
                    assert_eq!(read_entry(&line), expected_entry(&line), "line {:?}", line);
                    let longer = format!("{line}{gap}{first}");
                    assert_eq!(read_entry(&longer), expected_entry(&longer), "line {:?}", longer);
                }
            }
        }
    }
}

#[test]
fn test_entry_tells_white_space_and_digits_for_every_character() {
    let mut code = 0u32;
    while code <= 0x10FFFF {
        if let Some(c) = char::from_u32(code) {
            let between = format!("1{c}2");
            assert_eq!(read_entry(&between), expected_entry(&between), "character {:?}", c);
            let alone = format!("{c} 0");
            assert_eq!(read_entry(&alone), expected_entry(&alone), "character {:?}", c);
        }
        code += 1;
    }
}
