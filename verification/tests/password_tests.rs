use shuttlings_cch23::nice::{nice_check, password_game};

#[test]
fn nice_strings_are_recognised() {
    assert!(nice_check("aaa"));
    assert!(nice_check("ugknbfddgicrmopn"));
    // The check runs on the lowercased text.
    assert!(nice_check("AAA"));
}

#[test]
fn naughty_strings_are_recognised() {
    // No doubled letter.
    assert!(!nice_check("jchzalrnumimnmhp"));
    // A forbidden pair.
    assert!(!nice_check("haegwjzuvuyypxyu"));
    // Not enough vowels.
    assert!(!nice_check("dvszwmarrgswjxmb"));
}

fn game(input: &str) -> (u16, String, Option<String>) {
    let (status, verdict) = password_game(input);
    (status, verdict.result, verdict.reason)
}

#[test]
fn password_game_walks_the_rules() {
    assert_eq!(
        game("abc"),
        (400, "naughty".to_string(), Some("8 chars".to_string()))
    );
    assert_eq!(
        game("abcdefgh"),
        (400, "naughty".to_string(), Some("more types of chars".to_string()))
    );
    assert_eq!(
        game("Abcdefg1"),
        (400, "naughty".to_string(), Some("55555".to_string()))
    );
    assert_eq!(
        game("A 11111 bc"),
        (400, "naughty".to_string(), Some("math is hard".to_string()))
    );
    assert_eq!(
        game("Aa 2023 0 bc"),
        (406, "naughty".to_string(), Some("not joyful enough".to_string()))
    );
    assert_eq!(
        game("Aa 2023 0 joy"),
        (451, "naughty".to_string(), Some("illegal: no sandwich".to_string()))
    );
    assert_eq!(
        game("Aa 2023 0 joy aba"),
        (416, "naughty".to_string(), Some("outranged".to_string()))
    );
    assert_eq!(
        game("Aa 2023 0 joy aba \u{2980}"),
        (426, "naughty".to_string(), Some("\u{1f633}".to_string()))
    );
    assert_eq!(
        game("Aa 2023 0 joy aba \u{2980} \u{1f633}"),
        (418, "naughty".to_string(), Some("not a coffee brewer".to_string()))
    );
    assert_eq!(
        game("Aa 2023 0 joy aba \u{2980} \u{1f633} ax"),
        (200, "nice".to_string(), Some("that's a nice password".to_string()))
    );
}

#[test]
fn joy_must_come_in_order() {
    assert_eq!(game("Ay 2023 0 joy").0, 406);
    assert_eq!(game("Ao 2023 0 joy").0, 406);
}
