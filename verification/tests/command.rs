use rail_fence::{mode_for, parse_depth, report, run, CipherError, CipherMode};

#[test]
fn depth_is_read_as_decimal() {
    assert_eq!(parse_depth("3"), Ok(3));
    assert_eq!(parse_depth("0"), Ok(0));
    assert_eq!(parse_depth("42"), Ok(42));
    assert_eq!(parse_depth("007"), Ok(7));
    assert_eq!(parse_depth("1234567890"), Ok(1234567890));
}

#[test]
fn depth_may_carry_a_plus_sign() {
    assert_eq!(parse_depth("+4"), Ok(4));
    assert_eq!(parse_depth("+0"), Ok(0));
    assert_eq!(parse_depth("++4"), Err(CipherError::ParameterFormat));
    assert_eq!(parse_depth("4+"), Err(CipherError::ParameterFormat));
}

#[test]
fn depth_without_digits_is_refused() {
    assert_eq!(parse_depth(""), Err(CipherError::ParameterFormat));
    assert_eq!(parse_depth("+"), Err(CipherError::ParameterFormat));
    assert_eq!(parse_depth("-"), Err(CipherError::ParameterFormat));
}

#[test]
fn depth_with_other_characters_is_refused() {
    assert_eq!(parse_depth("three"), Err(CipherError::ParameterFormat));
    assert_eq!(parse_depth("-3"), Err(CipherError::ParameterFormat));
    assert_eq!(parse_depth(" 3"), Err(CipherError::ParameterFormat));
    assert_eq!(parse_depth("3 "), Err(CipherError::ParameterFormat));
    assert_eq!(parse_depth("3.0"), Err(CipherError::ParameterFormat));
    assert_eq!(parse_depth("1_000"), Err(CipherError::ParameterFormat));
    assert_eq!(parse_depth("0x10"), Err(CipherError::ParameterFormat));
    assert_eq!(parse_depth("\u{663}"), Err(CipherError::ParameterFormat));
    assert_eq!(parse_depth("/"), Err(CipherError::ParameterFormat));
    assert_eq!(parse_depth(":"), Err(CipherError::ParameterFormat));
}

#[test]
fn depth_reaches_the_largest_word_and_no_further() {
    let largest = usize::MAX.to_string();
    assert_eq!(parse_depth(&largest), Ok(usize::MAX));
    let mut beyond = largest.clone();
    beyond.push('0');
    assert_eq!(parse_depth(&beyond), Err(CipherError::ParameterFormat));
    // One more than the largest word: the last digit of a power of two less
    // one is never 9, so raising it by one keeps the length.
    let mut next = largest.clone();
    let last = next.pop().unwrap();
    next.push(char::from_digit(last.to_digit(10).unwrap() + 1, 10).unwrap());
    assert_eq!(parse_depth(&next), Err(CipherError::ParameterFormat));
    assert_eq!(
        parse_depth("99999999999999999999999999999999999999999999"),
        Err(CipherError::ParameterFormat)
    );
}

#[test]
fn depth_agrees_with_the_standard_parser() {
    let samples = ["", "+", "1", "+1", "-1", "01", "1a", "a1", "18446744073709551615",
        "18446744073709551616", "4294967295", "4294967296", " 1", "1\n"];
    for sample in samples {
        let expected = sample.parse::<usize>().map_err(|_| CipherError::ParameterFormat);
        assert_eq!(parse_depth(sample), expected);
    }
}

#[test]
fn flag_selects_the_mode() {
    assert_eq!(mode_for(false), CipherMode::Encrypt);
    assert_eq!(mode_for(true), CipherMode::Decrypt);
}

#[test]
fn report_names_the_mode() {
    assert_eq!(report(CipherMode::Encrypt, "HOELL"), "Encrypted Text: HOELL");
    assert_eq!(report(CipherMode::Decrypt, "HELLO"), "Decrypted Text: HELLO");
    assert_eq!(report(CipherMode::Encrypt, ""), "Encrypted Text: ");
}

#[test]
fn run_encrypts_by_default() {
    assert_eq!(run("3", "HELLO", false), Ok(String::from("Encrypted Text: HOELL")));
    assert_eq!(
        run("4", "RAILFENCEISTHEBEST", false),
        Ok(String::from("Encrypted Text: RNHAECTETIFESBSLIE"))
    );
}

#[test]
fn run_decrypts_on_request() {
    assert_eq!(run("3", "HOELL", true), Ok(String::from("Decrypted Text: HELLO")));
    assert_eq!(
        run("4", "RNHAECTETIFESBSLIE", true),
        Ok(String::from("Decrypted Text: RAILFENCEISTHEBEST"))
    );
}

#[test]
fn run_refuses_a_depth_it_cannot_read() {
    assert_eq!(run("deep", "HELLO", false), Err(CipherError::ParameterFormat));
    assert_eq!(run("", "HELLO", true), Err(CipherError::ParameterFormat));
}

#[test]
fn run_refuses_a_fence_without_rails() {
    assert_eq!(run("0", "HELLO", false), Err(CipherError::InvalidParameter));
    assert_eq!(run("0", "HELLO", true), Err(CipherError::InvalidParameter));
    assert_eq!(run("+0", "", false), Err(CipherError::InvalidParameter));
}
