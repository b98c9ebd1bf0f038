use rail_fence::{
    decode, encode, next_rail, rail_fence_cipher, rail_lengths, transform, CipherError, CipherMode,
};

fn chars(text: &str) -> Vec<char> {
    text.chars().collect()
}

fn sorted(text: &str) -> Vec<char> {
    let mut all = chars(text);
    all.sort();
    all
}

#[test]
fn test_encrypt() {
    let plaintext: &'static str = "HELLO";
    let encrypted: String = rail_fence_cipher(plaintext, 3, CipherMode::Encrypt).unwrap();
    assert_eq!(encrypted, "HOELL");
}

#[test]
fn test_decrypt() {
    let encrypted: &'static str = "HOELL";
    let decrypted: String = rail_fence_cipher(encrypted, 3, CipherMode::Decrypt).unwrap();
    assert_eq!(decrypted, "HELLO");
}

#[test]
fn test_encrypt_with_depth_4() {
    let plaintext: &'static str = "RAILFENCEISTHEBEST";
    let encrypted: String = rail_fence_cipher(plaintext, 4, CipherMode::Encrypt).unwrap();
    assert_eq!(encrypted, "RNHAECTETIFESBSLIE");
}

#[test]
fn test_decrypt_with_depth_4() {
    let encrypted: &'static str = "RNHAECTETIFESBSLIE";
    let decrypted: String = rail_fence_cipher(encrypted, 4, CipherMode::Decrypt).unwrap();
    assert_eq!(decrypted, "RAILFENCEISTHEBEST");
}

#[test]
fn depth_one_leaves_text_unchanged() {
    assert_eq!(rail_fence_cipher("ANY", 1, CipherMode::Encrypt), Ok(String::from("ANY")));
    assert_eq!(rail_fence_cipher("ANY", 1, CipherMode::Decrypt), Ok(String::from("ANY")));
    assert_eq!(encode(&chars("zig-zag"), 1), Ok(chars("zig-zag")));
    assert_eq!(decode(&chars("zig-zag"), 1), Ok(chars("zig-zag")));
}

#[test]
fn depth_zero_is_rejected() {
    assert_eq!(rail_fence_cipher("HELLO", 0, CipherMode::Encrypt), Err(CipherError::InvalidParameter));
    assert_eq!(rail_fence_cipher("HELLO", 0, CipherMode::Decrypt), Err(CipherError::InvalidParameter));
    assert_eq!(rail_fence_cipher("", 0, CipherMode::Encrypt), Err(CipherError::InvalidParameter));
    assert_eq!(rail_fence_cipher("", 0, CipherMode::Decrypt), Err(CipherError::InvalidParameter));
    assert_eq!(encode(&chars("HELLO"), 0), Err(CipherError::InvalidParameter));
    assert_eq!(decode(&chars("HELLO"), 0), Err(CipherError::InvalidParameter));
    assert_eq!(transform(&chars("HELLO"), 0, CipherMode::Encrypt), Err(CipherError::InvalidParameter));
    assert_eq!(transform(&[], 0, CipherMode::Decrypt), Err(CipherError::InvalidParameter));
}

#[test]
fn empty_message_gives_empty_result() {
    assert_eq!(rail_fence_cipher("", 1, CipherMode::Encrypt), Ok(String::new()));
    assert_eq!(rail_fence_cipher("", 3, CipherMode::Encrypt), Ok(String::new()));
    assert_eq!(rail_fence_cipher("", 3, CipherMode::Decrypt), Ok(String::new()));
    assert_eq!(encode(&[], 5), Ok(Vec::new()));
    assert_eq!(decode(&[], 5), Ok(Vec::new()));
}

#[test]
fn depth_beyond_length_only_descends() {
    // The walk never turns back, so every character has a rail to itself.
    assert_eq!(rail_fence_cipher("HELLO", 5, CipherMode::Encrypt), Ok(String::from("HELLO")));
    assert_eq!(rail_fence_cipher("HELLO", 6, CipherMode::Encrypt), Ok(String::from("HELLO")));
    assert_eq!(rail_fence_cipher("HELLO", 1000, CipherMode::Encrypt), Ok(String::from("HELLO")));
    assert_eq!(rail_fence_cipher("HELLO", 1000, CipherMode::Decrypt), Ok(String::from("HELLO")));
    assert_eq!(
        rail_fence_cipher("HELLO", usize::MAX, CipherMode::Encrypt),
        Ok(String::from("HELLO"))
    );
    assert_eq!(
        rail_fence_cipher("HELLO", usize::MAX, CipherMode::Decrypt),
        Ok(String::from("HELLO"))
    );
}

#[test]
fn depth_one_below_length_turns_once() {
    // Rails: H | E | L | L O -> the last rail is visited once, the one above twice.
    assert_eq!(rail_fence_cipher("HELLO", 4, CipherMode::Encrypt), Ok(String::from("HELOL")));
    assert_eq!(rail_fence_cipher("HELOL", 4, CipherMode::Decrypt), Ok(String::from("HELLO")));
}

#[test]
fn two_rails_split_even_and_odd_positions() {
    assert_eq!(rail_fence_cipher("ABCDEFG", 2, CipherMode::Encrypt), Ok(String::from("ACEGBDF")));
    assert_eq!(rail_fence_cipher("ACEGBDF", 2, CipherMode::Decrypt), Ok(String::from("ABCDEFG")));
}

#[test]
fn classic_three_rail_example() {
    assert_eq!(
        rail_fence_cipher("WEAREDISCOVEREDFLEEATONCE", 3, CipherMode::Encrypt),
        Ok(String::from("WECRLTEERDSOEEFEAOCAIVDEN"))
    );
    assert_eq!(
        rail_fence_cipher("WECRLTEERDSOEEFEAOCAIVDEN", 3, CipherMode::Decrypt),
        Ok(String::from("WEAREDISCOVEREDFLEEATONCE"))
    );
}

#[test]
fn decode_undoes_encode() {
    let messages = ["A", "AB", "HELLO", "RAILFENCEISTHEBEST", "the quick brown fox", "a\u{e9}\u{4e16}\u{1f600}z!"];
    for message in messages {
        for depth in 1..12usize {
            let hidden = rail_fence_cipher(message, depth, CipherMode::Encrypt).unwrap();
            let shown = rail_fence_cipher(&hidden, depth, CipherMode::Decrypt).unwrap();
            assert_eq!(shown, message);
        }
    }
}

#[test]
fn encode_undoes_decode() {
    let texts = ["A", "AB", "HOELL", "RNHAECTETIFESBSLIE", "any text will do"];
    for text in texts {
        for depth in 1..12usize {
            let shown = rail_fence_cipher(text, depth, CipherMode::Decrypt).unwrap();
            let hidden = rail_fence_cipher(&shown, depth, CipherMode::Encrypt).unwrap();
            assert_eq!(hidden, text);
        }
    }
}

#[test]
fn result_is_an_anagram_of_the_same_length() {
    let message = "RAILFENCEISTHEBEST";
    for depth in 1..25usize {
        let hidden = rail_fence_cipher(message, depth, CipherMode::Encrypt).unwrap();
        assert_eq!(hidden.chars().count(), message.chars().count());
        assert_eq!(sorted(&hidden), sorted(message));
        let shown = rail_fence_cipher(message, depth, CipherMode::Decrypt).unwrap();
        assert_eq!(shown.chars().count(), message.chars().count());
        assert_eq!(sorted(&shown), sorted(message));
    }
}

#[test]
fn same_inputs_give_same_outputs() {
    let first = rail_fence_cipher("RAILFENCEISTHEBEST", 4, CipherMode::Encrypt);
    let second = rail_fence_cipher("RAILFENCEISTHEBEST", 4, CipherMode::Encrypt);
    assert_eq!(first, second);
    let first = transform(&chars("RNHAECTETIFESBSLIE"), 4, CipherMode::Decrypt);
    let second = transform(&chars("RNHAECTETIFESBSLIE"), 4, CipherMode::Decrypt);
    assert_eq!(first, second);
}

#[test]
fn characters_are_moved_whole() {
    // Positions are characters, not bytes: multi-byte characters stay intact.
    let hidden = rail_fence_cipher("a\u{e9}\u{4e16}\u{1f600}z", 3, CipherMode::Encrypt).unwrap();
    assert_eq!(hidden, "az\u{e9}\u{1f600}\u{4e16}");
    let shown = rail_fence_cipher(&hidden, 3, CipherMode::Decrypt).unwrap();
    assert_eq!(shown, "a\u{e9}\u{4e16}\u{1f600}z");
}

#[test]
fn transform_follows_the_mode() {
    assert_eq!(transform(&chars("HELLO"), 3, CipherMode::Encrypt), Ok(chars("HOELL")));
    assert_eq!(transform(&chars("HOELL"), 3, CipherMode::Decrypt), Ok(chars("HELLO")));
    assert_eq!(encode(&chars("HELLO"), 3), Ok(chars("HOELL")));
    assert_eq!(decode(&chars("HOELL"), 3), Ok(chars("HELLO")));
}

#[test]
fn walk_turns_at_both_ends() {
    let depth: usize = 4;
    let mut rail: usize = 0;
    let mut ascending = true;
    let mut seen = Vec::new();
    for _ in 0..10 {
        seen.push(rail);
        let next = next_rail(rail, ascending, depth);
        rail = next.0;
        ascending = next.1;
    }
    assert_eq!(seen, vec![0, 1, 2, 3, 2, 1, 0, 1, 2, 3]);
    assert_eq!(next_rail(0, false, 4), (1, true));
    assert_eq!(next_rail(3, true, 4), (2, false));
    assert_eq!(next_rail(2, true, 4), (3, true));
    assert_eq!(next_rail(2, false, 4), (1, false));
}

#[test]
fn walk_stays_put_on_a_single_rail() {
    assert_eq!(next_rail(0, true, 1), (0, true));
    assert_eq!(next_rail(0, false, 1), (0, true));
}

#[test]
fn rail_lengths_count_the_walk() {
    assert_eq!(rail_lengths(5, 3), vec![2, 2, 1]);
    assert_eq!(rail_lengths(18, 4), vec![3, 6, 6, 3]);
    assert_eq!(rail_lengths(7, 1), vec![7]);
    assert_eq!(rail_lengths(3, 10), vec![1, 1, 1]);
    assert_eq!(rail_lengths(0, 4), Vec::<usize>::new());
}
