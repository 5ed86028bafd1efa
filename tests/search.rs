use cipher_decrypter::search::{parse_setting, run_search, CipherType, Decrypter, SearchOutcome};
use cipher_decrypter::score::english_score;
use cipher_decrypter::transform::columnar_inv;

fn config(cipher_type: CipherType, max_key_length: usize, period: usize, check_all_periods: bool) -> Decrypter {
    Decrypter { cipher_type, max_key_length, period, check_all_periods, transpose: false }
}

#[test]
fn columnar_search_finds_key() {
    let text = "ttadrtehhgiefedmo";
    let outcome = run_search(text, &config(CipherType::Columnar, 3, 3, false));
    let SearchOutcome::Ranked(best) = outcome else { panic!("expected candidates") };
    assert_eq!(best.len(), 3);
    assert!(best.iter().any(|c| c.key == vec![2, 0, 1]));
    let found = best.iter().find(|c| c.key == vec![2, 0, 1]).unwrap();
    assert_eq!(found.text, columnar_inv(text, &vec![2, 0, 1], false));
    assert!(found.score > english_score(text));
    assert_eq!(found.score, 2025);
    assert!(best.windows(2).all(|w| w[0].score >= w[1].score));
    assert_eq!(best[0].score, 2055);
}

#[test]
fn columnar_search_keeps_fewer_when_fewer_keys() {
    // lengths 1 and 2 only: 1! + 2! = 3 keys, one length skipped for a
    // two-character text
    let outcome = run_search("ab", &config(CipherType::Columnar, 8, 3, false));
    let SearchOutcome::Ranked(best) = outcome else { panic!("expected candidates") };
    assert_eq!(best.len(), 3);
    let outcome = run_search("a", &config(CipherType::Columnar, 8, 3, false));
    let SearchOutcome::Ranked(best) = outcome else { panic!("expected candidates") };
    assert_eq!(best.len(), 1);
    assert_eq!(best[0].key, vec![0]);
}

#[test]
fn empty_text_gives_no_solution() {
    for t in [CipherType::Columnar, CipherType::Periodic, CipherType::Vigenere, CipherType::Beaufort] {
        assert!(matches!(run_search("", &config(t, 8, 3, false)), SearchOutcome::NoSolution));
    }
    assert!(matches!(run_search("", &config(CipherType::Periodic, 8, 2, true)), SearchOutcome::NoSolution));
}

#[test]
fn zero_period_gives_no_solution() {
    assert!(matches!(run_search("abc", &config(CipherType::Vigenere, 8, 0, false)), SearchOutcome::NoSolution));
    assert!(matches!(run_search("abc", &config(CipherType::Periodic, 8, 0, false)), SearchOutcome::NoSolution));
}

#[test]
fn period_longer_than_text_gives_no_solution() {
    assert!(matches!(run_search("abc", &config(CipherType::Periodic, 8, 4, false)), SearchOutcome::NoSolution));
}

#[test]
fn periodic_search_recovers_block_order() {
    // "thecatsat" with each block of three rotated
    let outcome = run_search("hetatcats", &config(CipherType::Periodic, 3, 3, false));
    let SearchOutcome::Ranked(best) = outcome else { panic!("expected candidates") };
    assert!(best.len() <= 3 && !best.is_empty());
    assert!(best.iter().all(|c| c.key.len() == 3));
    assert!(best.iter().any(|c| c.text == "thecatsat"));
}

#[test]
fn periodic_search_over_all_periods() {
    let outcome = run_search("hetatcats", &config(CipherType::Periodic, 3, 2, true));
    let SearchOutcome::Ranked(best) = outcome else { panic!("expected candidates") };
    assert_eq!(best.len(), 3);
    assert!(best.iter().all(|c| c.key.len() == 2 || c.key.len() == 3));
}

#[test]
fn vigenere_search_recovers_plaintext() {
    let plain = "thequickbrownfoxjumpsoverthelazydogandthenthedogsleepsinthesun";
    let shifts = [3usize, 7];
    let cipher: String = plain
        .chars()
        .enumerate()
        .map(|(i, c)| ((c as u8 - b'a' + shifts[i % 2] as u8) % 26 + b'a') as char)
        .collect();
    let outcome = run_search(&cipher, &config(CipherType::Vigenere, 8, 2, false));
    let SearchOutcome::Ranked(best) = outcome else { panic!("expected candidates") };
    assert_eq!(best.len(), 5);
    assert!(best.windows(2).all(|w| w[0].score >= w[1].score));
    assert!(best.iter().all(|c| c.key.len() == 2 && c.key.iter().all(|&s| s < 26)));
    assert_eq!(best[0].text, plain);
    assert_eq!(best[0].key, vec![3, 7]);
}

#[test]
fn beaufort_search_yields_ranked_candidates() {
    let outcome = run_search("Zyx wvu", &config(CipherType::Beaufort, 8, 3, false));
    let SearchOutcome::Ranked(best) = outcome else { panic!("expected candidates") };
    // two letters per class over three classes: eight keys, five kept
    assert_eq!(best.len(), 5);
    assert!(best.iter().all(|c| c.key.len() == 3 && c.text.chars().nth(3) == Some(' ')));
}

#[test]
fn settings_fall_back_to_default() {
    assert_eq!(parse_setting("8", 3), 8);
    assert_eq!(parse_setting("007", 3), 7);
    assert_eq!(parse_setting("+5", 3), 5);
    assert_eq!(parse_setting("", 3), 3);
    assert_eq!(parse_setting("+", 3), 3);
    assert_eq!(parse_setting("abc", 8), 8);
    assert_eq!(parse_setting("-1", 8), 8);
    assert_eq!(parse_setting(" 4", 8), 8);
    assert_eq!(parse_setting("18446744073709551615", 8), 18446744073709551615);
    assert_eq!(parse_setting("18446744073709551616", 8), 8);
    assert_eq!(parse_setting("99999999999999999999x", 8), 8);
}
