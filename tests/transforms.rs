use cipher_decrypter::shift::{beaufort_inv, vigenere_inv};
use cipher_decrypter::transform::{columnar_inv, invert_key, periodic_inv};

fn columnar_encrypt(plain: &str, key: &[usize]) -> String {
    let chars: Vec<char> = plain.chars().collect();
    let cols = key.len();
    let mut order: Vec<usize> = (0..cols).collect();
    order.sort_by_key(|&c| key[c]);
    let mut out = String::new();
    for c in order {
        let mut j = c;
        while j < chars.len() {
            out.push(chars[j]);
            j += cols;
        }
    }
    out
}

fn periodic_encrypt(plain: &str, key: &[usize]) -> String {
    let chars: Vec<char> = plain.chars().collect();
    let p = key.len();
    let mut out: Vec<char> = Vec::new();
    for chunk in chars.chunks(p) {
        if chunk.len() == p {
            for i in 0..p {
                out.push(chunk[key[i]]);
            }
        } else {
            out.extend_from_slice(chunk);
        }
    }
    out.into_iter().collect()
}

fn vigenere_encrypt(plain: &str, shifts: &[usize]) -> String {
    plain
        .chars()
        .enumerate()
        .map(|(i, c)| {
            if c.is_ascii_alphabetic() {
                let base = if c.is_ascii_uppercase() { b'A' } else { b'a' };
                ((c as u8 - base + shifts[i % shifts.len()] as u8) % 26 + base) as char
            } else {
                c
            }
        })
        .collect()
}

#[test]
fn invert_key_inverts() {
    assert_eq!(invert_key(&vec![2, 0, 1]), vec![1, 2, 0]);
    assert_eq!(invert_key(&vec![0]), vec![0]);
}

#[test]
fn columnar_inverse_default_layout() {
    assert_eq!(columnar_inv("abcdefgh", &vec![1, 0], false), "eafbgchd");
    assert_eq!(columnar_inv("ttadrtehhgiefedmo", &vec![2, 0, 1], false), "eteftheahddgmriot");
}

#[test]
fn columnar_inverse_transposed_layout() {
    assert_eq!(columnar_inv("abcdefgh", &vec![1, 0], true), "efghabcd");
    assert_eq!(columnar_inv("abcdefg", &vec![2, 0, 1], true), "efgabcd");
    assert_eq!(columnar_inv("ttadrtehhgiefedmo", &vec![2, 0, 1], true), "efedmottadrtehhgi");
}

#[test]
fn columnar_key_as_long_as_text_permutes_characters() {
    assert_eq!(columnar_inv("cab", &vec![1, 2, 0], false), "abc");
}

#[test]
fn columnar_round_trip() {
    let plain = "wearediscoveredfleeatonce";
    for key in [vec![0usize], vec![1, 0], vec![2, 0, 1], vec![3, 1, 4, 0, 2]] {
        let cipher = columnar_encrypt(plain, &key);
        assert_eq!(columnar_inv(&cipher, &key, false), plain);
    }
}

fn columnar_encrypt_transposed(plain: &str, key: &[usize]) -> String {
    // the plaintext fills the columns one after another
    let chars: Vec<char> = plain.chars().collect();
    let cols = key.len();
    let rows = chars.len() / cols;
    let mut order: Vec<usize> = (0..cols).collect();
    order.sort_by_key(|&c| key[c]);
    order.iter().flat_map(|&c| chars[c * rows..(c + 1) * rows].to_vec()).collect()
}

#[test]
fn columnar_round_trip_transposed() {
    assert_eq!(columnar_encrypt_transposed("abcdefghijkl", &[2, 0, 1]), "efghijklabcd");
    assert_eq!(columnar_inv("efghijklabcd", &vec![2, 0, 1], true), "abcdefghijkl");
    let plain = "wearediscoveredfleeatoncex";
    for key in [vec![1usize, 0], vec![0, 1], vec![1, 0, 3, 2], vec![12, 0, 11, 1, 10, 2, 9, 3, 8, 4, 7, 5, 6]] {
        if plain.len() % key.len() == 0 {
            let cipher = columnar_encrypt_transposed(plain, &key);
            assert_eq!(columnar_inv(&cipher, &key, true), plain);
        }
    }
}

#[test]
fn periodic_inverse_and_tail() {
    assert_eq!(periodic_inv("abcdefgh", &vec![1, 2, 0]), "cabfdegh");
    assert_eq!(periodic_inv("", &vec![1, 0]), "");
}

#[test]
fn periodic_round_trip() {
    let plain = "attackatdawnattackatdusk";
    for key in [vec![1usize, 0], vec![2, 0, 1], vec![3, 0, 2, 1]] {
        let cipher = periodic_encrypt(plain, &key);
        assert_ne!(cipher, plain);
        assert_eq!(periodic_inv(&cipher, &key), plain);
    }
}

#[test]
fn vigenere_known_value() {
    assert_eq!(vigenere_inv("LXFOPVEFRNHR", &vec![11, 4, 12, 14, 13]), "ATTACKATDAWN");
}

#[test]
fn vigenere_round_trip_keeps_other_characters() {
    let plain = "Attack at dawn, 6 AM!";
    let shifts = vec![11, 4, 12, 14, 13];
    let cipher = vigenere_encrypt(plain, &shifts);
    assert_eq!(&cipher[..6], "Lxfopv");
    assert!(cipher.contains(", 6 "));
    assert!(cipher.ends_with('!'));
    assert_eq!(vigenere_inv(&cipher, &shifts), plain);
}

#[test]
fn beaufort_is_its_own_inverse() {
    let plain = "Defend the east wall!";
    let shifts = vec![5, 14, 17, 19, 8, 5, 24];
    let cipher = beaufort_inv(plain, &shifts);
    assert_ne!(cipher, plain);
    assert_eq!(beaufort_inv(&cipher, &shifts), plain);
    assert!(cipher.ends_with('!'));
    assert_eq!(cipher.chars().nth(6), Some(' '));
}

#[test]
fn beaufort_known_value() {
    // key minus letter: k(10) - a(0) = k, k(10) - b(1) = j
    assert_eq!(beaufort_inv("ab", &vec![10]), "kj");
    assert_eq!(beaufort_inv("AB", &vec![10]), "KJ");
}
