//! Polyalphabetic substitution: the Vigenère and Beaufort inverses.
use vstd::prelude::*;
use crate::text::{is_letter, is_lower, letter_index, chars_of, string_of};

verus! {

/// The letter `a` or `A` that heads the case of `c`.
pub open spec fn case_base(c: char) -> int {
    if is_lower(c) { 97 } else { 65 }
}

/// `c` moved `k` places forward in its own case's alphabet, wrapping
/// around; a character that is not an ASCII letter stays as it is.
pub open spec fn rotate(c: char, k: int) -> char {
    if is_letter(c) {
        (case_base(c) + (letter_index(c) + k) % 26) as char
    } else {
        c
    }
}

/// The Beaufort map for one character and shift `k`: the letter at
/// `k - index(c)` in the same case; other characters stay as they are.
pub open spec fn reflect(c: char, k: int) -> char {
    if is_letter(c) {
        (case_base(c) + (k - letter_index(c)) % 26) as char
    } else {
        c
    }
}

/// Whether each shift of a key lies in `[0, 26)`.
pub open spec fn valid_shifts(shifts: Seq<usize>) -> bool {
    forall|i: int| 0 <= i < shifts.len() ==> #[trigger] shifts[i] < 26
}

/// Vigenère encryption: position `i` moves forward by `shifts[i mod P]`.
pub open spec fn vigenere_cipher(plain: Seq<char>, shifts: Seq<usize>) -> Seq<char> {
    Seq::new(plain.len(), |i: int| rotate(plain[i], shifts[i % shifts.len() as int] as int))
}

/// Vigenère decryption: position `i` moves back by `shifts[i mod P]`.
pub open spec fn vigenere_plain(cipher: Seq<char>, shifts: Seq<usize>) -> Seq<char> {
    Seq::new(cipher.len(), |i: int| rotate(cipher[i], -(shifts[i % shifts.len() as int] as int)))
}

/// The Beaufort map with key `shifts`; it both encrypts and decrypts.
pub open spec fn beaufort_map(t: Seq<char>, shifts: Seq<usize>) -> Seq<char> {
    Seq::new(t.len(), |i: int| reflect(t[i], shifts[i % shifts.len() as int] as int))
}

proof fn lemma_letter_bounds(c: char)
    requires
        is_letter(c),
    ensures
        0 <= letter_index(c) < 26,
        c as u32 == case_base(c) + letter_index(c),
{
}

proof fn lemma_rotate_letter(c: char, k: int)
    requires
        is_letter(c),
    ensures
        is_letter(rotate(c, k)),
        is_lower(rotate(c, k)) == is_lower(c),
        letter_index(rotate(c, k)) == (letter_index(c) + k) % 26,
{
    let v = case_base(c) + (letter_index(c) + k) % 26;
    assert(0 <= (letter_index(c) + k) % 26 < 26);
    assert(rotate(c, k) as u32 == v);
}

proof fn lemma_reflect_letter(c: char, k: int)
    requires
        is_letter(c),
    ensures
        is_letter(reflect(c, k)),
        is_lower(reflect(c, k)) == is_lower(c),
        letter_index(reflect(c, k)) == (k - letter_index(c)) % 26,
{
    let v = case_base(c) + (k - letter_index(c)) % 26;
    assert(0 <= (k - letter_index(c)) % 26 < 26);
    assert(reflect(c, k) as u32 == v);
}

/// Moving a character forward by `k` and back by `k` gives it back.
proof fn lemma_rotate_back(c: char, k: int)
    ensures
        rotate(rotate(c, k), -k) == c,
{
    if is_letter(c) {
        lemma_rotate_letter(c, k);
        lemma_rotate_letter(rotate(c, k), -k);
        let a = letter_index(c);
        assert(((a + k) % 26 - k) % 26 == a) by {
            vstd::arithmetic::div_mod::lemma_add_mod_noop(a + k, -k, 26);
            vstd::arithmetic::div_mod::lemma_small_mod(a as nat, 26);
        }
        lemma_letter_bounds(c);
        lemma_letter_bounds(rotate(rotate(c, k), -k));
    }
}

/// The Beaufort map applied twice with the same shift gives the character back.
proof fn lemma_reflect_twice(c: char, k: int)
    ensures
        reflect(reflect(c, k), k) == c,
{
    if is_letter(c) {
        lemma_reflect_letter(c, k);
        lemma_reflect_letter(reflect(c, k), k);
        let a = letter_index(c);
        assert((k - (k - a) % 26) % 26 == a) by {
            vstd::arithmetic::div_mod::lemma_sub_mod_noop(k, k - a, 26);
            vstd::arithmetic::div_mod::lemma_small_mod(a as nat, 26);
        }
        lemma_letter_bounds(c);
        lemma_letter_bounds(reflect(reflect(c, k), k));
    }
}

/// Vigenère decryption undoes Vigenère encryption with the same shifts,
/// and neither direction touches a character that is not an ASCII letter.
pub proof fn lemma_vigenere_round_trip(plain: Seq<char>, shifts: Seq<usize>)
    requires
        shifts.len() > 0,
        valid_shifts(shifts),
    ensures
        vigenere_plain(vigenere_cipher(plain, shifts), shifts) == plain,
        forall|i: int|
            0 <= i < plain.len() && !is_letter(plain[i]) ==> #[trigger] vigenere_cipher(plain, shifts)[i]
                == plain[i] && vigenere_plain(plain, shifts)[i] == plain[i],
{
    let c = vigenere_cipher(plain, shifts);
    assert forall|i: int| 0 <= i < plain.len() implies #[trigger] vigenere_plain(c, shifts)[i] == plain[i] by {
        lemma_rotate_back(plain[i], shifts[i % shifts.len() as int] as int);
    }
    assert(vigenere_plain(c, shifts) =~= plain);
}

/// The Beaufort map is its own inverse: decrypting a Beaufort encryption
/// with the same shifts gives the text back, and characters that are not
/// ASCII letters pass through unchanged.
pub proof fn lemma_beaufort_round_trip(plain: Seq<char>, shifts: Seq<usize>)
    requires
        shifts.len() > 0,
        valid_shifts(shifts),
    ensures
        beaufort_map(beaufort_map(plain, shifts), shifts) == plain,
        forall|i: int|
            0 <= i < plain.len() && !is_letter(plain[i]) ==> #[trigger] beaufort_map(plain, shifts)[i]
                == plain[i],
{
    let c = beaufort_map(plain, shifts);
    assert forall|i: int| 0 <= i < plain.len() implies #[trigger] beaufort_map(c, shifts)[i] == plain[i] by {
        lemma_reflect_twice(plain[i], shifts[i % shifts.len() as int] as int);
    }
    assert(beaufort_map(c, shifts) =~= plain);
}

/// The two polyalphabetic families.
pub enum Substitution {
    Vigenere,
    Beaufort,
}

/// The plaintext that `family` with key `shifts` gives for `cipher`.
pub open spec fn substitution_plain(family: Substitution, cipher: Seq<char>, shifts: Seq<usize>) -> Seq<char> {
    match family {
        Substitution::Vigenere => vigenere_plain(cipher, shifts),
        Substitution::Beaufort => beaufort_map(cipher, shifts),
    }
}

/// Decrypts one character with one shift.
fn decrypt_char(family: &Substitution, c: char, shift: usize) -> (r: char)
    requires
        shift < 26,
    ensures
        r == (match family {
            Substitution::Vigenere => rotate(c, -(shift as int)),
            Substitution::Beaufort => reflect(c, shift as int),
        }),
{
    let lower = 'a' <= c && c <= 'z';
    let upper = 'A' <= c && c <= 'Z';
    if !lower && !upper {
        return c;
    }
    let base: u8 = if lower { 97 } else { 65 };
    let x: u8 = c as u8 - base;
    let k: u8 = shift as u8;
    proof {
        lemma_letter_bounds(c);
        assert(x == letter_index(c));
    }
    match family {
        Substitution::Vigenere => {
            let v: u8 = (x + 26 - k) % 26;
            assert(v == (letter_index(c) - shift) % 26) by {
                vstd::arithmetic::div_mod::lemma_add_mod_noop(x - k, 26, 26);
                vstd::arithmetic::div_mod::lemma_mod_self_0(26);
            }
            (v + base) as char
        },
        Substitution::Beaufort => {
            let v: u8 = (k + 26 - x) % 26;
            assert(v == (shift - letter_index(c)) % 26) by {
                vstd::arithmetic::div_mod::lemma_add_mod_noop(k - x, 26, 26);
                vstd::arithmetic::div_mod::lemma_mod_self_0(26);
            }
            (v + base) as char
        },
    }
}

/// Decrypts `cipher` under `family` with key `shifts`: the ASCII letter at
/// index `i` is mapped with `shifts[i mod P]` in its own case; every other
/// character stays in place and still counts toward the index.
pub fn decrypt_substitution(family: &Substitution, cipher: &Vec<char>, shifts: &Vec<usize>) -> (r: Vec<char>)
    requires
        shifts.len() > 0,
        valid_shifts(shifts@),
    ensures
        r@ == substitution_plain(*family, cipher@, shifts@),
{
    let p = shifts.len();
    let mut r: Vec<char> = Vec::new();
    for i in 0..cipher.len()
        invariant
            p == shifts.len(),
            p > 0,
            valid_shifts(shifts@),
            r@ == substitution_plain(*family, cipher@, shifts@).take(i as int),
    {
        let c = decrypt_char(family, cipher[i], shifts[i % p]);
        r.push(c);
        assert(r@ =~= substitution_plain(*family, cipher@, shifts@).take(i + 1));
    }
    assert(r@ =~= substitution_plain(*family, cipher@, shifts@));
    r
}

/// Vigenère decryption of a string with key `shifts`.
pub fn vigenere_inv(text: &str, shifts: &Vec<usize>) -> (r: String)
    requires
        shifts.len() > 0,
        valid_shifts(shifts@),
    ensures
        r@ == vigenere_plain(text@, shifts@),
{
    let chars = chars_of(text);
    string_of(&decrypt_substitution(&Substitution::Vigenere, &chars, shifts))
}

/// Beaufort decryption of a string with key `shifts`.
pub fn beaufort_inv(text: &str, shifts: &Vec<usize>) -> (r: String)
    requires
        shifts.len() > 0,
        valid_shifts(shifts@),
    ensures
        r@ == beaufort_map(text@, shifts@),
{
    let chars = chars_of(text);
    string_of(&decrypt_substitution(&Substitution::Beaufort, &chars, shifts))
}

} // verus!
