use cipher_decrypter::coincidence::{estimate_period, index_of_coincidence};
use cipher_decrypter::factors::compute_factors;
use cipher_decrypter::keyspace::{cartesian_keys, class_histogram, top_letters};
use cipher_decrypter::score::{count_matches, english_score, folded_score};
use cipher_decrypter::text::chars_of;
use cipher_decrypter::topk::{Candidate, TopK};

fn cand(score: u128, tag: usize) -> Candidate {
    Candidate { key: vec![tag], text: String::new(), score }
}

#[test]
fn score_of_the() {
    // trigram 100, bigrams 100 + 90, words 300 + 90, letters 90 + 55 + 100
    assert_eq!(english_score("the"), 925);
}

#[test]
fn score_folds_case() {
    assert_eq!(english_score("THE"), 925);
    assert_eq!(folded_score(&chars_of("THE")), 0);
    assert_eq!(english_score(""), 0);
    assert_eq!(english_score("the quick"), 1135);
}

#[test]
fn matches_do_not_overlap() {
    assert_eq!(count_matches(&chars_of("aaaa"), &chars_of("aa")), 2);
    assert_eq!(count_matches(&chars_of("aaa"), &chars_of("aa")), 1);
    assert_eq!(count_matches(&chars_of("abc"), &chars_of("")), 0);
    assert_eq!(count_matches(&chars_of("thethe"), &chars_of("the")), 2);
}

#[test]
fn top_k_keeps_best() {
    let mut top = TopK::new(3);
    for (i, s) in [5u128, 1, 9, 7, 3, 9].iter().enumerate() {
        top.insert(cand(*s, i));
        assert_eq!(top.len(), (i + 1).min(3));
    }
    let best = top.extract_ranked();
    let scores: Vec<u128> = best.iter().map(|c| c.score).collect();
    assert_eq!(scores, vec![9, 9, 7]);
    // equal scores keep the earlier insertion first
    assert_eq!(best[0].key, vec![2]);
    assert_eq!(best[1].key, vec![5]);
}

#[test]
fn top_k_absorb() {
    let mut a = TopK::new(2);
    a.insert(cand(4, 0));
    let mut b = TopK::new(2);
    b.insert(cand(6, 1));
    b.insert(cand(2, 2));
    a.absorb(b);
    let scores: Vec<u128> = a.extract_ranked().iter().map(|c| c.score).collect();
    assert_eq!(scores, vec![6, 4]);
}

#[test]
fn factors_of_lengths() {
    assert_eq!(compute_factors(12), vec![1, 2, 3, 4, 6, 12]);
    assert_eq!(compute_factors(16), vec![1, 2, 4, 8, 16]);
    assert_eq!(compute_factors(7), vec![1, 7]);
    assert_eq!(compute_factors(1), vec![1]);
    assert_eq!(compute_factors(0), vec![1]);
}

#[test]
fn coincidence_of_small_texts() {
    assert_eq!(index_of_coincidence("aabb", 1), vec![333333]);
    assert_eq!(index_of_coincidence("aabb", 2), vec![0, 0]);
    assert_eq!(index_of_coincidence("aaaa", 1), vec![1000000]);
    // a class with one letter counts zero
    assert_eq!(index_of_coincidence("AbA", 2), vec![1000000, 0]);
}

#[test]
fn period_report_ranking() {
    let report = estimate_period("aabb", 2);
    assert_eq!(report.len(), 2);
    assert_eq!(report[0].period, 2);
    assert_eq!(report[0].distance, 66000);
    assert_eq!(report[1].period, 1);
    assert_eq!(report[1].average, 333333);
    assert_eq!(report[1].distance, 267333);
    assert!(estimate_period("abc", 0).is_empty());
}

#[test]
fn period_five_vigenere_is_found() {
    let plain = "itwasthebestoftimesitwastheworstoftimesitwastheageofwisdomitwastheageoffoolishnessitwastheepochofbeliefitwastheepochofincredulityitwastheseasonoflightitwastheseasonofdarknessitwasthespringofhopeitwasthewinterofdespairwehadeverythingbeforeuswehadnothingbeforeuswewereallgoingdirecttoheaven";
    let plain = &plain[..260];
    let shifts = [11u8, 4, 12, 14, 13];
    let cipher: String = plain
        .chars()
        .enumerate()
        .map(|(i, c)| ((c as u8 - b'a' + shifts[i % 5]) % 26 + b'a') as char)
        .collect();
    let report = estimate_period(&cipher, 10);
    assert_eq!(report.len(), 10);
    assert!(report.windows(2).all(|w| w[0].distance <= w[1].distance));
    assert!(report[..2].iter().any(|e| e.period == 5 || e.period == 10));
}

#[test]
fn histogram_and_top_letters() {
    let t = chars_of("eEeTtA-a");
    let h = class_histogram(&t, 1, 0);
    assert_eq!(h[4], 3);
    assert_eq!(h[19], 2);
    assert_eq!(h[0], 2);
    assert_eq!(h.iter().sum::<usize>(), 7);
    // ties go to the earlier letter
    assert_eq!(top_letters(&h, 3), vec![4, 0, 19]);
    let h2 = class_histogram(&t, 2, 1);
    assert_eq!(h2[4], 1);
    assert_eq!(h2[19], 1);
    assert_eq!(h2[0], 2);
}

#[test]
fn key_product_order() {
    let keys = cartesian_keys(&vec![vec![1, 2], vec![7, 8, 9]]);
    assert_eq!(
        keys,
        vec![vec![1, 7], vec![1, 8], vec![1, 9], vec![2, 7], vec![2, 8], vec![2, 9]]
    );
}
