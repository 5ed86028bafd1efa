//! English-likeness scoring from fixed n-gram, word and letter weights.
use vstd::prelude::*;
use crate::text::chars_of;

verus! {

/// Non-overlapping occurrences of `p` in `t`, scanning from the left: a
/// match consumes its characters, as `str::matches` counts them.
pub open spec fn occurrences(t: Seq<char>, p: Seq<char>) -> nat
    decreases t.len(),
{
    if p.len() == 0 || t.len() < p.len() {
        0
    } else if t.take(p.len() as int) == p {
        1 + occurrences(t.skip(p.len() as int), p)
    } else {
        occurrences(t.skip(1), p)
    }
}

/// The sum over `table` of each pattern's occurrences in `t` times its weight.
pub open spec fn table_score(t: Seq<char>, table: Seq<(Seq<char>, nat)>) -> nat
    decreases table.len(),
{
    if table.len() == 0 {
        0
    } else {
        table_score(t, table.drop_last()) + occurrences(t, table.last().0) * table.last().1
    }
}

/// The score of an already case-folded text: trigrams, bigrams, words and
/// letters, each occurrence counted with its weight.
pub open spec fn english_weight(t: Seq<char>) -> nat {
    table_score(t, trigram_weights()) + table_score(t, bigram_weights()) + table_score(
        t,
        word_weights(),
    ) + table_score(t, letter_weights())
}

/// A weight table with its patterns and weights as spec values.
pub open spec fn table_view(v: Seq<(Vec<char>, u16)>) -> Seq<(Seq<char>, nat)> {
    v.map_values(|e: (Vec<char>, u16)| (e.0@, e.1 as nat))
}

/// What `str::to_lowercase` returns for a text.
pub uninterp spec fn lower_of(s: Seq<char>) -> Seq<char>;

/// Relies on `str::to_lowercase`: the lowercase form of the text, which
/// depends on its characters alone.
#[verifier::external_body]
fn lowercase(s: &str) -> (r: String)
    ensures
        r@ == lower_of(s@),
{
    s.to_lowercase()
}

/// A one-character pattern.
fn single(c: char) -> (r: Vec<char>)
    ensures
        r@ == seq![c],
{
    let mut r: Vec<char> = Vec::new();
    r.push(c);
    assert(r@ =~= seq![c]);
    r
}

/// Frequent English trigrams and their weights.
pub open spec fn trigram_weights() -> Seq<(Seq<char>, nat)> {
    seq![
        (seq!['t', 'h', 'e'], 100),
        (seq!['a', 'n', 'd'], 80),
        (seq!['i', 'n', 'g'], 70),
        (seq!['e', 'n', 't'], 60),
        (seq!['i', 'o', 'n'], 55),
        (seq!['h', 'e', 'r'], 50),
        (seq!['f', 'o', 'r'], 45),
        (seq!['t', 'h', 'a'], 40),
        (seq!['n', 't', 'h'], 35),
        (seq!['i', 'n', 't'], 30),
        (seq!['e', 'r', 'e'], 25),
        (seq!['t', 'i', 'o'], 25),
        (seq!['t', 'e', 'r'], 25),
        (seq!['e', 's', 't'], 25),
        (seq!['e', 'r', 's'], 25),
        (seq!['a', 't', 'i'], 25),
        (seq!['h', 'a', 't'], 25),
        (seq!['a', 't', 'e'], 25),
        (seq!['a', 'l', 'l'], 25),
        (seq!['e', 't', 'h'], 25),
    ]
}

/// Frequent English bigrams and their weights.
pub open spec fn bigram_weights() -> Seq<(Seq<char>, nat)> {
    seq![
        (seq!['t', 'h'], 100),
        (seq!['h', 'e'], 90),
        (seq!['i', 'n'], 80),
        (seq!['e', 'r'], 70),
        (seq!['a', 'n'], 60),
        (seq!['r', 'e'], 50),
        (seq!['o', 'n'], 45),
        (seq!['a', 't'], 40),
        (seq!['e', 'n'], 35),
        (seq!['n', 'd'], 30),
        (seq!['t', 'i'], 30),
        (seq!['e', 's'], 30),
        (seq!['o', 'r'], 30),
        (seq!['t', 'e'], 30),
        (seq!['o', 'f'], 30),
    ]
}

/// Frequent English words and their weights; a word counts wherever it occurs, also inside another word.
pub open spec fn word_weights() -> Seq<(Seq<char>, nat)> {
    seq![
        (seq!['t', 'h', 'e'], 300),
        (seq!['b', 'e'], 270),
        (seq!['t', 'o'], 240),
        (seq!['o', 'f'], 210),
        (seq!['a', 'n', 'd'], 180),
        (seq!['a'], 165),
        (seq!['i', 'n'], 150),
        (seq!['t', 'h', 'a', 't'], 135),
        (seq!['h', 'a', 'v', 'e'], 120),
        (seq!['i'], 105),
        (seq!['i', 't'], 90),
        (seq!['f', 'o', 'r'], 90),
        (seq!['n', 'o', 't'], 90),
        (seq!['o', 'n'], 90),
        (seq!['w', 'i', 't', 'h'], 90),
        (seq!['h', 'e'], 90),
        (seq!['a', 's'], 90),
        (seq!['y', 'o', 'u'], 90),
        (seq!['d', 'o'], 90),
        (seq!['a', 't'], 90),
        (seq!['t', 'h', 'i', 's'], 90),
        (seq!['b', 'u', 't'], 90),
        (seq!['h', 'i', 's'], 90),
        (seq!['b', 'y'], 90),
        (seq!['f', 'r', 'o', 'm'], 90),
        (seq!['t', 'h', 'e', 'y'], 90),
        (seq!['w', 'e'], 90),
        (seq!['s', 'a', 'y'], 90),
        (seq!['h', 'e', 'r'], 90),
        (seq!['s', 'h', 'e'], 90),
    ]
}

/// Frequent English letters and their weights.
pub open spec fn letter_weights() -> Seq<(Seq<char>, nat)> {
    seq![
        (seq!['e'], 100),
        (seq!['t'], 90),
        (seq!['a'], 80),
        (seq!['o'], 75),
        (seq!['i'], 70),
        (seq!['n'], 65),
        (seq!['s'], 60),
        (seq!['h'], 55),
        (seq!['r'], 50),
        (seq!['d'], 45),
        (seq!['l'], 40),
        (seq!['c'], 35),
    ]
}

fn trigram_table() -> (r: Vec<(Vec<char>, u16)>)
    ensures
        r.len() == 20,
        table_view(r@) == trigram_weights(),
{
    let r: Vec<(Vec<char>, u16)> = vec![
        (vec!['t', 'h', 'e'], 100),
        (vec!['a', 'n', 'd'], 80),
        (vec!['i', 'n', 'g'], 70),
        (vec!['e', 'n', 't'], 60),
        (vec!['i', 'o', 'n'], 55),
        (vec!['h', 'e', 'r'], 50),
        (vec!['f', 'o', 'r'], 45),
        (vec!['t', 'h', 'a'], 40),
        (vec!['n', 't', 'h'], 35),
        (vec!['i', 'n', 't'], 30),
        (vec!['e', 'r', 'e'], 25),
        (vec!['t', 'i', 'o'], 25),
        (vec!['t', 'e', 'r'], 25),
        (vec!['e', 's', 't'], 25),
        (vec!['e', 'r', 's'], 25),
        (vec!['a', 't', 'i'], 25),
        (vec!['h', 'a', 't'], 25),
        (vec!['a', 't', 'e'], 25),
        (vec!['a', 'l', 'l'], 25),
        (vec!['e', 't', 'h'], 25),
    ];
    assert(table_view(r@) =~= trigram_weights());
    r
}

fn bigram_table() -> (r: Vec<(Vec<char>, u16)>)
    ensures
        r.len() == 15,
        table_view(r@) == bigram_weights(),
{
    let r: Vec<(Vec<char>, u16)> = vec![
        (vec!['t', 'h'], 100),
        (vec!['h', 'e'], 90),
        (vec!['i', 'n'], 80),
        (vec!['e', 'r'], 70),
        (vec!['a', 'n'], 60),
        (vec!['r', 'e'], 50),
        (vec!['o', 'n'], 45),
        (vec!['a', 't'], 40),
        (vec!['e', 'n'], 35),
        (vec!['n', 'd'], 30),
        (vec!['t', 'i'], 30),
        (vec!['e', 's'], 30),
        (vec!['o', 'r'], 30),
        (vec!['t', 'e'], 30),
        (vec!['o', 'f'], 30),
    ];
    assert(table_view(r@) =~= bigram_weights());
    r
}

#[verifier::rlimit(60)]
fn word_table() -> (r: Vec<(Vec<char>, u16)>)
    ensures
        r.len() == 30,
        table_view(r@) == word_weights(),
{
    let r: Vec<(Vec<char>, u16)> = vec![
        (vec!['t', 'h', 'e'], 300),
        (vec!['b', 'e'], 270),
        (vec!['t', 'o'], 240),
        (vec!['o', 'f'], 210),
        (vec!['a', 'n', 'd'], 180),
        (single('a'), 165),
        (vec!['i', 'n'], 150),
        (vec!['t', 'h', 'a', 't'], 135),
        (vec!['h', 'a', 'v', 'e'], 120),
        (single('i'), 105),
        (vec!['i', 't'], 90),
        (vec!['f', 'o', 'r'], 90),
        (vec!['n', 'o', 't'], 90),
        (vec!['o', 'n'], 90),
        (vec!['w', 'i', 't', 'h'], 90),
        (vec!['h', 'e'], 90),
        (vec!['a', 's'], 90),
        (vec!['y', 'o', 'u'], 90),
        (vec!['d', 'o'], 90),
        (vec!['a', 't'], 90),
        (vec!['t', 'h', 'i', 's'], 90),
        (vec!['b', 'u', 't'], 90),
        (vec!['h', 'i', 's'], 90),
        (vec!['b', 'y'], 90),
        (vec!['f', 'r', 'o', 'm'], 90),
        (vec!['t', 'h', 'e', 'y'], 90),
        (vec!['w', 'e'], 90),
        (vec!['s', 'a', 'y'], 90),
        (vec!['h', 'e', 'r'], 90),
        (vec!['s', 'h', 'e'], 90),
    ];
    assert(table_view(r@) =~= word_weights());
    r
}

#[verifier::rlimit(60)]
fn letter_table() -> (r: Vec<(Vec<char>, u16)>)
    ensures
        r.len() == 12,
        table_view(r@) == letter_weights(),
{
    let r: Vec<(Vec<char>, u16)> = vec![
        (single('e'), 100),
        (single('t'), 90),
        (single('a'), 80),
        (single('o'), 75),
        (single('i'), 70),
        (single('n'), 65),
        (single('s'), 60),
        (single('h'), 55),
        (single('r'), 50),
        (single('d'), 45),
        (single('l'), 40),
        (single('c'), 35),
    ];
    assert(table_view(r@) =~= letter_weights());
    r
}

proof fn lemma_occurrences_bound(t: Seq<char>, p: Seq<char>)
    ensures
        occurrences(t, p) <= t.len(),
    decreases t.len(),
{
    if p.len() == 0 || t.len() < p.len() {
    } else if t.take(p.len() as int) == p {
        lemma_occurrences_bound(t.skip(p.len() as int), p);
    } else {
        lemma_occurrences_bound(t.skip(1), p);
    }
}

/// Whether `p` occurs in `t` at index `i`.
fn matches_at(t: &Vec<char>, i: usize, p: &Vec<char>) -> (r: bool)
    requires
        i + p.len() <= t.len(),
    ensures
        r == (t@.skip(i as int).take(p.len() as int) == p@),
{
    let mut j: usize = 0;
    while j < p.len()
        invariant
            i + p.len() <= t.len(),
            j <= p.len(),
            forall|k: int| 0 <= k < j ==> t@[i + k] == p@[k],
        decreases p.len() - j,
    {
        if t[i + j] != p[j] {
            assert(t@.skip(i as int).take(p.len() as int)[j as int] != p@[j as int]);
            return false;
        }
        j += 1;
    }
    assert(t@.skip(i as int).take(p.len() as int) =~= p@);
    true
}

/// The number of non-overlapping occurrences of `p` in `t`, from the left.
pub fn count_matches(t: &Vec<char>, p: &Vec<char>) -> (r: usize)
    ensures
        r == occurrences(t@, p@),
{
    if p.len() == 0 {
        return 0;
    }
    let mut count: usize = 0;
    let mut i: usize = 0;
    assert(t@.skip(0) =~= t@);
    while i < t.len() && p.len() <= t.len() - i
        invariant
            p.len() > 0,
            i <= t.len(),
            count <= i,
            count + occurrences(t@.skip(i as int), p@) == occurrences(t@, p@),
        decreases t.len() - i,
    {
        let ghost rest = t@.skip(i as int);
        if matches_at(t, i, p) {
            assert(rest.skip(p.len() as int) =~= t@.skip(i + p.len()));
            count += 1;
            i += p.len();
        } else {
            assert(rest.skip(1) =~= t@.skip(i + 1));
            i += 1;
        }
    }
    count
}

/// The weighted occurrence count of `table`'s patterns in `t`.
fn score_table(t: &Vec<char>, table: &Vec<(Vec<char>, u16)>) -> (r: u128)
    requires
        table.len() <= 64,
    ensures
        r == table_score(t@, table_view(table@)),
        r <= 64 * 0x1_0000_0000_0000_0000_0000,
{
    let mut score: u128 = 0;
    for k in 0..table.len()
        invariant
            table.len() <= 64,
            score == table_score(t@, table_view(table@).take(k as int)),
            score <= k * 0x1_0000_0000_0000_0000_0000,
    {
        let (p, w) = (&table[k].0, table[k].1);
        let c = count_matches(t, p);
        proof {
            lemma_occurrences_bound(t@, p@);
            assert(table_view(table@).take(k + 1).drop_last() =~= table_view(table@).take(k as int));
            assert(c as int * (w as int) <= 0x1_0000_0000_0000_0000_0000) by (nonlinear_arith)
                requires c <= 0xffff_ffff_ffff_ffff, w <= 0xffff;
        }
        score = score + (c as u128) * (w as u128);
    }
    assert(table_view(table@).take(table.len() as int) =~= table_view(table@));
    score
}

/// The score of a text that is already case-folded; see `english_weight`.
pub fn folded_score(t: &Vec<char>) -> (r: u128)
    ensures
        r == english_weight(t@),
{
    let tri = trigram_table();
    let bi = bigram_table();
    let words = word_table();
    let letters = letter_table();
    let a = score_table(t, &tri);
    let b = score_table(t, &bi);
    let c = score_table(t, &words);
    let d = score_table(t, &letters);
    a + b + c + d
}

/// The English-likeness score of `text`: the text is lowercased, then
/// scored by `english_weight`. Higher means more plausible plaintext.
pub fn english_score(text: &str) -> (r: u128)
    ensures
        r == english_weight(lower_of(text@)),
{
    let lowered = lowercase(text);
    let chars = chars_of(lowered.as_str());
    folded_score(&chars)
}

} // verus!
