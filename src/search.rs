//! The search: try candidate keys, score each decryption, keep the best.
use vstd::prelude::*;
use crate::text::{chars_of, string_of};
use crate::score::{english_score, english_weight, lower_of};
use crate::transform::{columnar_decrypt, columnar_plain, is_permutation, periodic_decrypt, periodic_plain};
use crate::shift::{Substitution, decrypt_substitution, substitution_plain, valid_shifts};
use crate::keyspace::{
    cartesian_keys, factorial, is_ordering_list, is_shift_options, key_product, permutations_of,
    shift_options, views,
};
use crate::topk::{Candidate, Entry, TopK, all_at_least, entries_of, is_ranked, lemma_top_k, ranked_extend};

verus! {

/// The cipher families the search knows.
#[derive(Clone, Copy, PartialEq, Eq, Structural)]
pub enum CipherType {
    Columnar,
    Periodic,
    Vigenere,
    Beaufort,
}

/// The parameters of one search.
pub struct Decrypter {
    pub cipher_type: CipherType,
    /// The longest transposition key tried; for a periodic search over all
    /// periods, the largest period.
    pub max_key_length: usize,
    /// The period of a periodic or polyalphabetic search (the smallest one
    /// when every period up to the maximum is tried).
    pub period: usize,
    pub check_all_periods: bool,
    /// Selects the transposed layout of the columnar inverse.
    pub transpose: bool,
}

/// What a search hands back: ranked candidates, or the sign that no
/// decryption could be attempted at all.
pub enum SearchOutcome {
    Ranked(Vec<Candidate>),
    NoSolution,
}

/// How many candidates a transposition search keeps.
pub const TRANSPOSITION_KEEP: usize = 3;

/// How many candidates a polyalphabetic search keeps.
pub const SUBSTITUTION_KEEP: usize = 5;

/// A key with the text it gives and that text's score.
pub open spec fn scored(key: Seq<usize>, text: Seq<char>) -> Entry {
    (key, text, english_weight(lower_of(text)) as u128)
}

/// The text that a transposition key gives.
pub open spec fn transposition_plain(t: Seq<char>, key: Seq<usize>, periodic: bool, transpose: bool) -> Seq<char> {
    if periodic {
        periodic_plain(t, key)
    } else {
        columnar_plain(t, key, transpose)
    }
}

/// The candidate of a transposition key.
pub open spec fn transposition_candidate(t: Seq<char>, key: Seq<usize>, periodic: bool, transpose: bool) -> Entry {
    scored(key, transposition_plain(t, key, periodic, transpose))
}

/// The candidates of a list of transposition keys, in order.
pub open spec fn transposition_candidates(
    t: Seq<char>,
    keys: Seq<Seq<usize>>,
    periodic: bool,
    transpose: bool,
) -> Seq<Entry> {
    keys.map_values(|k: Seq<usize>| transposition_candidate(t, k, periodic, transpose))
}

/// The candidates of a list of polyalphabetic keys, in order.
pub open spec fn substitution_candidates(family: Substitution, t: Seq<char>, keys: Seq<Seq<usize>>) -> Seq<Entry> {
    keys.map_values(|k: Seq<usize>| scored(k, substitution_plain(family, t, k)))
}

/// `lo! + (lo + 1)! + .. + hi!`: how many permutation keys the lengths
/// from `lo` to `hi` have in all.
pub open spec fn key_count(lo: nat, hi: nat) -> nat
    decreases hi,
{
    if hi < lo || hi == 0 {
        0
    } else {
        key_count(lo, (hi - 1) as nat) + factorial(hi)
    }
}

/// `e` is the candidate of some permutation key with length in `lo..=hi`.
pub open spec fn is_key_candidate(t: Seq<char>, lo: nat, hi: nat, periodic: bool, transpose: bool, e: Entry) -> bool {
    exists|key: Seq<usize>|
        lo <= key.len() <= hi && #[trigger] is_permutation(key, key.len() as int) && e
            == transposition_candidate(t, key, periodic, transpose)
}

/// What a transposition search over key lengths `lo..=hi` returns: the
/// `cap` best candidates over every permutation of each length, ranked,
/// with every candidate left out scoring no higher than any kept.
pub open spec fn is_transposition_result(
    t: Seq<char>,
    lo: nat,
    hi: nat,
    periodic: bool,
    transpose: bool,
    cap: nat,
    v: Seq<Entry>,
) -> bool {
    &&& is_ranked(v)
    &&& v.len() == if key_count(lo, hi) < cap { key_count(lo, hi) } else { cap }
    &&& forall|i: int| 0 <= i < v.len() ==> #[trigger] is_key_candidate(t, lo, hi, periodic, transpose, v[i])
    &&& forall|key: Seq<usize>|
        lo <= key.len() <= hi && #[trigger] is_permutation(key, key.len() as int) ==> (v.contains(
            transposition_candidate(t, key, periodic, transpose),
        ) || all_at_least(v, transposition_candidate(t, key, periodic, transpose).2))
}

/// Decrypts with one transposition key and scores the result.
fn try_transposition(t: &Vec<char>, key: Vec<usize>, periodic: bool, transpose: bool) -> (c: Candidate)
    requires
        key.len() > 0,
        is_permutation(key@, key.len() as int),
    ensures
        c@ == transposition_candidate(t@, key@, periodic, transpose),
{
    let plain = if periodic {
        periodic_decrypt(t, &key)
    } else {
        columnar_decrypt(t, &key, transpose)
    };
    let text = string_of(&plain);
    let score = english_score(text.as_str());
    Candidate { key, text, score }
}

/// Tries every permutation key of each length `lo..=hi` on `t` and keeps
/// the `cap` best candidates; see `is_transposition_result`.
pub fn search_transpositions(
    t: &Vec<char>,
    lo: usize,
    hi: usize,
    periodic: bool,
    transpose: bool,
    cap: usize,
) -> (v: Vec<Candidate>)
    requires
        lo >= 1,
        cap > 0,
    ensures
        is_transposition_result(t@, lo as nat, hi as nat, periodic, transpose, cap as nat, entries_of(v@)),
{
    let mut top = TopK::new(cap);
    let ghost mut tried: Seq<Entry> = seq![];
    let mut len = lo;
    let mut done = lo > hi;
    while !done
        invariant
            lo >= 1,
            cap > 0,
            lo <= len,
            !done ==> len <= hi,
            done ==> len > hi || len == hi,
            top.wf(),
            top.cap() == cap,
            top.entries() == ranked_extend(seq![], tried, cap as nat),
            tried.len() == key_count(lo as nat, if done { hi as nat } else { (len - 1) as nat }),
            forall|i: int|
                0 <= i < tried.len() ==> #[trigger] is_key_candidate(
                    t@,
                    lo as nat,
                    hi as nat,
                    periodic,
                    transpose,
                    tried[i],
                ),
            forall|key: Seq<usize>|
                lo <= key.len() && (if done { key.len() <= hi } else { key.len() < len }) && #[trigger] is_permutation(
                    key,
                    key.len() as int,
                ) ==> tried.contains(transposition_candidate(t@, key, periodic, transpose)),
        decreases hi - len + if done { 0int } else { 1int },
    {
        let keys = permutations_of(len);
        let ghost all = views(keys@);
        let ghost start = tried;
        for key in it: keys.into_iter()
            invariant
                len >= 1,
                lo <= len <= hi,
                top.wf(),
                top.cap() == cap,
                all == views(it.seq()),
                is_ordering_list(all, len as nat),
                tried == start + transposition_candidates(t@, all.take(it.index() as int), periodic, transpose),
                top.entries() == ranked_extend(seq![], tried, cap as nat),
                forall|i: int|
                    0 <= i < start.len() ==> #[trigger] is_key_candidate(
                        t@,
                        lo as nat,
                        hi as nat,
                        periodic,
                        transpose,
                        start[i],
                    ),
        {
            let ghost k = it.index() as int;
            assert(all[k] == key@);
            assert(is_permutation(key@, len as int));
            let c = try_transposition(t, key, periodic, transpose);
            top.insert(c);
            proof {
                let before = tried;
                tried = tried.push(c@);
                assert(tried.drop_last() =~= before);
                assert(transposition_candidates(t@, all.take(k + 1), periodic, transpose) =~= transposition_candidates(
                    t@,
                    all.take(k),
                    periodic,
                    transpose,
                ).push(c@));
                assert(tried =~= start + transposition_candidates(t@, all.take(k + 1), periodic, transpose));
            }
        }
        proof {
            assert(all.take(all.len() as int) =~= all);
            let added = transposition_candidates(t@, all, periodic, transpose);
            assert(tried == start + added);
            assert forall|i: int| 0 <= i < tried.len() implies #[trigger] is_key_candidate(
                t@,
                lo as nat,
                hi as nat,
                periodic,
                transpose,
                tried[i],
            ) by {
                if i >= start.len() {
                    let key = all[i - start.len()];
                    assert(is_permutation(key, len as int));
                    assert(tried[i] == transposition_candidate(t@, key, periodic, transpose));
                } else {
                    assert(tried[i] == start[i]);
                }
            }
            assert forall|key: Seq<usize>|
                lo <= key.len() && key.len() <= len && #[trigger] is_permutation(key, key.len() as int) implies tried.contains(
                transposition_candidate(t@, key, periodic, transpose),
            ) by {
                if key.len() == len {
                    assert(all.contains(key));
                    let j = choose|j: int| 0 <= j < all.len() && all[j] == key;
                    assert(tried[start.len() + j] == transposition_candidate(t@, key, periodic, transpose));
                } else {
                    let x = transposition_candidate(t@, key, periodic, transpose);
                    assert(start.contains(x));
                    let j = choose|j: int| 0 <= j < start.len() && start[j] == x;
                    assert(tried[j] == x);
                }
            }
            assert(tried.len() == key_count(lo as nat, len as nat));
        }
        if len == hi {
            done = true;
        } else {
            len = len + 1;
        }
    }
    let v = top.extract_ranked();
    proof {
        let r = entries_of(v@);
        lemma_top_k(cap as nat, tried);
        assert forall|key: Seq<usize>|
            lo <= key.len() <= hi && #[trigger] is_permutation(key, key.len() as int) implies (r.contains(
            transposition_candidate(t@, key, periodic, transpose),
        ) || all_at_least(r, transposition_candidate(t@, key, periodic, transpose).2)) by {
            let x = transposition_candidate(t@, key, periodic, transpose);
            assert(tried.contains(x));
            let j = choose|j: int| 0 <= j < tried.len() && tried[j] == x;
        }
        assert forall|i: int| 0 <= i < r.len() implies #[trigger] is_key_candidate(
            t@,
            lo as nat,
            hi as nat,
            periodic,
            transpose,
            r[i],
        ) by {
            assert(tried.contains(r[i]));
            let j = choose|j: int| 0 <= j < tried.len() && tried[j] == r[i];
        }
    }
    v
}

/// Every key of `key_product(opts)` has one shift per position, drawn
/// from that position's options.
proof fn lemma_product_keys(opts: Seq<Seq<usize>>)
    requires
        forall|g: int| 0 <= g < opts.len() ==> valid_shifts(#[trigger] opts[g]),
    ensures
        forall|m: int|
            0 <= m < key_product(opts).len() ==> (#[trigger] key_product(opts)[m]).len() == opts.len()
                && valid_shifts(key_product(opts)[m]),
    decreases opts.len(),
{
    if opts.len() > 0 {
        let prev = opts.drop_last();
        let o = opts.last();
        assert forall|g: int| 0 <= g < prev.len() implies valid_shifts(#[trigger] prev[g]) by {
            assert(prev[g] == opts[g]);
        }
        lemma_product_keys(prev);
        let keys = key_product(prev);
        assert(valid_shifts(opts[opts.len() - 1]));
        assert forall|m: int|
            0 <= m < key_product(opts).len() implies (#[trigger] key_product(opts)[m]).len() == opts.len()
                && valid_shifts(key_product(opts)[m]) by {
            let q = m / o.len() as int;
            vstd::arithmetic::div_mod::lemma_fundamental_div_mod(m, o.len() as int);
            vstd::arithmetic::div_mod::lemma_div_pos_is_pos(m, o.len() as int);
            assert(q < keys.len()) by (nonlinear_arith)
                requires m < keys.len() * o.len(), m == o.len() * q + m % (o.len() as int), m % (o.len() as int) >= 0, o.len() > 0;
            assert(key_product(opts)[m] == keys[q].push(o[m % o.len() as int]));
        }
    }
}

/// Decrypts with one polyalphabetic key and scores the result.
fn try_substitution(family: &Substitution, t: &Vec<char>, key: Vec<usize>) -> (c: Candidate)
    requires
        key.len() > 0,
        valid_shifts(key@),
    ensures
        c@ == scored(key@, substitution_plain(*family, t@, key@)),
{
    let plain = decrypt_substitution(family, t, &key);
    let text = string_of(&plain);
    let score = english_score(text.as_str());
    Candidate { key, text, score }
}

/// Derives the candidate keys of a polyalphabetic family from the letter
/// frequencies of each residue class modulo `period`, tries each, and
/// keeps the best `SUBSTITUTION_KEEP`; ties keep the earlier key first.
pub fn search_substitution(family: &Substitution, t: &Vec<char>, period: usize) -> (v: Vec<Candidate>)
    requires
        period > 0,
    ensures
        exists|opts: Seq<Seq<usize>>|
            #[trigger] is_shift_options(*family, t@, period as int, opts) && entries_of(v@) == ranked_extend(
                seq![],
                substitution_candidates(*family, t@, key_product(opts)),
                SUBSTITUTION_KEEP as nat,
            ),
{
    let opts = shift_options(family, t, period);
    let keys = cartesian_keys(&opts);
    let ghost options = views(opts@);
    let ghost all = views(keys@);
    proof {
        assert forall|g: int| 0 <= g < options.len() implies valid_shifts(#[trigger] options[g]) by {
            assert(options[g] == opts@[g]@);
        }
        lemma_product_keys(options);
    }
    let mut top = TopK::new(SUBSTITUTION_KEEP);
    let ghost mut tried: Seq<Entry> = seq![];
    for key in it: keys.into_iter()
        invariant
            period > 0,
            options.len() == period,
            all == key_product(options),
            all == views(it.seq()),
            forall|m: int|
                0 <= m < all.len() ==> (#[trigger] all[m]).len() == options.len() && valid_shifts(all[m]),
            top.wf(),
            top.cap() == SUBSTITUTION_KEEP,
            tried == substitution_candidates(*family, t@, all.take(it.index() as int)),
            top.entries() == ranked_extend(seq![], tried, SUBSTITUTION_KEEP as nat),
    {
        let ghost k = it.index() as int;
        assert(all[k] == key@);
        let c = try_substitution(family, t, key);
        top.insert(c);
        proof {
            let before = tried;
            tried = tried.push(c@);
            assert(tried.drop_last() =~= before);
            assert(tried =~= substitution_candidates(*family, t@, all.take(k + 1)));
        }
    }
    proof {
        assert(all.take(all.len() as int) =~= all);
    }
    top.extract_ranked()
}

/// The key lengths (or periods) a transposition search with `d` tries on
/// a text of `n` characters, as `(lo, hi)`; empty when `lo > hi`. A length
/// above `n` or below 1 is never tried.
pub open spec fn transposition_lengths(d: Decrypter, n: nat) -> (nat, nat) {
    let cap_n = if d.max_key_length < n { d.max_key_length as nat } else { n };
    match d.cipher_type {
        CipherType::Columnar => (1, cap_n),
        CipherType::Periodic => if d.check_all_periods {
            (if d.period >= 1 { d.period as nat } else { 1 }, cap_n)
        } else if 1 <= d.period <= n {
            (d.period as nat, d.period as nat)
        } else {
            (1, 0)
        },
        _ => (1, 0),
    }
}

/// The substitution family of a polyalphabetic cipher type.
pub open spec fn substitution_of(c: CipherType) -> Substitution {
    match c {
        CipherType::Beaufort => Substitution::Beaufort,
        _ => Substitution::Vigenere,
    }
}

/// What `run_search` owes for `text` under `d`.
pub open spec fn is_search_outcome(d: Decrypter, text: Seq<char>, r: SearchOutcome) -> bool {
    match d.cipher_type {
        CipherType::Columnar | CipherType::Periodic => {
            let (lo, hi) = transposition_lengths(d, text.len());
            &&& (r is NoSolution <==> lo > hi)
            &&& r is Ranked ==> is_transposition_result(
                text,
                lo,
                hi,
                d.cipher_type is Periodic,
                d.transpose,
                TRANSPOSITION_KEEP as nat,
                entries_of(r->Ranked_0@),
            )
        },
        _ => {
            &&& (r is NoSolution <==> (d.period == 0 || text.len() == 0))
            &&& r is Ranked ==> exists|opts: Seq<Seq<usize>>|
                #[trigger] is_shift_options(substitution_of(d.cipher_type), text, d.period as int, opts)
                    && entries_of(r->Ranked_0@) == ranked_extend(
                    seq![],
                    substitution_candidates(substitution_of(d.cipher_type), text, key_product(opts)),
                    SUBSTITUTION_KEEP as nat,
                )
        },
    }
}

impl Decrypter {
    /// The key lengths a transposition search tries on `n` characters, as
    /// an inclusive range, or `None` when there are none.
    pub fn key_lengths(&self, n: usize) -> (r: Option<(usize, usize)>)
        ensures
            r is None <==> transposition_lengths(*self, n as nat).0 > transposition_lengths(*self, n as nat).1,
            r matches Some((lo, hi)) ==> lo >= 1 && lo as nat == transposition_lengths(*self, n as nat).0
                && hi as nat == transposition_lengths(*self, n as nat).1,
    {
        let cap_n = if self.max_key_length < n { self.max_key_length } else { n };
        let (lo, hi): (usize, usize) = match self.cipher_type {
            CipherType::Columnar => (1, cap_n),
            CipherType::Periodic => if self.check_all_periods {
                (if self.period >= 1 { self.period } else { 1 }, cap_n)
            } else if 1 <= self.period && self.period <= n {
                (self.period, self.period)
            } else {
                (1, 0)
            },
            _ => (1, 0),
        };
        if lo > hi {
            None
        } else {
            Some((lo, hi))
        }
    }

    /// Columnar transposition search: every permutation key of each length
    /// from 1 up to the maximum (and at most the text's length).
    pub fn decrypt_columnar(&self, t: &Vec<char>) -> (r: SearchOutcome)
        requires
            self.cipher_type is Columnar,
        ensures
            is_search_outcome(*self, t@, r),
    {
        match self.key_lengths(t.len()) {
            None => SearchOutcome::NoSolution,
            Some((lo, hi)) => SearchOutcome::Ranked(
                search_transpositions(t, lo, hi, false, self.transpose, TRANSPOSITION_KEEP),
            ),
        }
    }

    /// Periodic transposition search: every permutation key of the period,
    /// or of each period from it up to the maximum.
    pub fn decrypt_periodic(&self, t: &Vec<char>) -> (r: SearchOutcome)
        requires
            self.cipher_type is Periodic,
        ensures
            is_search_outcome(*self, t@, r),
    {
        match self.key_lengths(t.len()) {
            None => SearchOutcome::NoSolution,
            Some((lo, hi)) => SearchOutcome::Ranked(
                search_transpositions(t, lo, hi, true, self.transpose, TRANSPOSITION_KEEP),
            ),
        }
    }

    /// Vigenère search with keys derived from letter frequencies.
    pub fn decrypt_vigenere(&self, t: &Vec<char>) -> (r: SearchOutcome)
        requires
            self.cipher_type is Vigenere,
        ensures
            is_search_outcome(*self, t@, r),
    {
        if self.period == 0 || t.len() == 0 {
            SearchOutcome::NoSolution
        } else {
            SearchOutcome::Ranked(search_substitution(&Substitution::Vigenere, t, self.period))
        }
    }

    /// Beaufort search with keys derived from letter frequencies.
    pub fn decrypt_beaufort(&self, t: &Vec<char>) -> (r: SearchOutcome)
        requires
            self.cipher_type is Beaufort,
        ensures
            is_search_outcome(*self, t@, r),
    {
        if self.period == 0 || t.len() == 0 {
            SearchOutcome::NoSolution
        } else {
            SearchOutcome::Ranked(search_substitution(&Substitution::Beaufort, t, self.period))
        }
    }
}

/// Runs the search that `config` describes on `text`.
pub fn run_search(text: &str, config: &Decrypter) -> (r: SearchOutcome)
    ensures
        is_search_outcome(*config, text@, r),
{
    let t = chars_of(text);
    match config.cipher_type {
        CipherType::Columnar => config.decrypt_columnar(&t),
        CipherType::Periodic => config.decrypt_periodic(&t),
        CipherType::Vigenere => config.decrypt_vigenere(&t),
        CipherType::Beaufort => config.decrypt_beaufort(&t),
    }
}

/// Whether `c` is an ASCII decimal digit.
pub open spec fn is_digit(c: char) -> bool {
    48 <= c as u32 <= 57
}

/// The number that a string of decimal digits spells.
pub open spec fn decimal_value(s: Seq<char>) -> int
    decreases s.len(),
{
    if s.len() == 0 {
        0
    } else {
        decimal_value(s.drop_last()) * 10 + (s.last() as u32 - 48)
    }
}

/// The setting that `s` gives: the number it spells when it is an optional
/// `+` followed by one or more decimal digits and fits in `usize`;
/// otherwise `default`.
pub open spec fn setting_value(s: Seq<char>, default: usize) -> int {
    let body = setting_digits(s);
    if body.len() > 0 && all_digits(body) && decimal_value(body) <= usize::MAX {
        decimal_value(body)
    } else {
        default as int
    }
}

/// `s` without a leading `+`.
pub open spec fn setting_digits(s: Seq<char>) -> Seq<char> {
    if s.len() > 0 && s[0] == '+' { s.skip(1) } else { s }
}

/// Every character of `s` is a decimal digit.
pub open spec fn all_digits(s: Seq<char>) -> bool {
    forall|i: int| 0 <= i < s.len() ==> #[trigger] is_digit(s[i])
}

proof fn lemma_decimal_prefix(s: Seq<char>, k: int)
    requires
        0 <= k <= s.len(),
        forall|i: int| 0 <= i < s.len() ==> #[trigger] is_digit(s[i]),
    ensures
        0 <= decimal_value(s.take(k)) <= decimal_value(s),
    decreases s.len(),
{
    if k < s.len() {
        let p = s.drop_last();
        assert(p.take(k) =~= s.take(k));
        assert forall|i: int| 0 <= i < p.len() implies #[trigger] is_digit(p[i]) by {
            assert(p[i] == s[i]);
        }
        lemma_decimal_prefix(p, k);
        assert(is_digit(s[s.len() - 1]));
    } else {
        assert(s.take(k) =~= s);
        if s.len() > 0 {
            let p = s.drop_last();
            assert forall|i: int| 0 <= i < p.len() implies #[trigger] is_digit(p[i]) by {
                assert(p[i] == s[i]);
            }
            lemma_decimal_prefix(p, p.len() as int);
            assert(p.take(p.len() as int) =~= p);
            assert(is_digit(s[s.len() - 1]));
        }
    }
}

/// Reads a numeric setting, falling back to `default` when the text is
/// not a number that fits; see `setting_value`.
pub fn parse_setting(text: &str, default: usize) -> (r: usize)
    ensures
        r == setting_value(text@, default),
{
    let s = chars_of(text);
    let start: usize = if s.len() > 0 && s[0] == '+' { 1 } else { 0 };
    let ghost body = setting_digits(text@);
    assert(body =~= s@.skip(start as int));
    if start >= s.len() {
        return default;
    }
    let mut v: u128 = 0;
    let mut i: usize = start;
    assert(body.take(0) =~= Seq::<char>::empty());
    while i < s.len()
        invariant
            start <= i <= s.len(),
            s@ == text@,
            body == setting_digits(text@),
            body == s@.skip(start as int),
            v == decimal_value(body.take(i - start)),
            v <= usize::MAX,
            forall|j: int| 0 <= j < i - start ==> #[trigger] is_digit(body[j]),
        decreases s.len() - i,
    {
        let cu = s[i] as u32;
        assert(body[i - start] == s@[i as int]);
        if cu < 48 || cu > 57 {
            assert(!is_digit(body[i - start]));
            assert(!all_digits(body));
            return default;
        }
        let ghost k = i - start;
        assert(body.take(k + 1).drop_last() =~= body.take(k));
        assert(body.take(k + 1).last() == s@[i as int]);
        v = v * 10 + (cu - 48) as u128;
        assert(v == decimal_value(body.take(k + 1)));
        if v > usize::MAX as u128 {
            proof {
                if all_digits(body) {
                    lemma_decimal_prefix(body, k + 1);
                    assert(decimal_value(body) > usize::MAX);
                }
            }
            return default;
        }
        i += 1;
    }
    assert(body.take(body.len() as int) =~= body);
    v as usize
}

} // verus!
