//! Candidate keys for the polyalphabetic families, derived from letter
//! frequencies in each residue class of the ciphertext.
use vstd::prelude::*;
use crate::text::{is_letter, letter_index};
use crate::shift::{Substitution, valid_shifts};
use crate::transform::is_permutation;
use itertools::Itertools;

verus! {

/// How many of the text's letters at positions `i ≡ g (mod period)` have
/// alphabet index `l` (case folded).
pub open spec fn class_letter_count(t: Seq<char>, period: int, g: int, l: int) -> nat
    decreases t.len(),
{
    if t.len() == 0 {
        0
    } else {
        let i = t.len() - 1;
        class_letter_count(t.drop_last(), period, g, l) + if i % period == g && is_letter(t[i])
            && letter_index(t[i]) == l {
            1nat
        } else {
            0nat
        }
    }
}

/// The letter histogram of residue class `g` modulo `period`.
pub open spec fn class_counts(t: Seq<char>, period: int, g: int) -> Seq<usize> {
    Seq::new(26, |l: int| class_letter_count(t, period, g, l) as usize)
}

/// `a` ranks before `b` in `counts`: it is more frequent, or as frequent
/// and earlier in the alphabet.
pub open spec fn ranks_before(counts: Seq<usize>, a: int, b: int) -> bool {
    counts[a] > counts[b] || (counts[a] == counts[b] && a < b)
}

/// `top` lists the `n` highest-ranked letters of `counts`, best first.
pub open spec fn is_top_letters(counts: Seq<usize>, top: Seq<usize>, n: nat) -> bool {
    &&& top.len() == n
    &&& forall|i: int| 0 <= i < top.len() ==> #[trigger] top[i] < 26
    &&& forall|i: int, j: int|
        0 <= i < j < top.len() ==> ranks_before(counts, #[trigger] top[i] as int, #[trigger] top[j] as int)
    &&& forall|i: int, l: int|
        0 <= i < top.len() && 0 <= l < 26 && !top.contains(l as usize) ==> #[trigger] ranks_before(
            counts,
            top[i] as int,
            l,
        )
}

/// How many letters of each residue class are tried for `family`.
pub open spec fn letters_per_class(family: Substitution) -> nat {
    match family {
        Substitution::Vigenere => 3,
        Substitution::Beaufort => 2,
    }
}

/// The shift that maps letter `l` onto `e`, the most frequent English letter.
pub open spec fn shift_to_e(family: Substitution, l: int) -> usize {
    match family {
        Substitution::Vigenere => ((l + 22) % 26) as usize,
        Substitution::Beaufort => ((l + 4) % 26) as usize,
    }
}

/// The letter histogram of residue class `g` modulo `period`: entry `l`
/// counts the letters (case folded) with alphabet index `l`.
pub fn class_histogram(t: &Vec<char>, period: usize, g: usize) -> (r: Vec<usize>)
    requires
        period > 0,
    ensures
        r@ == class_counts(t@, period as int, g as int),
        forall|l: int| 0 <= l < 26 ==> r[l] == class_letter_count(t@, period as int, g as int, l),
{
    let mut r: Vec<usize> = vec![0; 26];
    for i in 0..t.len()
        invariant
            period > 0,
            r.len() == 26,
            forall|l: int|
                0 <= l < 26 ==> r[l] == class_letter_count(t@.take(i as int), period as int, g as int, l),
            forall|l: int| 0 <= l < 26 ==> r[l] <= i,
    {
        let c = t[i];
        assert(t@.take(i + 1).drop_last() =~= t@.take(i as int));
        let cu = c as u32;
        let lower = 97 <= cu && cu <= 122;
        let upper = 65 <= cu && cu <= 90;
        let ghost before = r@;
        let ghost hit = i % period == g && is_letter(c);
        let ghost idx: int = letter_index(c);
        if i % period == g && (lower || upper) {
            let x: usize = if lower { (cu - 97) as usize } else { (cu - 65) as usize };
            assert(x == letter_index(c));
            r.set(x, r[x] + 1);
        }
        assert forall|l: int| 0 <= l < 26 implies r[l] == class_letter_count(
            t@.take(i + 1),
            period as int,
            g as int,
            l,
        ) by {
            let tk = t@.take(i + 1);
            assert(tk.drop_last() =~= t@.take(i as int));
            assert(tk[i as int] == c);
            assert(class_letter_count(tk, period as int, g as int, l) == class_letter_count(
                t@.take(i as int),
                period as int,
                g as int,
                l,
            ) + if i % period == g && is_letter(c) && letter_index(c) == l {
                1nat
            } else {
                0nat
            });
            assert(before[l] == class_letter_count(t@.take(i as int), period as int, g as int, l));
            if hit && l == idx {
                assert(r[l] == before[l] + 1);
            } else {
                assert(r[l] == before[l]);
            }
        }
    }
    assert(t@.take(t.len() as int) =~= t@);
    assert(r@ =~= class_counts(t@, period as int, g as int));
    r
}

/// The `n` highest-ranked letters of `counts`, best first: most frequent
/// first, the earlier letter first among equally frequent ones.
pub fn top_letters(counts: &Vec<usize>, n: usize) -> (top: Vec<usize>)
    requires
        counts.len() == 26,
        n <= 26,
    ensures
        is_top_letters(counts@, top@, n as nat),
{
    let mut top: Vec<usize> = Vec::new();
    let mut taken: Vec<bool> = vec![false; 26];
    while top.len() < n
        invariant
            counts.len() == 26,
            n <= 26,
            top.len() <= n,
            taken.len() == 26,
            forall|l: int| 0 <= l < 26 ==> #[trigger] taken[l] == top@.contains(l as usize),
            is_top_letters(counts@, top@, top.len() as nat),
        decreases n - top.len(),
    {
        proof {
            lemma_some_letter_free(top@);
        }
        let ghost free = choose|l: int| 0 <= l < 26 && !#[trigger] top@.contains(l as usize);
        let mut best: usize = 26;
        for l in 0..26
            invariant
                counts.len() == 26,
                taken.len() == 26,
                best <= 26,
                forall|m: int| 0 <= m < 26 ==> #[trigger] taken[m] == top@.contains(m as usize),
                best == 26 ==> forall|m: int| 0 <= m < l ==> #[trigger] taken[m],
                best < 26 ==> best < l && !taken[best as int] && forall|m: int|
                    0 <= m < l && m != best && !#[trigger] taken[m] ==> ranks_before(
                        counts@,
                        best as int,
                        m,
                    ),
        {
            if !taken[l] && (best == 26 || counts[l] > counts[best]) {
                best = l;
            }
        }
        proof {
            if best == 26 {
                assert(taken[free]);
            }
        }
        let ghost old_top = top@;
        let ghost old_taken = taken@;
        top.push(best);
        taken.set(best, true);
        proof {
            assert forall|l: int| 0 <= l < 26 implies #[trigger] taken[l] == top@.contains(l as usize) by {
                assert(top@[old_top.len() as int] == best);
                if l == best {
                    assert(top@.contains(l as usize));
                } else {
                    assert(taken[l] == old_taken[l]);
                    assert(old_taken[l] == old_top.contains(l as usize));
                }
                if top@.contains(l as usize) && l != best {
                    let k = choose|k: int| 0 <= k < top@.len() && top@[k] == l as usize;
                    assert(old_top[k] == l as usize);
                }
                if old_top.contains(l as usize) {
                    let k = choose|k: int| 0 <= k < old_top.len() && old_top[k] == l as usize;
                    assert(top@[k] == l as usize);
                }
            }
            assert forall|i: int, j: int| 0 <= i < j < top@.len() implies ranks_before(
                counts@,
                #[trigger] top@[i] as int,
                #[trigger] top@[j] as int,
            ) by {
                if j == top@.len() - 1 {
                    assert(!old_top.contains(best));
                }
            }
            assert forall|i: int, l: int|
                0 <= i < top@.len() && 0 <= l < 26 && !top@.contains(l as usize) implies #[trigger] ranks_before(
                counts@,
                top@[i] as int,
                l,
            ) by {
                if old_top.contains(l as usize) {
                    let k = choose|k: int| 0 <= k < old_top.len() && old_top[k] == l as usize;
                    assert(top@[k] == l as usize);
                }
                assert(top@[old_top.len() as int] == best);
                assert(l != best);
                if i < old_top.len() {
                    assert(old_top[i] == top@[i]);
                    assert(ranks_before(counts@, old_top[i] as int, l));
                } else {
                    assert(!old_taken[l]);
                    assert(!taken[l]);
                }
            }
        }
    }
    top
}

/// Fewer than 26 letters leave one of the alphabet out.
proof fn lemma_some_letter_free(top: Seq<usize>)
    requires
        top.len() < 26,
    ensures
        exists|l: int| 0 <= l < 26 && !#[trigger] top.contains(l as usize),
{
    if forall|l: int| 0 <= l < 26 ==> #[trigger] top.contains(l as usize) {
        let ints = top.map_values(|x: usize| x as int);
        let all = vstd::set_lib::set_int_range(0, 26);
        assert forall|l: int| all.contains(l) implies ints.to_set().contains(l) by {
            assert(top.contains(l as usize));
            let k = choose|k: int| 0 <= k < top.len() && top[k] == l as usize;
            assert(ints[k] == l);
        }
        vstd::set_lib::lemma_int_range(0, 26);
        ints.lemma_cardinality_of_set();
        vstd::set_lib::lemma_len_subset(all, ints.to_set());
    }
}

/// The contents of each vector of `v`.
pub open spec fn views(v: Seq<Vec<usize>>) -> Seq<Seq<usize>> {
    v.map_values(|o: Vec<usize>| o@)
}

/// The shifts that map each letter of `top` onto `e`.
pub open spec fn shifts_of(family: Substitution, top: Seq<usize>) -> Seq<usize> {
    top.map_values(|l: usize| shift_to_e(family, l as int))
}

/// `opts[g]` holds, for each residue class `g` modulo `period`, the shifts
/// that map its top letters onto `e`, in rank order.
pub open spec fn is_shift_options(family: Substitution, t: Seq<char>, period: int, opts: Seq<Seq<usize>>) -> bool {
    &&& opts.len() == period
    &&& forall|g: int| 0 <= g < period ==> #[trigger] is_class_option(family, t, period, g, opts[g])
}

/// `opt` holds the shifts for the top letters of residue class `g`.
pub open spec fn is_class_option(family: Substitution, t: Seq<char>, period: int, g: int, opt: Seq<usize>) -> bool {
    exists|top: Seq<usize>|
        is_top_letters(class_counts(t, period, g), top, letters_per_class(family)) && opt == shifts_of(
            family,
            top,
        )
}

/// Every key that picks, at each position, one of that position's options,
/// in lexicographic order of the choices (the first position varies slowest).
pub open spec fn key_product(opts: Seq<Seq<usize>>) -> Seq<Seq<usize>>
    decreases opts.len(),
{
    if opts.len() == 0 {
        seq![Seq::empty()]
    } else {
        extend_keys(key_product(opts.drop_last()), opts.last())
    }
}

/// Each key of `keys` followed by each of `opts`, in that order.
pub open spec fn extend_keys(keys: Seq<Seq<usize>>, opts: Seq<usize>) -> Seq<Seq<usize>> {
    Seq::new(
        keys.len() * opts.len(),
        |m: int| keys[m / opts.len() as int].push(opts[m % opts.len() as int]),
    )
}

/// The shift options of each residue class of `t` modulo `period`.
pub fn shift_options(family: &Substitution, t: &Vec<char>, period: usize) -> (opts: Vec<Vec<usize>>)
    requires
        period > 0,
    ensures
        is_shift_options(*family, t@, period as int, views(opts@)),
        forall|g: int| 0 <= g < period ==> valid_shifts(#[trigger] opts@[g]@),
{
    let n: usize = match family {
        Substitution::Vigenere => 3,
        Substitution::Beaufort => 2,
    };
    let mut opts: Vec<Vec<usize>> = Vec::new();
    for g in 0..period
        invariant
            period > 0,
            n == letters_per_class(*family),
            opts.len() == g,
            forall|h: int| 0 <= h < g ==> #[trigger] is_class_option(*family, t@, period as int, h, opts@[h]@),
            forall|h: int| 0 <= h < g ==> valid_shifts(#[trigger] opts@[h]@),
    {
        let counts = class_histogram(t, period, g);
        let top = top_letters(&counts, n);
        let mut shifts: Vec<usize> = Vec::new();
        for k in 0..n
            invariant
                n == letters_per_class(*family),
                top.len() == n,
                is_top_letters(class_counts(t@, period as int, g as int), top@, n as nat),
                forall|i: int| 0 <= i < top.len() ==> #[trigger] top@[i] < 26,
                shifts@ == shifts_of(*family, top@.take(k as int)),
                valid_shifts(shifts@),
        {
            let s: usize = match family {
                Substitution::Vigenere => (top[k] + 22) % 26,
                Substitution::Beaufort => (top[k] + 4) % 26,
            };
            shifts.push(s);
            assert(shifts@ =~= shifts_of(*family, top@.take(k + 1)));
        }
        assert(top@.take(n as int) =~= top@);
        let ghost old_opts = opts@;
        opts.push(shifts);
        proof {
            assert(opts@[g as int]@ == shifts_of(*family, top@));
            assert forall|h: int| 0 <= h <= g implies #[trigger] is_class_option(*family, t@, period as int, h, opts@[h]@) by {
                if h < g {
                    assert(opts@[h] == old_opts[h]);
                    assert(old_opts[h]@ == opts@[h]@);
                } else {
                    assert(is_top_letters(class_counts(t@, period as int, h), top@, letters_per_class(*family)));
                    assert(opts@[h]@ == shifts_of(*family, top@));
                }
            }
            assert forall|h: int| 0 <= h <= g implies valid_shifts(#[trigger] opts@[h]@) by {
                if h < g {
                    assert(opts@[h] == old_opts[h]);
                }
            }
        }
    }
    assert(views(opts@).len() == period);
    assert forall|g: int| 0 <= g < period implies #[trigger] is_class_option(*family, t@, period as int, g, views(opts@)[g]) by {
        assert(views(opts@)[g] == opts@[g]@);
        assert(opts@[g]@ == views(opts@)[g]);
    }
    opts
}

/// Every key built from `opts`, one option per position; see `key_product`.
pub fn cartesian_keys(opts: &Vec<Vec<usize>>) -> (keys: Vec<Vec<usize>>)
    ensures
        views(keys@) == key_product(views(opts@)),
{
    let ghost all = views(opts@);
    let mut keys: Vec<Vec<usize>> = Vec::new();
    keys.push(Vec::new());
    assert(views(keys@) =~= key_product(all.take(0)));
    for p in 0..opts.len()
        invariant
            all == views(opts@),
            views(keys@) == key_product(all.take(p as int)),
    {
        let o = &opts[p];
        let ghost prev = views(keys@);
        assert(all.take(p + 1).drop_last() =~= all.take(p as int));
        assert(all.take(p + 1).last() == o@);
        let mut next: Vec<Vec<usize>> = Vec::new();
        assert(views(next@) =~= extend_keys(prev, o@).take(0));
        assert(0 * o.len() == 0);
        for a in 0..keys.len()
            invariant
                prev == views(keys@),
                views(next@) == extend_keys(prev, o@).take(a * o.len()),
        {
            for b in 0..o.len()
                invariant
                    a < keys.len(),
                    prev == views(keys@),
                    views(next@) == extend_keys(prev, o@).take(a * o.len() + b),
            {
                let mut k = keys[a].clone();
                assert(k@ =~= keys@[a as int]@);
                k.push(o[b]);
                let ghost old_next = views(next@);
                next.push(k);
                proof {
                    assert(views(next@) =~= old_next.push(k@));
                    assert(prev[a as int] == keys@[a as int]@);
                    let m = a * o.len() + b;
                    assert(m / o.len() as int == a && m % o.len() as int == b) by {
                        vstd::arithmetic::div_mod::lemma_fundamental_div_mod_converse(
                            m as int, o.len() as int, a as int, b as int);
                    }
                    assert(m < keys.len() * o.len()) by (nonlinear_arith)
                        requires m == a * o.len() + b, a < keys.len(), b < o.len();
                    assert(extend_keys(prev, o@)[m as int] == prev[a as int].push(o@[b as int]));
                    assert(views(next@) =~= extend_keys(prev, o@).take(m + 1));
                }
            }
            assert((a + 1) * o.len() == a * o.len() + o.len()) by (nonlinear_arith);
        }
        assert(extend_keys(prev, o@).take(keys.len() * o.len()) =~= extend_keys(prev, o@));
        keys = next;
    }
    assert(all.take(opts.len() as int) =~= all);
    keys
}

/// `n!`
pub open spec fn factorial(n: nat) -> nat
    decreases n,
{
    if n == 0 {
        1
    } else {
        n * factorial((n - 1) as nat)
    }
}

/// `keys` lists every permutation of `{0, .., len - 1}`, each once.
pub open spec fn is_ordering_list(keys: Seq<Seq<usize>>, len: nat) -> bool {
    &&& keys.len() == factorial(len)
    &&& forall|i: int| 0 <= i < keys.len() ==> is_permutation(#[trigger] keys[i], len as int)
    &&& forall|i: int, j: int| 0 <= i < j < keys.len() ==> #[trigger] keys[i] != #[trigger] keys[j]
    &&& forall|k: Seq<usize>| #[trigger] is_permutation(k, len as int) ==> keys.contains(k)
}

/// Relies on `Itertools::permutations` applied to `0..len` with `k = len`:
/// it yields all `len`-permutations of the range, and since the values are
/// distinct, each ordering exactly once, `len!` in all.
#[verifier::external_body]
pub(crate) fn permutations_of(len: usize) -> (keys: Vec<Vec<usize>>)
    requires
        len > 0,
    ensures
        is_ordering_list(views(keys@), len as nat),
{
    (0..len).permutations(len).collect()
}

} // verus!
