//! Inverse transposition transforms: columnar and periodic.
use vstd::prelude::*;
use crate::text::{chars_of, string_of};

verus! {

/// `key` is a permutation of `{0, .., len - 1}`.
pub open spec fn is_permutation(key: Seq<usize>, len: int) -> bool {
    &&& key.len() == len
    &&& forall|i: int| 0 <= i < len ==> #[trigger] key[i] < len
    &&& forall|i: int, j: int| 0 <= i < j < len ==> #[trigger] key[i] != #[trigger] key[j]
    &&& forall|v: int| 0 <= v < len ==> #[trigger] holds_value(key, v)
}

/// Some entry of `key` equals `v`.
pub open spec fn holds_value(key: Seq<usize>, v: int) -> bool {
    exists|i: int| 0 <= i < key.len() && key[i] == v
}

/// The index at which `key` holds `v`.
pub open spec fn position_of(key: Seq<usize>, v: int) -> int {
    choose|i: int| 0 <= i < key.len() && key[i] == v
}

/// The length of column `c` when `n` characters fill a grid with `cols`
/// columns row by row: the first `n mod cols` columns hold one extra row.
pub open spec fn block_len(n: int, cols: int, c: int) -> int {
    if c < n % cols { n / cols + 1 } else { n / cols }
}

/// The total length of the columns `c < m` that `key` reads before the
/// column it ranks `v`.
pub open spec fn start_before(key: Seq<usize>, n: int, v: int, m: int) -> int
    decreases m,
{
    if m <= 0 {
        0
    } else {
        start_before(key, n, v, m - 1) + if key[m - 1] < v {
            block_len(n, key.len() as int, m - 1)
        } else {
            0
        }
    }
}

/// Where column `c` starts in the ciphertext: after every column that
/// `key` ranks before it.
pub open spec fn col_start(key: Seq<usize>, n: int, c: int) -> int {
    start_before(key, n, key[c] as int, key.len() as int)
}

/// The plaintext index of row `row` of column `c`. The default layout is
/// row-major (`row * cols + c`); the transposed one lays the columns out one
/// after another, each with its own length.
pub open spec fn cell_pos(n: int, cols: int, transpose: bool, c: int, row: int) -> int {
    if transpose {
        c * (n / cols) + row + if c < n % cols { c } else { n % cols }
    } else {
        row * cols + c
    }
}

/// The column of plaintext index `j`; the inverse of `cell_pos`.
pub open spec fn cell_col(n: int, cols: int, transpose: bool, j: int) -> int {
    let s = n / cols;
    let r = n % cols;
    if !transpose {
        j % cols
    } else if j < r * (s + 1) {
        j / (s + 1)
    } else {
        r + (j - r * (s + 1)) / s
    }
}

/// The row of plaintext index `j`; the inverse of `cell_pos`.
pub open spec fn cell_row(n: int, cols: int, transpose: bool, j: int) -> int {
    let s = n / cols;
    let r = n % cols;
    if !transpose {
        j / cols
    } else if j < r * (s + 1) {
        j % (s + 1)
    } else {
        (j - r * (s + 1)) % s
    }
}

/// The columnar inverse: plaintext index `j` takes the character at row
/// `cell_row(j)` of the ciphertext block of column `cell_col(j)`.
pub open spec fn columnar_plain(cipher: Seq<char>, key: Seq<usize>, transpose: bool) -> Seq<char> {
    let n = cipher.len() as int;
    let cols = key.len() as int;
    Seq::new(
        cipher.len(),
        |j: int|
            cipher[col_start(key, n, cell_col(n, cols, transpose, j)) + cell_row(
                n,
                cols,
                transpose,
                j,
            )],
    )
}

/// The column whose ciphertext block holds index `t`.
pub open spec fn block_of(key: Seq<usize>, n: int, t: int) -> int {
    choose|c: int|
        0 <= c < key.len() && #[trigger] col_start(key, n, c) <= t < col_start(key, n, c) + block_len(
            n,
            key.len() as int,
            c,
        )
}

/// Columnar transposition: the plaintext is laid out in `key.len()`
/// columns and the columns are read out in the order that `key` ranks them.
pub open spec fn columnar_cipher(plain: Seq<char>, key: Seq<usize>, transpose: bool) -> Seq<char> {
    let n = plain.len() as int;
    let cols = key.len() as int;
    Seq::new(
        plain.len(),
        |t: int|
            plain[cell_pos(
                n,
                cols,
                transpose,
                block_of(key, n, t),
                t - col_start(key, n, block_of(key, n, t)),
            )],
    )
}

/// Periodic transposition: within each complete block of `key.len()`
/// characters, position `i` takes the character at position `key[i]`; a
/// shorter tail stays as it is.
pub open spec fn periodic_cipher(plain: Seq<char>, key: Seq<usize>) -> Seq<char> {
    let p = key.len() as int;
    let full = (plain.len() as int / p) * p;
    Seq::new(
        plain.len(),
        |t: int|
            if t < full {
                plain[t - t % p + key[t % p] as int]
            } else {
                plain[t]
            },
    )
}

/// The periodic inverse: within each complete block, the character at
/// position `i` moves to position `key[i]`; a shorter tail stays as it is.
pub open spec fn periodic_plain(cipher: Seq<char>, key: Seq<usize>) -> Seq<char> {
    let p = key.len() as int;
    let full = (cipher.len() as int / p) * p;
    Seq::new(
        cipher.len(),
        |j: int|
            if j < full {
                cipher[j - j % p + position_of(key, j % p)]
            } else {
                cipher[j]
            },
    )
}

proof fn lemma_position_of(key: Seq<usize>, v: int)
    requires
        is_permutation(key, key.len() as int),
        0 <= v < key.len(),
    ensures
        0 <= position_of(key, v) < key.len(),
        key[position_of(key, v)] == v,
        forall|i: int| 0 <= i < key.len() && key[i] == v ==> i == position_of(key, v),
{
    assert(holds_value(key, v));
}

/// The inverse permutation: `inv[key[i]] == i`.
pub fn invert_key(key: &Vec<usize>) -> (inv: Vec<usize>)
    requires
        is_permutation(key@, key.len() as int),
    ensures
        inv.len() == key.len(),
        forall|i: int| 0 <= i < key.len() ==> #[trigger] inv[key[i] as int] == i,
        forall|v: int| 0 <= v < key.len() ==> #[trigger] inv[v] == position_of(key@, v),
{
    let n = key.len();
    let mut inv: Vec<usize> = vec![0; n];
    for i in 0..n
        invariant
            n == key.len(),
            inv.len() == n,
            is_permutation(key@, n as int),
            forall|k: int| 0 <= k < i ==> #[trigger] inv[key[k] as int] == k,
    {
        let ghost before = inv@;
        inv.set(key[i], i);
        assert forall|k: int| 0 <= k < i + 1 implies #[trigger] inv[key[k] as int] == k by {
            if k < i {
                assert(key[k] != key[i as int]);
                assert(before[key[k] as int] == k);
            }
        }
    }
    assert forall|v: int| 0 <= v < n implies #[trigger] inv[v] == position_of(key@, v) by {
        lemma_position_of(key@, v);
        assert(inv[key[position_of(key@, v)] as int] == position_of(key@, v));
    }
    inv
}

proof fn lemma_block_len(n: int, cols: int, c: int)
    requires
        n >= 0,
        cols > 0,
    ensures
        block_len(n, cols, c) >= 0,
        n == cols * (n / cols) + n % cols,
        0 <= n % cols < cols,
        n / cols >= 0,
{
    vstd::arithmetic::div_mod::lemma_fundamental_div_mod(n, cols);
    vstd::arithmetic::div_mod::lemma_div_pos_is_pos(n, cols);
}

/// The columns before `m` add up to `m` rows plus one extra character for
/// each of them that is among the first `n mod cols`.
proof fn lemma_start_total(key: Seq<usize>, n: int, m: int)
    requires
        n >= 0,
        key.len() > 0,
        0 <= m <= key.len(),
        forall|i: int| 0 <= i < key.len() ==> #[trigger] key[i] < key.len(),
    ensures
        start_before(key, n, key.len() as int, m) == m * (n / key.len() as int) + if m < n
            % key.len() as int {
            m
        } else {
            n % key.len() as int
        },
    decreases m,
{
    let cols = key.len() as int;
    let s = n / cols;
    let r = n % cols;
    lemma_block_len(n, cols, m - 1);
    if m > 0 {
        lemma_start_total(key, n, m - 1);
        assert(key[m - 1] < cols);
        assert(m * s == (m - 1) * s + s) by (nonlinear_arith);
        assert(start_before(key, n, cols, m) == start_before(key, n, cols, m - 1) + block_len(
            n,
            cols,
            m - 1,
        ));
        assert(start_before(key, n, cols, m - 1) == (m - 1) * s + if m - 1 < r {
            m - 1
        } else {
            r
        });
    } else {
        assert(m * s == 0) by (nonlinear_arith)
            requires m == 0;
    }
}

/// Raising the rank bound from `v` to `v + 1` adds the block of the one
/// column `c0` that `key` ranks `v`, once `c0` is among the first `m`.
proof fn lemma_start_step(key: Seq<usize>, n: int, c0: int, m: int)
    requires
        n >= 0,
        is_permutation(key, key.len() as int),
        0 <= c0 < key.len(),
        0 <= m <= key.len(),
    ensures
        start_before(key, n, key[c0] + 1, m) == start_before(key, n, key[c0] as int, m) + if c0 < m {
            block_len(n, key.len() as int, c0)
        } else {
            0
        },
    decreases m,
{
    if m > 0 {
        lemma_start_step(key, n, c0, m - 1);
        if m - 1 != c0 {
            if m - 1 < c0 {
                assert(key[m - 1] != key[c0]);
            } else {
                assert(key[c0] != key[m - 1]);
            }
        }
    }
}

/// `start_before` grows with the rank bound.
proof fn lemma_start_mono(key: Seq<usize>, n: int, v: int, w: int, m: int)
    requires
        n >= 0,
        key.len() > 0,
        v <= w,
        0 <= m <= key.len(),
    ensures
        start_before(key, n, v, m) <= start_before(key, n, w, m),
    decreases m,
{
    if m > 0 {
        lemma_start_mono(key, n, v, w, m - 1);
        lemma_block_len(n, key.len() as int, m - 1);
    }
}

/// Column `c`'s block ends where the next-ranked block starts, within the text.
proof fn lemma_col_block(key: Seq<usize>, n: int, c: int)
    requires
        n >= 0,
        is_permutation(key, key.len() as int),
        key.len() > 0,
        0 <= c < key.len(),
    ensures
        0 <= col_start(key, n, c),
        col_start(key, n, c) + block_len(n, key.len() as int, c) == start_before(
            key,
            n,
            key[c] + 1,
            key.len() as int,
        ),
        col_start(key, n, c) + block_len(n, key.len() as int, c) <= n,
{
    let cols = key.len() as int;
    lemma_start_step(key, n, c, cols);
    lemma_start_mono(key, n, 0, key[c] as int, cols);
    lemma_start_mono(key, n, key[c] + 1, cols, cols);
    lemma_start_total(key, n, cols);
    lemma_block_len(n, cols, c);
    lemma_start_zero(key, n, cols);
}

proof fn lemma_start_zero(key: Seq<usize>, n: int, m: int)
    requires
        0 <= m <= key.len(),
    ensures
        start_before(key, n, 0, m) == 0,
    decreases m,
{
    if m > 0 {
        lemma_start_zero(key, n, m - 1);
    }
}

/// The blocks of two different columns do not overlap.
proof fn lemma_blocks_disjoint(key: Seq<usize>, n: int, c: int, d: int, t: int)
    requires
        n >= 0,
        is_permutation(key, key.len() as int),
        key.len() > 0,
        0 <= c < key.len(),
        0 <= d < key.len(),
        col_start(key, n, c) <= t < col_start(key, n, c) + block_len(n, key.len() as int, c),
        col_start(key, n, d) <= t < col_start(key, n, d) + block_len(n, key.len() as int, d),
    ensures
        c == d,
{
    let cols = key.len() as int;
    if c != d {
        if c < d {
            assert(key[c] != key[d]);
        } else {
            assert(key[d] != key[c]);
        }
        lemma_col_block(key, n, c);
        lemma_col_block(key, n, d);
        if key[c] < key[d] {
            lemma_start_mono(key, n, key[c] + 1, key[d] as int, cols);
        } else {
            lemma_start_mono(key, n, key[d] + 1, key[c] as int, cols);
        }
    }
}

/// Row `row` of column `c` sits at a plaintext index that maps back to them.
proof fn lemma_cell_pos(n: int, cols: int, transpose: bool, c: int, row: int)
    requires
        n >= 0,
        cols > 0,
        0 <= c < cols,
        0 <= row < block_len(n, cols, c),
    ensures
        0 <= cell_pos(n, cols, transpose, c, row) < n,
        cell_col(n, cols, transpose, cell_pos(n, cols, transpose, c, row)) == c,
        cell_row(n, cols, transpose, cell_pos(n, cols, transpose, c, row)) == row,
{
    let s = n / cols;
    let r = n % cols;
    lemma_block_len(n, cols, c);
    let p = cell_pos(n, cols, transpose, c, row);
    if !transpose {
        vstd::arithmetic::div_mod::lemma_fundamental_div_mod_converse(p, cols, row, c);
        if c < r {
            assert(row * cols <= s * cols) by (nonlinear_arith)
                requires row <= s, cols > 0;
        } else {
            assert(row * cols + cols <= s * cols) by (nonlinear_arith)
                requires row + 1 <= s, cols > 0;
        }
        assert(cols * s == s * cols) by (nonlinear_arith);
    } else if c < r {
        assert(p == c * (s + 1) + row) by (nonlinear_arith)
            requires p == c * s + row + c;
        assert(c * (s + 1) + row < r * (s + 1)) by (nonlinear_arith)
            requires c + 1 <= r, row <= s, s >= 0;
        assert(r * (s + 1) <= n) by (nonlinear_arith)
            requires n == cols * s + r, r < cols, s >= 0;
        vstd::arithmetic::div_mod::lemma_fundamental_div_mod_converse(p, s + 1, c, row);
    } else {
        let k = p - r * (s + 1);
        assert(k == (c - r) * s + row) by (nonlinear_arith)
            requires p == c * s + row + r, k == p - r * (s + 1);
        assert((c - r) * s + row < (cols - r) * s) by (nonlinear_arith)
            requires c + 1 <= cols, row < s, c >= r, s >= 0;
        assert(n - r * (s + 1) == (cols - r) * s) by (nonlinear_arith)
            requires n == cols * s + r;
        assert((c - r) * s >= 0) by (nonlinear_arith)
            requires c >= r, s >= 0;
        vstd::arithmetic::div_mod::lemma_fundamental_div_mod_converse(k, s, c - r, row);
    }
}

/// Every plaintext index is a cell of some column, within that column's length.
proof fn lemma_cell_of(n: int, cols: int, transpose: bool, j: int)
    requires
        n >= 0,
        cols > 0,
        0 <= j < n,
    ensures
        0 <= cell_col(n, cols, transpose, j) < cols,
        0 <= cell_row(n, cols, transpose, j) < block_len(n, cols, cell_col(n, cols, transpose, j)),
        cell_pos(
            n,
            cols,
            transpose,
            cell_col(n, cols, transpose, j),
            cell_row(n, cols, transpose, j),
        ) == j,
{
    let s = n / cols;
    let r = n % cols;
    lemma_block_len(n, cols, 0);
    let c = cell_col(n, cols, transpose, j);
    let row = cell_row(n, cols, transpose, j);
    if !transpose {
        vstd::arithmetic::div_mod::lemma_fundamental_div_mod(j, cols);
        vstd::arithmetic::div_mod::lemma_div_pos_is_pos(j, cols);
        vstd::arithmetic::div_mod::lemma_div_is_ordered(j, n, cols);
        if c >= r && row >= s {
            assert(row * cols >= s * cols) by (nonlinear_arith)
                requires row >= s, cols > 0;
            assert(cols * row == row * cols) by (nonlinear_arith);
            assert(cols * s == s * cols) by (nonlinear_arith);
        }
        assert(cols * row == row * cols) by (nonlinear_arith);
    } else if j < r * (s + 1) {
        assert(s + 1 > 0);
        vstd::arithmetic::div_mod::lemma_fundamental_div_mod(j, s + 1);
        vstd::arithmetic::div_mod::lemma_div_pos_is_pos(j, s + 1);
        if c >= r {
            assert((s + 1) * c >= (s + 1) * r) by (nonlinear_arith)
                requires c >= r, s >= 0;
            assert((s + 1) * r == r * (s + 1)) by (nonlinear_arith);
        }
        assert(c * s + row + c == (s + 1) * c + row) by (nonlinear_arith);
    } else {
        let k = j - r * (s + 1);
        if s == 0 {
            assert(r * (s + 1) == r) by (nonlinear_arith)
                requires s == 0;
            assert(n == r) by (nonlinear_arith)
                requires n == cols * s + r, s == 0;
        }
        assert(s > 0);
        assert(n - r * (s + 1) == (cols - r) * s) by (nonlinear_arith)
            requires n == cols * s + r;
        vstd::arithmetic::div_mod::lemma_fundamental_div_mod(k, s);
        vstd::arithmetic::div_mod::lemma_div_pos_is_pos(k, s);
        if k / s >= cols - r {
            assert(s * (k / s) >= s * (cols - r)) by (nonlinear_arith)
                requires k / s >= cols - r, s > 0;
            assert(s * (cols - r) == (cols - r) * s) by (nonlinear_arith);
        }
        assert((r + k / s) * s + k % s + r == j) by (nonlinear_arith)
            requires k == s * (k / s) + k % s, k == j - r * (s + 1);
    }
}

/// The columnar inverse on characters; see `columnar_plain`.
pub fn columnar_decrypt(cipher: &Vec<char>, key: &Vec<usize>, transpose: bool) -> (plain: Vec<char>)
    requires
        key.len() > 0,
        is_permutation(key@, key.len() as int),
    ensures
        plain@ == columnar_plain(cipher@, key@, transpose),
{
    let n = cipher.len();
    let cols = key.len();
    let s = n / cols;
    let r = n % cols;
    let ghost spec_plain = columnar_plain(cipher@, key@, transpose);
    let mut out: Vec<char> = vec!['\0'; n];
    let inv = invert_key(key);
    let mut offset: usize = 0;
    proof {
        lemma_start_zero(key@, n as int, cols as int);
    }
    for idx in 0..cols
        invariant
            n == cipher.len(),
            spec_plain == columnar_plain(cipher@, key@, transpose),
            cols == key.len(),
            cols > 0,
            s == n / cols,
            r == n % cols,
            is_permutation(key@, cols as int),
            inv.len() == cols,
            forall|v: int| 0 <= v < cols ==> #[trigger] inv[v] == position_of(key@, v),
            out.len() == n,
            offset == start_before(key@, n as int, idx as int, cols as int),
            forall|j: int|
                0 <= j < n && key[cell_col(n as int, cols as int, transpose, j)] < idx ==> #[trigger] out[j]
                    == spec_plain[j],
    {
        let col = inv[idx];
        proof {
            lemma_position_of(key@, idx as int);
            lemma_col_block(key@, n as int, col as int);
            lemma_block_len(n as int, cols as int, col as int);
        }
        let row_len = if col < r { s + 1 } else { s };
        let ghost before = out@;
        for row in 0..row_len
            invariant
                n == cipher.len(),
                spec_plain == columnar_plain(cipher@, key@, transpose),
                cols == key.len(),
                cols > 0,
                s == n / cols,
                r == n % cols,
                is_permutation(key@, cols as int),
                col < cols,
                key[col as int] == idx,
                row_len == block_len(n as int, cols as int, col as int),
                offset == col_start(key@, n as int, col as int),
                offset + row_len <= n,
                out.len() == n,
                forall|j: int|
                    0 <= j < n && key[cell_col(n as int, cols as int, transpose, j)] < idx ==> #[trigger] out[j]
                        == spec_plain[j],
                forall|j: int|
                    0 <= j < n && cell_col(n as int, cols as int, transpose, j) == col && 0 <= cell_row(
                        n as int,
                        cols as int,
                        transpose,
                        j,
                    ) < row ==> #[trigger] out[j] == spec_plain[j],
        {
            proof {
                lemma_cell_pos(n as int, cols as int, transpose, col as int, row as int);
            }
            let pos: usize = if transpose {
                col * s + row + if col < r { col } else { r }
            } else {
                row * cols + col
            };
            assert(pos == cell_pos(n as int, cols as int, transpose, col as int, row as int));
            let ghost prev = out@;
            out.set(pos, cipher[offset + row]);
            proof {
                assert forall|j: int|
                    0 <= j < n && cell_col(n as int, cols as int, transpose, j) == col && 0 <= cell_row(
                        n as int,
                        cols as int,
                        transpose,
                        j,
                    ) < row + 1 implies #[trigger] out[j] == spec_plain[j] by {
                    lemma_cell_of(n as int, cols as int, transpose, j);
                    if j != pos {
                        assert(out[j] == prev[j]);
                        if cell_row(n as int, cols as int, transpose, j) == row {
                            assert(j == pos);
                        }
                    } else {
                        assert(out[j] == cipher@[offset + row]);
                        assert(spec_plain[j] == cipher@[col_start(key@, n as int, col as int) + row]);
                    }
                }
                assert forall|j: int|
                    0 <= j < n && key[cell_col(n as int, cols as int, transpose, j)] < idx implies #[trigger] out[j]
                    == spec_plain[j] by {
                    if j == pos {
                        assert(cell_col(n as int, cols as int, transpose, j) == col);
                    } else {
                        assert(out[j] == prev[j]);
                    }
                }
            }
        }
        proof {
            assert forall|j: int|
                0 <= j < n && key[cell_col(n as int, cols as int, transpose, j)] < idx + 1 implies #[trigger] out[j]
                == spec_plain[j] by {
                lemma_cell_of(n as int, cols as int, transpose, j);
                let c = cell_col(n as int, cols as int, transpose, j);
                if key[c] == idx && c != col {
                    if c < col {
                        assert(key[c] != key[col as int]);
                    } else {
                        assert(key[col as int] != key[c]);
                    }
                }
            }
            lemma_start_step(key@, n as int, col as int, cols as int);
        }
        offset = offset + row_len;
    }
    proof {
        assert forall|j: int| 0 <= j < n implies #[trigger] out[j] == spec_plain[j] by {
            lemma_cell_of(n as int, cols as int, transpose, j);
        }
    }
    assert(out@ =~= spec_plain);
    out
}

/// Decrypts a columnar transposition: the ciphertext is cut into one block
/// per column, in the order that `key` ranks the columns, and the blocks are
/// laid back out as columns of the plaintext grid (`transpose` picks the
/// layout; see `cell_pos`).
pub fn columnar_inv(text: &str, key: &Vec<usize>, transpose: bool) -> (r: String)
    requires
        key.len() > 0,
        is_permutation(key@, key.len() as int),
    ensures
        r@ == columnar_plain(text@, key@, transpose),
{
    let chars = chars_of(text);
    string_of(&columnar_decrypt(&chars, key, transpose))
}

/// Decrypting a columnar transposition with the key that made it gives the
/// plaintext back, in either layout.
pub proof fn lemma_columnar_round_trip(plain: Seq<char>, key: Seq<usize>, transpose: bool)
    requires
        key.len() > 0,
        is_permutation(key, key.len() as int),
    ensures
        columnar_plain(columnar_cipher(plain, key, transpose), key, transpose) == plain,
{
    let n = plain.len() as int;
    let cols = key.len() as int;
    let cipher = columnar_cipher(plain, key, transpose);
    assert forall|j: int| 0 <= j < n implies #[trigger] columnar_plain(cipher, key, transpose)[j] == plain[j] by {
        lemma_cell_of(n, cols, transpose, j);
        let c = cell_col(n, cols, transpose, j);
        let row = cell_row(n, cols, transpose, j);
        lemma_col_block(key, n, c);
        let t = col_start(key, n, c) + row;
        assert(col_start(key, n, c) <= t < col_start(key, n, c) + block_len(n, cols, c));
        let d = block_of(key, n, t);
        lemma_blocks_disjoint(key, n, c, d, t);
    }
    assert(columnar_plain(cipher, key, transpose) =~= plain);
}

/// The periodic inverse on characters; see `periodic_plain`.
pub fn periodic_decrypt(cipher: &Vec<char>, key: &Vec<usize>) -> (plain: Vec<char>)
    requires
        key.len() > 0,
        is_permutation(key@, key.len() as int),
    ensures
        plain@ == periodic_plain(cipher@, key@),
{
    let n = cipher.len();
    let p = key.len();
    let ghost spec_plain = periodic_plain(cipher@, key@);
    let ghost full = (n as int / p as int) * p as int;
    let inv = invert_key(key);
    let mut out: Vec<char> = Vec::new();
    let mut base: usize = 0;
    let ghost mut q: int = 0;
    proof {
        lemma_block_len(n as int, p as int, 0);
        assert(full <= n) by (nonlinear_arith)
            requires full == (n as int / p as int) * p as int, n == p * (n as int / p as int) + n as int % p as int, n as int % p as int >= 0;
    }
    while base < n && p <= n - base
        invariant
            n == cipher.len(),
            p == key.len(),
            p > 0,
            is_permutation(key@, p as int),
            inv.len() == p,
            forall|v: int| 0 <= v < p ==> #[trigger] inv[v] == position_of(key@, v),
            spec_plain == periodic_plain(cipher@, key@),
            full == (n as int / p as int) * p as int,
            full <= n,
            0 <= q,
            base == q * p,
            base <= full,
            out@ == spec_plain.take(base as int),
        decreases n - base,
    {
        proof {
            vstd::arithmetic::div_mod::lemma_fundamental_div_mod(n as int, p as int);
            assert((q + 1) * p <= n) by (nonlinear_arith)
                requires base == q * p, base + p <= n;
            assert(q + 1 <= n as int / p as int) by {
                vstd::arithmetic::div_mod::lemma_div_is_ordered((q + 1) * p, n as int, p as int);
                vstd::arithmetic::div_mod::lemma_div_by_multiple(q + 1, p as int);
            }
            assert(base + p <= full) by (nonlinear_arith)
                requires base == q * p, q + 1 <= n as int / p as int, full == (n as int / p as int) * p, p > 0;
        }
        for v in 0..p
            invariant
                n == cipher.len(),
                p == key.len(),
                p > 0,
                inv.len() == p,
                is_permutation(key@, p as int),
                forall|v: int| 0 <= v < p ==> #[trigger] inv[v] == position_of(key@, v),
                spec_plain == periodic_plain(cipher@, key@),
                full == (n as int / p as int) * p as int,
                base == q * p,
                base + p <= full,
                full <= n,
                out@ == spec_plain.take(base + v),
        {
            proof {
                lemma_position_of(key@, v as int);
                let j = base + v;
                assert(j % p as int == v && j - j % p as int == base) by {
                    vstd::arithmetic::div_mod::lemma_fundamental_div_mod_converse(j as int, p as int, q, v as int);
                }
            }
            out.push(cipher[base + inv[v]]);
            assert(out@ =~= spec_plain.take(base + v + 1));
        }
        base = base + p;
        proof {
            q = q + 1;
            assert(base == q * p) by (nonlinear_arith)
                requires base == (q - 1) * p + p;
        }
    }
    proof {
        if base < full {
            assert(base + p <= full) by (nonlinear_arith)
                requires base == q * p, base < full, full == (n as int / p as int) * p, p > 0;
        }
    }
    while base < n
        invariant
            n == cipher.len(),
            p == key.len(),
            p > 0,
            spec_plain == periodic_plain(cipher@, key@),
            full == (n as int / p as int) * p as int,
            full <= base <= n,
            out@ == spec_plain.take(base as int),
        decreases n - base,
    {
        out.push(cipher[base]);
        assert(out@ =~= spec_plain.take(base + 1));
        base = base + 1;
    }
    assert(out@ =~= spec_plain);
    out
}

/// Decrypts a periodic transposition: within each complete block of
/// `key.len()` characters, the character at position `i` moves to position
/// `key[i]`; a trailing shorter block is passed through as it is.
pub fn periodic_inv(text: &str, key: &Vec<usize>) -> (r: String)
    requires
        key.len() > 0,
        is_permutation(key@, key.len() as int),
    ensures
        r@ == periodic_plain(text@, key@),
{
    let chars = chars_of(text);
    string_of(&periodic_decrypt(&chars, key))
}

/// Decrypting a periodic transposition with the key that made it gives the
/// plaintext back.
pub proof fn lemma_periodic_round_trip(plain: Seq<char>, key: Seq<usize>)
    requires
        key.len() > 0,
        is_permutation(key, key.len() as int),
    ensures
        periodic_plain(periodic_cipher(plain, key), key) == plain,
{
    let n = plain.len() as int;
    let p = key.len() as int;
    let full = (n / p) * p;
    let cipher = periodic_cipher(plain, key);
    lemma_block_len(n, p, 0);
    assert(full <= n) by (nonlinear_arith)
        requires full == (n / p) * p, n == p * (n / p) + n % p, n % p >= 0;
    assert forall|j: int| 0 <= j < n implies #[trigger] periodic_plain(cipher, key)[j] == plain[j] by {
        if j < full {
            let v = j % p;
            vstd::arithmetic::div_mod::lemma_fundamental_div_mod(j, p);
            assert(0 <= v < p);
            lemma_position_of(key, v);
            let i = position_of(key, v);
            let t = j - v + i;
            let b = j - v;
            assert(b == p * (j / p));
            vstd::arithmetic::div_mod::lemma_div_pos_is_pos(j, p);
            assert(t == (j / p) * p + i) by (nonlinear_arith)
                requires t == j - v + i, j == p * (j / p) + v;
            vstd::arithmetic::div_mod::lemma_fundamental_div_mod_converse(t, p, j / p, i);
            assert(t < full) by (nonlinear_arith)
                requires t == p * (j / p) + i, i < p, j < full, full == (n / p) * p, j == p * (j / p) + v, 0 <= v, p > 0;
            assert(t % p == i);
            assert(0 <= t < n);
            assert(t - t % p == b);
            assert(cipher[t] == plain[t - t % p + key[t % p] as int]);
            assert(key[i] == v);
            assert(periodic_plain(cipher, key)[j] == cipher[t]);
        }
    }
    assert(periodic_plain(cipher, key) =~= plain);
}

} // verus!
