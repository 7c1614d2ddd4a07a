//! Inversion of a square matrix over GF(2), each row packed into a `u64`, for the
//! "click matrix" of Lights Out. Column `j` of a matrix of size `n` is bit `n - 1 - j`.

use vstd::prelude::*;

verus! {

/// Bit `j` of `x` is set.
pub open spec fn bit(x: u64, j: u64) -> bool {
    (x >> j) & 1u64 == 1u64
}

/// The bit that holds column `j` of a row of a matrix of size `size`.
pub open spec fn col(size: nat, j: nat) -> u64 {
    (size - 1 - j) as u64
}

/// The exclusive or of those of the first `k` rows of `m` that `sel` selects
/// (row `i` where column `i` of `sel` is set).
pub open spec fn combo(m: Seq<u64>, sel: u64, size: nat, k: nat) -> u64
    decreases k,
{
    if k == 0 {
        0u64
    } else {
        let i = (k - 1) as nat;
        combo(m, sel, size, i) ^ (if bit(sel, col(size, i)) { m[i as int] } else { 0u64 })
    }
}

/// The row `sel` times the matrix `m`, over GF(2).
pub open spec fn row_times(m: Seq<u64>, sel: u64, size: nat) -> u64 {
    combo(m, sel, size, size)
}

proof fn lemma_xor_bit(a: u64, b: u64, j: u64)
    requires
        j < 64,
    ensures
        bit(a ^ b, j) == (bit(a, j) != bit(b, j)),
{
    assert(((a ^ b) >> j) & 1u64 == 1u64 <==> (((a >> j) & 1u64 == 1u64) != ((b >> j) & 1u64 == 1u64)))
        by (bit_vector)
        requires j < 64;
}

proof fn lemma_xor_algebra(a: u64, b: u64, c: u64, d: u64)
    ensures
        (a ^ b) ^ (c ^ d) == (a ^ c) ^ (b ^ d),
        a ^ 0u64 == a,
        0u64 ^ a == a,
        a ^ a == 0u64,
        (a ^ b) ^ b == a,
{
    assert((a ^ b) ^ (c ^ d) == (a ^ c) ^ (b ^ d)) by (bit_vector);
    assert(a ^ 0u64 == a) by (bit_vector);
    assert(0u64 ^ a == a) by (bit_vector);
    assert(a ^ a == 0u64) by (bit_vector);
    assert((a ^ b) ^ b == a) by (bit_vector);
}

proof fn lemma_one_shl_bit(a: u64, b: u64)
    requires
        a < 64,
        b < 64,
    ensures
        bit(1u64 << a, b) == (a == b),
{
    assert((((1u64 << a) >> b) & 1u64 == 1u64) == (a == b)) by (bit_vector)
        requires a < 64, b < 64;
}

proof fn lemma_mask_bit(x: u64, s: u64)
    requires
        s < 64,
    ensures
        ((x & (1u64 << s)) != 0u64) == bit(x, s),
{
    assert(((x & (1u64 << s)) != 0u64) == ((x >> s) & 1u64 == 1u64)) by (bit_vector)
        requires s < 64;
}

/// Selecting by `a ^ b` gives the exclusive or of selecting by `a` and by `b`.
proof fn lemma_combo_xor(m: Seq<u64>, a: u64, b: u64, size: nat, k: nat)
    requires
        k <= size <= 64,
        m.len() >= size,
    ensures
        combo(m, a ^ b, size, k) == combo(m, a, size, k) ^ combo(m, b, size, k),
    decreases k,
{
    if k == 0 {
        lemma_xor_algebra(0u64, 0u64, 0u64, 0u64);
    } else {
        let i = (k - 1) as nat;
        lemma_combo_xor(m, a, b, size, i);
        let j = col(size, i);
        lemma_xor_bit(a, b, j);
        let ta = if bit(a, j) { m[i as int] } else { 0u64 };
        let tb = if bit(b, j) { m[i as int] } else { 0u64 };
        let tab = if bit(a ^ b, j) { m[i as int] } else { 0u64 };
        lemma_xor_algebra(m[i as int], 0u64, 0u64, 0u64);
        lemma_xor_algebra(combo(m, a, size, i), combo(m, b, size, i), ta, tb);
        lemma_xor_algebra(0u64, 0u64, 0u64, 0u64);
        if bit(a, j) {
            if bit(b, j) {
                assert(tab == 0u64);
            } else {
                assert(tab == m[i as int]);
            }
        } else {
            if bit(b, j) {
                assert(tab == m[i as int]);
            } else {
                assert(tab == 0u64);
            }
        }
        assert(tab == ta ^ tb);
    }
}

/// Selecting by the unit row of column `i` picks row `i` alone.
proof fn lemma_combo_unit(m: Seq<u64>, i: nat, size: nat, k: nat)
    requires
        i < size <= 64,
        k <= size,
        m.len() >= size,
    ensures
        combo(m, 1u64 << col(size, i), size, k) == if i < k { m[i as int] } else { 0u64 },
    decreases k,
{
    if k > 0 {
        let q = (k - 1) as nat;
        lemma_combo_unit(m, i, size, q);
        lemma_one_shl_bit(col(size, i), col(size, q));
        let prev = combo(m, 1u64 << col(size, i), size, q);
        lemma_xor_algebra(prev, 0u64, 0u64, 0u64);
        lemma_xor_algebra(m[i as int], 0u64, 0u64, 0u64);
        assert((col(size, i) == col(size, q)) == (i == q));
        if i == q {
            assert(prev == 0u64);
            assert(combo(m, 1u64 << col(size, i), size, k) == prev ^ m[i as int]);
        } else {
            assert(combo(m, 1u64 << col(size, i), size, k) == prev ^ 0u64);
        }
    }
}

/// `x` has no bit at or above `size`.
pub open spec fn fits(x: u64, size: nat) -> bool {
    size >= 64 || x < (1u64 << size as u64)
}

proof fn lemma_fits_xor(x: u64, y: u64, s: u64)
    requires
        s < 64,
        x < (1u64 << s),
        y < (1u64 << s),
    ensures
        (x ^ y) < (1u64 << s),
{
    assert((x ^ y) < (1u64 << s)) by (bit_vector)
        requires s < 64, x < (1u64 << s), y < (1u64 << s);
}

proof fn lemma_fits_unit(a: u64, s: u64)
    requires
        a < s,
        s < 64,
    ensures
        (1u64 << a) < (1u64 << s),
{
    assert((1u64 << a) < (1u64 << s)) by (bit_vector)
        requires a < s, s < 64;
}

/// `inv` is the inverse of the `size` by `size` matrix `m` over GF(2): row `i` of
/// `inv` times `m` is, on the `size` columns, the unit row of column `i`.
pub open spec fn is_inverse(m: Seq<u64>, inv: Seq<u64>, size: nat) -> bool {
    &&& inv.len() == size
    &&& forall|i: int| 0 <= i < size ==> fits(#[trigger] inv[i], size)
    &&& forall|i: int, j: int|
        0 <= i < size && 0 <= j < size ==> #[trigger] bit(row_times(m, inv[i], size), col(size, j as nat))
            == (i == j)
}

/// The message for a matrix wider than a `u64` row.
pub open spec fn too_large_message() -> Seq<char> {
    "Matrix size > 64 not supported in this optimized solver yet"@
}

/// The message for a matrix without an inverse.
pub open spec fn singular_message() -> Seq<char> {
    "Singular Matrix"@
}

/// Inverts the `size` by `size` matrix whose rows are the first `size` entries of
/// `matrix`, by Gauss-Jordan elimination over GF(2).
pub fn invert_matrix(matrix: &Vec<u64>, size: usize) -> (res: Result<Vec<u64>, String>)
    requires
        size <= 64 ==> matrix@.len() >= size,
    ensures
        size > 64 ==> (res matches Err(e) && e@ == too_large_message()),
        size <= 64 ==> match res {
            Ok(inv) => is_inverse(matrix@, inv@, size as nat),
            Err(e) => e@ == singular_message(),
        },
{
    if size > 64 {
        return Err("Matrix size > 64 not supported in this optimized solver yet".to_string());
    }
    let ghost m = matrix@;
    let ghost n = size as nat;
    let mut original: Vec<u64> = Vec::new();
    let mut inverted: Vec<u64> = Vec::new();
    let mut i: usize = 0;
    while i < size
        invariant
            i <= size <= 64,
            m == matrix@,
            n == size,
            m.len() >= size,
            original@.len() == i,
            inverted@.len() == i,
            forall|r: int| 0 <= r < i ==> row_times(m, #[trigger] inverted@[r], n) == original@[r],
            forall|r: int| 0 <= r < i ==> fits(#[trigger] inverted@[r], n),
        decreases size - i,
    {
        proof {
            lemma_combo_unit(m, i as nat, n, n);
            if size < 64 {
                lemma_fits_unit((size - 1 - i) as u64, size as u64);
            }
        }
        original.push(matrix[i]);
        inverted.push(1u64 << ((size - 1 - i) as u64));
        i = i + 1;
    }
    let mut c: usize = 0;
    while c < size
        invariant
            c <= size <= 64,
            n == size,
            m.len() >= size,
            original@.len() == size,
            inverted@.len() == size,
            forall|r: int| 0 <= r < size ==> row_times(m, #[trigger] inverted@[r], n) == original@[r],
            forall|r: int| 0 <= r < size ==> fits(#[trigger] inverted@[r], n),
            forall|r: int, j: int|
                0 <= r < size && 0 <= j < c ==> #[trigger] bit(original@[r], col(n, j as nat)) == (r == j),
        decreases size - c,
    {
        let shift = (size - 1 - c) as u64;
        let pivot_mask = 1u64 << shift;
        let mut pivot_row = c;
        while pivot_row < size
            invariant
                c <= pivot_row <= size,
                c < size <= 64,
                original@.len() == size,
                pivot_mask == 1u64 << shift,
                shift == col(n, c as nat),
                n == size,
            ensures
                c <= pivot_row <= size,
                pivot_row < size ==> bit(original@[pivot_row as int], shift),
            decreases size - pivot_row,
        {
            proof {
                lemma_mask_bit(original@[pivot_row as int], shift);
            }
            if (original[pivot_row] & pivot_mask) != 0 {
                break;
            }
            pivot_row = pivot_row + 1;
        }
        if pivot_row == size {
            return Err("Singular Matrix".to_string());
        }
        if pivot_row != c {
            let oc = original[c];
            let op = original[pivot_row];
            original.set(c, op);
            original.set(pivot_row, oc);
            let ic = inverted[c];
            let ip = inverted[pivot_row];
            inverted.set(c, ip);
            inverted.set(pivot_row, ic);
        }
        let pv_o = original[c];
        let pv_i = inverted[c];
        let mut r: usize = 0;
        while r < size
            invariant
                r <= size,
                c < size <= 64,
                n == size,
                m.len() >= size,
                original@.len() == size,
                inverted@.len() == size,
                pivot_mask == 1u64 << shift,
                shift == col(n, c as nat),
                original@[c as int] == pv_o,
                inverted@[c as int] == pv_i,
                bit(pv_o, shift),
                forall|q: int| 0 <= q < size ==> row_times(m, #[trigger] inverted@[q], n) == original@[q],
                forall|q: int| 0 <= q < size ==> fits(#[trigger] inverted@[q], n),
                forall|q: int, j: int|
                    0 <= q < size && 0 <= j < c ==> #[trigger] bit(original@[q], col(n, j as nat)) == (q == j),
                forall|q: int| 0 <= q < r && q != c ==> !#[trigger] bit(original@[q], shift),
            decreases size - r,
        {
            proof {
                lemma_mask_bit(original@[r as int], shift);
            }
            if r != c && (original[r] & pivot_mask) != 0 {
                let o = original[r];
                let v = inverted[r];
                proof {
                    if size < 64 {
                        assert(fits(v, n) && fits(pv_i, n));
                        lemma_fits_xor(v, pv_i, size as u64);
                    }
                    lemma_combo_xor(m, v, pv_i, n, n);
                    lemma_xor_bit(o, pv_o, shift);
                    assert forall|j: int| 0 <= j < c implies #[trigger] bit(o ^ pv_o, col(n, j as nat)) == (r == j) by {
                        lemma_xor_bit(o, pv_o, col(n, j as nat));
                        assert(bit(original@[r as int], col(n, j as nat)) == (r == j));
                        assert(bit(original@[c as int], col(n, j as nat)) == (c == j));
                    }
                }
                original.set(r, o ^ pv_o);
                inverted.set(r, v ^ pv_i);
            }
            r = r + 1;
        }
        c = c + 1;
    }
    Ok(inverted)
}

/// The moves that solve a Lights Out board. The product with `target` is left to
/// the caller: this returns the inverse of the click matrix, as `invert_matrix` does.
pub fn solve_lights_out(matrix: &Vec<u64>, target: &Vec<u64>, size: usize) -> (res: Result<Vec<u64>, String>)
    requires
        size <= 64 ==> matrix@.len() >= size,
    ensures
        size > 64 ==> (res matches Err(e) && e@ == too_large_message()),
        size <= 64 ==> match res {
            Ok(inv) => is_inverse(matrix@, inv@, size as nat),
            Err(e) => e@ == singular_message(),
        },
{
    invert_matrix(matrix, size)
}

} // verus!
