use slant::{invert_matrix, solve_lights_out};

fn times(inv: &[u64], m: &[u64], size: usize) -> Vec<u64> {
    let mask = if size == 64 { u64::MAX } else { (1u64 << size) - 1 };
    inv.iter()
        .map(|&row| {
            let mut acc = 0u64;
            for k in 0..size {
                if (row >> (size - 1 - k)) & 1 == 1 {
                    acc ^= m[k];
                }
            }
            acc & mask
        })
        .collect()
}

fn identity(size: usize) -> Vec<u64> {
    (0..size).map(|i| 1u64 << (size - 1 - i)).collect()
}

#[test]
fn identity_is_its_own_inverse() {
    assert_eq!(invert_matrix(&identity(3), 3), Ok(identity(3)));
}

#[test]
fn inverse_of_a_triangular_matrix() {
    // Rows 110, 011, 001.
    let m = vec![0b110, 0b011, 0b001];
    let inv = invert_matrix(&m, 3).unwrap();
    assert_eq!(inv, vec![0b111, 0b011, 0b001]);
    assert_eq!(times(&inv, &m, 3), identity(3));
}

#[test]
fn inverse_needs_a_row_swap() {
    let m = vec![0b01, 0b10];
    assert_eq!(invert_matrix(&m, 2), Ok(vec![0b01, 0b10]));
}

#[test]
fn singular_matrix_is_reported() {
    let m = vec![0b11, 0b11];
    assert_eq!(invert_matrix(&m, 2), Err("Singular Matrix".to_string()));
}

#[test]
fn too_large_matrix_is_reported() {
    assert_eq!(
        invert_matrix(&vec![], 65),
        Err("Matrix size > 64 not supported in this optimized solver yet".to_string())
    );
}

#[test]
fn lights_out_click_matrix_of_two_by_two() {
    // Each click on a 2x2 board toggles its cell and the two neighbours.
    let m = vec![0b1110, 0b1101, 0b1011, 0b0111];
    let inv = solve_lights_out(&m, &vec![0; 4], 4).unwrap();
    assert_eq!(times(&inv, &m, 4), identity(4));
}

#[test]
fn empty_matrix_has_empty_inverse() {
    assert_eq!(invert_matrix(&vec![], 0), Ok(vec![]));
}
