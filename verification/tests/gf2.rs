use coppa::fec::ldpc::gf2::Gf2Matrix;

fn matrix(rows: &[&[u8]]) -> Gf2Matrix {
    let mut m = Gf2Matrix::zeros(rows.len(), rows[0].len());
    for (r, row) in rows.iter().enumerate() {
        for (c, &v) in row.iter().enumerate() {
            m.set(r, c, v == 1);
        }
    }
    m
}

#[test]
fn inverse_undoes_the_product() {
    let m = matrix(&[&[1, 1, 0], &[0, 1, 1], &[1, 1, 1]]);
    let inv = m.invert().unwrap();
    for v in 0..8u8 {
        let x = [v >> 2 & 1, v >> 1 & 1, v & 1];
        assert_eq!(inv.mul_vec(&m.mul_vec(&x)), x.to_vec());
        assert_eq!(m.mul_vec(&inv.mul_vec(&x)), x.to_vec());
    }
}

#[test]
fn singular_matrix_has_no_inverse() {
    assert!(matrix(&[&[1, 1, 0], &[0, 1, 1], &[1, 0, 1]]).invert().is_none());
    assert!(Gf2Matrix::zeros(2, 2).invert().is_none());
}

#[test]
fn row_operations_are_exact() {
    let mut m = matrix(&[&[1, 0, 1], &[0, 1, 1]]);
    m.xor_row_into(0, 1);
    assert_eq!([m.get(0, 0), m.get(0, 1), m.get(0, 2)], [true, true, false]);
    m.swap_rows(0, 1);
    assert_eq!([m.get(0, 0), m.get(0, 1), m.get(0, 2)], [false, true, true]);
    assert_eq!(m.copied().mul_vec(&[1, 1, 0]), vec![1, 0]);
}

#[test]
fn wide_rows_cross_word_boundaries() {
    let mut m = Gf2Matrix::zeros(1, 130);
    m.set(0, 63, true);
    m.set(0, 64, true);
    m.set(0, 129, true);
    let mut x = vec![0u8; 130];
    x[64] = 1;
    assert_eq!(m.mul_vec(&x), vec![1]);
    x[129] = 1;
    assert_eq!(m.mul_vec(&x), vec![0]);
    assert!(!m.get(0, 65));
}
