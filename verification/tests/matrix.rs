use ray_tracer::matrix::Matrix;

fn rows2(m: &Matrix<f64, 2>) -> Vec<f64> {
    let mut out = Vec::new();
    for r in 0..2 {
        for c in 0..2 {
            out.push(m.get(r, c));
        }
    }
    out
}

fn rows3(m: &Matrix<f64, 3>) -> Vec<f64> {
    let mut out = Vec::new();
    for r in 0..3 {
        for c in 0..3 {
            out.push(m.get(r, c));
        }
    }
    out
}

fn rows4(m: &Matrix<f64, 4>) -> Vec<f64> {
    let mut out = Vec::new();
    for r in 0..4 {
        for c in 0..4 {
            out.push(m.get(r, c));
        }
    }
    out
}

fn identity() -> Matrix<f64, 4> {
    Matrix::<f64, 4>::new([
        1.0, 0.0, 0.0, 0.0, 0.0, 1.0, 0.0, 0.0, 0.0, 0.0, 1.0, 0.0, 0.0, 0.0, 0.0, 1.0,
    ])
}

#[test]
fn test_transpose() {
    assert_eq!(rows4(&identity()), rows4(&identity().transpose()));

    let a = Matrix::<f64, 4>::new([
        0.0, 9.0, 3.0, 0.0, 9.0, 8.0, 0.0, 8.0, 1.0, 8.0, 5.0, 3.0, 0.0, 0.0, 5.0, 8.0,
    ]);
    let t_a = Matrix::<f64, 4>::new([
        0.0, 9.0, 1.0, 0.0, 9.0, 8.0, 8.0, 0.0, 3.0, 0.0, 5.0, 5.0, 0.0, 8.0, 3.0, 8.0,
    ]);
    assert_eq!(rows4(&a.transpose()), rows4(&t_a));
}

#[test]
fn test_sub_3_3() {
    let m = Matrix::<f64, 3>::new([1.0, 5.0, 0.0, -3.0, 2.0, 7.0, 0.0, 6.0, -3.0]);
    assert_eq!(
        rows2(&m.submatrix(0, 2)),
        rows2(&Matrix::<f64, 2>::new([-3.0, 2.0, 0.0, 6.0]))
    );
}

#[test]
fn test_sub_4_4() {
    let m = Matrix::<f64, 4>::new([
        -6.0, 1.0, 1.0, 6.0, -8.0, 5.0, 8.0, 6.0, -1.0, 0.0, 8.0, 2.0, -7.0, 1.0, -1.0, 1.0,
    ]);

    assert_eq!(
        rows3(&m.submatrix(2, 1)),
        rows3(&Matrix::<f64, 3>::new([-6.0, 1.0, 6.0, -8.0, 8.0, 6.0, -7.0, -1.0, 1.0]))
    );
}

#[test]
fn new_lays_the_entries_out_row_by_row() {
    let m = Matrix::<u8, 2>::new([1, 2, 3, 4]);
    assert_eq!(m.get(0, 0), 1);
    assert_eq!(m.get(0, 1), 2);
    assert_eq!(m.get(1, 0), 3);
    assert_eq!(m.get(1, 1), 4);
    let m = Matrix::<u8, 3>::new([1, 2, 3, 4, 5, 6, 7, 8, 9]);
    assert_eq!(m.get(0, 2), 3);
    assert_eq!(m.get(1, 0), 4);
    assert_eq!(m.get(2, 1), 8);
    let m = Matrix::<f64, 4>::new([
        1.0, 2.0, 3.0, 4.0, 5.5, 6.5, 7.5, 8.5, 9.0, 10.0, 11.0, 12.0, 13.5, 14.5, 15.5, 16.5,
    ]);
    assert_eq!(m.get(0, 0), 1.0);
    assert_eq!(m.get(0, 3), 4.0);
    assert_eq!(m.get(1, 0), 5.5);
    assert_eq!(m.get(1, 2), 7.5);
    assert_eq!(m.get(2, 2), 11.0);
    assert_eq!(m.get(3, 0), 13.5);
    assert_eq!(m.get(3, 2), 15.5);
}

#[test]
fn filled_puts_one_value_everywhere() {
    let m = Matrix::<f64, 4>::filled(0.25);
    assert_eq!(rows4(&m), vec![0.25; 16]);
    let m = Matrix::<i32, 3>::filled(-4);
    for r in 0..3 {
        for c in 0..3 {
            assert_eq!(m.get(r, c), -4);
        }
    }
}

#[test]
fn the_default_matrix_holds_the_default_entry_everywhere() {
    let m = Matrix::<f64, 4>::default();
    assert_eq!(rows4(&m), vec![0.0; 16]);
    let m = Matrix::<bool, 2>::default();
    assert!(!m.get(0, 0) && !m.get(0, 1) && !m.get(1, 0) && !m.get(1, 1));
}

#[test]
fn set_changes_one_entry() {
    let mut m = Matrix::<u32, 4>::filled(0);
    m.set(1, 3, 13);
    m.set(3, 1, 31);
    for r in 0..4 {
        for c in 0..4 {
            let want = match (r, c) {
                (1, 3) => 13,
                (3, 1) => 31,
                _ => 0,
            };
            assert_eq!(m.get(r, c), want);
        }
    }
}

#[test]
fn transposing_twice_gives_the_matrix_back() {
    let m = Matrix::<u8, 3>::new([1, 2, 3, 4, 5, 6, 7, 8, 9]);
    let t = m.transpose();
    assert_eq!(t.get(0, 1), 4);
    assert_eq!(t.get(2, 0), 3);
    let back = t.transpose();
    for r in 0..3 {
        for c in 0..3 {
            assert_eq!(back.get(r, c), m.get(r, c));
        }
    }
}

#[test]
fn a_submatrix_skips_the_cut_row_and_column() {
    let m = Matrix::<usize, 4>::new([0, 1, 2, 3, 10, 11, 12, 13, 20, 21, 22, 23, 30, 31, 32, 33]);
    for row in 0..4 {
        for col in 0..4 {
            let s = m.submatrix(row, col);
            for i in 0..3 {
                for j in 0..3 {
                    let r = if i < row { i } else { i + 1 };
                    let c = if j < col { j } else { j + 1 };
                    assert_eq!(s.get(i, j), 10 * r + c);
                }
            }
        }
    }
}

#[test]
fn a_submatrix_of_three_by_three_skips_the_cut_row_and_column() {
    let m = Matrix::<usize, 3>::new([0, 1, 2, 10, 11, 12, 20, 21, 22]);
    for row in 0..3 {
        for col in 0..3 {
            let s = m.submatrix(row, col);
            for i in 0..2 {
                for j in 0..2 {
                    let r = if i < row { i } else { i + 1 };
                    let c = if j < col { j } else { j + 1 };
                    assert_eq!(s.get(i, j), 10 * r + c);
                }
            }
        }
    }
}

#[test]
fn cutting_commutes_with_turning() {
    let m = Matrix::<usize, 4>::new([0, 1, 2, 3, 10, 11, 12, 13, 20, 21, 22, 23, 30, 31, 32, 33]);
    let lhs = m.transpose().submatrix(1, 2);
    let rhs = m.submatrix(2, 1).transpose();
    for i in 0..3 {
        for j in 0..3 {
            assert_eq!(lhs.get(i, j), rhs.get(i, j));
        }
    }
}

#[test]
fn a_matrix_is_copied_by_value() {
    let m = Matrix::<u8, 2>::new([1, 2, 3, 4]);
    let mut n = m;
    n.set(0, 0, 9);
    assert_eq!(m.get(0, 0), 1);
    assert_eq!(n.get(0, 0), 9);
    assert_eq!(m.clone().get(1, 1), 4);
}

fn det2(m: &Matrix<f64, 2>) -> f64 {
    m.get(0, 0) * m.get(1, 1) - m.get(1, 0) * m.get(0, 1)
}

fn sign(row: usize, col: usize) -> f64 {
    if (row + col) % 2 == 1 {
        -1.0
    } else {
        1.0
    }
}

fn det3(m: &Matrix<f64, 3>) -> f64 {
    (0..3).map(|c| m.get(0, c) * det2(&m.submatrix(0, c)) * sign(0, c)).sum()
}

fn det4(m: &Matrix<f64, 4>) -> f64 {
    (0..4).map(|c| m.get(0, c) * det3(&m.submatrix(0, c)) * sign(0, c)).sum()
}

#[test]
fn submatrices_carry_a_cofactor_expansion() {
    let m = Matrix::<f64, 3>::new([1.0, 2.0, 6.0, -5.0, 8.0, -4.0, 2.0, 6.0, 4.0]);
    assert_eq!(det2(&m.submatrix(0, 0)), 56.0);
    assert_eq!(-det2(&m.submatrix(0, 1)), 12.0);
    assert_eq!(det2(&m.submatrix(0, 2)), -46.0);
    assert_eq!(det3(&m), -196.0);

    let m = Matrix::<f64, 4>::new([
        -2.0, -8.0, 3.0, 5.0, -3.0, 1.0, 7.0, 3.0, 1.0, 2.0, -9.0, 6.0, -6.0, 7.0, 7.0, -9.0,
    ]);
    assert_eq!(det3(&m.submatrix(0, 0)), 690.0);
    assert_eq!(-det3(&m.submatrix(0, 1)), 447.0);
    assert_eq!(det3(&m.submatrix(0, 2)), 210.0);
    assert_eq!(-det3(&m.submatrix(0, 3)), 51.0);
    assert_eq!(det4(&m), -4071.0);
}
