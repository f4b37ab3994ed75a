use polynomial_ops::{sum_dims, CoefficientTensor, Polynomial, PolynomialNd};

/// The double sum of `p[i][j] * x^i * y^j`, with each power computed afresh.
fn reference_2d<const D0: usize, const D1: usize>(p: &[[i128; D1]; D0], x: i128, y: i128) -> i128 {
    let mut sum: i128 = 0;
    for i in 0..D0 {
        for j in 0..D1 {
            sum += p[i][j] * x.pow(i as u32) * y.pow(j as u32);
        }
    }
    sum
}

#[test]
fn eval_nd() {
    const A: [[i128; 3]; 3] = [[0, 0, 0], [0, 0, 0], [0, 0, 1]];

    let mut xy: [[[i128; 2]; 3]; 3] = [[[0; 2]; 3]; 3];
    for i in 0..3 {
        for j in 0..3 {
            xy[i][j] = [i as i128, j as i128];
        }
    }

    assert_eq!(
        xy,
        [[[0, 0], [0, 1], [0, 2]], [[1, 0], [1, 1], [1, 2]], [[2, 0], [2, 1], [2, 2]]]
    );

    let values = xy.map(|row| row.map(|xy: [i128; 2]| A.evaluate_as_polynomial_nd(xy)));
    println!("{:?}", values);
    assert_eq!(values, [[0, 0, 0], [0, 1, 4], [0, 4, 16]]);
}

#[test]
fn evaluation_in_two_variables() {
    let p: [[i128; 3]; 3] = [[1, 2, 3], [4, 5, 6], [7, 8, 9]];
    for x in 0..256 {
        for y in 0..256 {
            assert_eq!(
                p.evaluate_as_polynomial_nd([x, y]),
                1 + y * 2 + y * y * 3 + x * (4 + y * 5 + y * y * 6) + x * x * (7 + y * 8 + y * y * 9)
            );
        }
    }
}

#[test]
fn plot_polynomial_2d() {
    const POLYNOMIAL: [[i128; 3]; 3] = [[2, 1, -0], [0, 0, 1], [-1, 0, -1]];

    const X0: i128 = -10;
    const X1: i128 = 10;

    const Y0: i128 = -10;
    const Y1: i128 = 10;

    println!("2D polynomial, (x, y) = ({X0}..{X1}, {Y0}..{Y1}):");
    for x in X0..=X1 {
        let mut line = format!("{x:>4}:");
        for y in Y0..=Y1 {
            let z = POLYNOMIAL.evaluate_as_polynomial_nd([x, y]);
            line += &format!(" {z:>6}");
            assert_eq!(z, 2 + y + x * y * y - x * x - x * x * y * y);
            assert_eq!(z, reference_2d(&POLYNOMIAL, x, y));
        }
        println!("{}", line);
    }
    assert_eq!(POLYNOMIAL.evaluate_as_polynomial_nd([0, 0]), 2);
}

#[test]
fn plot_polynomial_2d_parametric() {
    const POLYNOMIAL: [[[i128; 2]; 2]; 3] =
        [[[0, 1], [0, 1]], [[0, -1], [1, -3]], [[0, 1], [1, 0]]];

    const X0: i128 = -10;
    const X1: i128 = 10;

    const Y0: i128 = -10;
    const Y1: i128 = 10;

    println!("2D polynomial, (x, y) = ({X0}..{X1}, {Y0}..{Y1}):");
    for x in X0..=X1 {
        for y in Y0..=Y1 {
            let point = POLYNOMIAL.map(|p| p.evaluate_as_polynomial_nd([x, y]));
            if x == y {
                println!("{x:>4} {y:>4}: {:?}", point);
            }
            assert_eq!(point, [y + x * y, -y + x - 3 * x * y, y + x]);
            for n in 0..3 {
                assert_eq!(point[n], reference_2d(&POLYNOMIAL[n], x, y));
            }
        }
    }
}

#[test]
fn plot_polynomial_rad() {
    const POLYNOMIAL: [[i128; 5]; 2] = [[1, 0, -10, 0, 1], [1000000, 10, 0, 0, 0]];

    const R0: i128 = 0;
    const R1: i128 = 1;

    const THETA0: i128 = 0;
    const THETA1: i128 = 25;

    println!("2D radial polynomial, (r, theta) = ({R0}..{R1}, {THETA0}..{THETA1}):");
    for r in R0..=R1 {
        let mut line = format!("{r:>4}:");
        for theta in THETA0..=THETA1 {
            let z = POLYNOMIAL.evaluate_as_polynomial_nd([r, theta]);
            line += &format!(" {z:>8}");
            let t2 = theta * theta;
            assert_eq!(z, 1 - 10 * t2 + t2 * t2 + r * (1000000 + 10 * theta));
            assert_eq!(z, reference_2d(&POLYNOMIAL, r, theta));
        }
        println!("{}", line);
    }
}

#[test]
fn evaluation_in_two_variables_matches_reference_on_a_grid() {
    let p: [[i128; 4]; 3] = [[3, -1, 4, 1], [-5, 9, 2, -6], [5, 3, -5, 8]];
    for x in -12..=12 {
        for y in -12..=12 {
            assert_eq!(p.evaluate_as_polynomial_nd([x, y]), reference_2d(&p, x, y));
        }
    }
    assert_eq!(p.evaluate_as_polynomial_nd([0, 0]), 3);
    assert_eq!(p.evaluate_as_polynomial_nd([0, 1]), 3 - 1 + 4 + 1);
    assert_eq!(p.evaluate_as_polynomial_nd([1, 0]), 3 - 5 + 5);
}

#[test]
fn evaluation_in_two_variables_is_evaluation_of_the_row_values() {
    let p: [[i128; 3]; 4] = [[1, 2, 3], [4, 5, 6], [7, 8, 9], [-1, -2, -3]];
    for x in -9..=9 {
        for y in -9..=9 {
            let rows = p.map(|row| row.evaluate_as_polynomial(y));
            assert_eq!(p.evaluate_as_polynomial_nd([x, y]), rows.evaluate_as_polynomial(x));
        }
    }
}

#[test]
fn rows_and_columns_of_size_one_or_none() {
    // One row: a polynomial in y.
    let one_row: [[i128; 3]; 1] = [[4, 5, 6]];
    assert_eq!(one_row.evaluate_as_polynomial_nd([100, 2]), 4 + 10 + 24);
    // One column: a polynomial in x.
    let one_column: [[i128; 1]; 3] = [[4], [5], [6]];
    assert_eq!(one_column.evaluate_as_polynomial_nd([2, 100]), 4 + 10 + 24);
    // One coefficient: a constant.
    let constant: [[i128; 1]; 1] = [[-9]];
    assert_eq!(constant.evaluate_as_polynomial_nd([7, 8]), -9);
    // No coefficient: 0.
    let no_rows: [[i128; 3]; 0] = [];
    assert_eq!(no_rows.evaluate_as_polynomial_nd([7, 8]), 0);
    let no_columns: [[i128; 0]; 3] = [[], [], []];
    assert_eq!(no_columns.evaluate_as_polynomial_nd([7, 8]), 0);
}

#[test]
fn evaluation_in_one_variable_as_a_tensor() {
    let p = [1i128, -2, 3, -4];
    for x in -20..=20 {
        assert_eq!(p.evaluate_as_polynomial_nd([x]), p.evaluate_as_polynomial(x));
    }
    let empty: [i128; 0] = [];
    assert_eq!(empty.evaluate_as_polynomial_nd([5]), 0);
}

#[test]
fn evaluation_in_three_variables() {
    // Sizes 2, 3, 2: the coefficient of x^i y^j z^k is at (i * 3 + j) * 2 + k.
    let coefficients: Vec<i128> = (1..=12).collect();
    let tensor = CoefficientTensor::new([2, 3, 2], coefficients.clone()).unwrap();
    assert_eq!(*tensor.dims(), [2, 3, 2]);
    assert_eq!(tensor.coefficients(), coefficients.as_slice());
    let (x, y, z) = (3i128, -2i128, 5i128);
    let mut expected = 0;
    for i in 0..2u32 {
        for j in 0..3u32 {
            for k in 0..2u32 {
                let c = coefficients[((i * 3 + j) * 2 + k) as usize];
                expected += c * x.pow(i) * y.pow(j) * z.pow(k);
            }
        }
    }
    assert_eq!(tensor.evaluate_as_polynomial_nd([x, y, z]), expected);

    for x in -3i128..=3 {
        for y in -3i128..=3 {
            for z in -3i128..=3 {
                let tensor = CoefficientTensor::new([2, 3, 2], coefficients.clone()).unwrap();
                let mut expected = 0;
                for i in 0..2u32 {
                    for j in 0..3u32 {
                        for k in 0..2u32 {
                            let c = coefficients[((i * 3 + j) * 2 + k) as usize];
                            expected += c * x.pow(i) * y.pow(j) * z.pow(k);
                        }
                    }
                }
                assert_eq!(tensor.evaluate_as_polynomial_nd([x, y, z]), expected);
            }
        }
    }
}

#[test]
fn evaluation_without_axes() {
    let scalar = CoefficientTensor::new([], vec![42i128]).unwrap();
    assert_eq!(scalar.evaluate_as_polynomial_nd([]), 42);
}

#[test]
fn tensor_needs_as_many_coefficients_as_its_sizes_say() {
    assert!(CoefficientTensor::new([2, 3], vec![0i128; 6]).is_some());
    assert!(CoefficientTensor::new([2, 3], vec![0i128; 5]).is_none());
    assert!(CoefficientTensor::new([2, 3], vec![0i128; 7]).is_none());
    assert!(CoefficientTensor::new([2, 3], vec![]).is_none());
    assert!(CoefficientTensor::new([2, 0, 3], vec![]).is_some());
    assert!(CoefficientTensor::new([2, 0, 3], vec![1i128]).is_none());
    assert!(CoefficientTensor::new([0], vec![]).is_some());
    assert!(CoefficientTensor::new([], vec![1i128]).is_some());
    assert!(CoefficientTensor::new([], vec![]).is_none());
    assert!(CoefficientTensor::new([], vec![1i128, 2]).is_none());
    // Sizes whose product does not fit in usize.
    assert!(CoefficientTensor::new([usize::MAX, 2], vec![1i128, 2]).is_none());
    assert!(CoefficientTensor::new([usize::MAX, usize::MAX], vec![1i128]).is_none());
    assert!(CoefficientTensor::new([usize::MAX, usize::MAX, 0], vec![]).is_some());
    assert!(CoefficientTensor::new([usize::MAX, usize::MAX, 0], vec![1i128]).is_none());
    let empty = CoefficientTensor::new([usize::MAX, usize::MAX, 0], vec![]).unwrap();
    assert_eq!(empty.evaluate_as_polynomial_nd([2, 3, 4]), 0);
}

#[test]
fn evaluation_in_several_variables_wraps_around() {
    let p: [[i128; 2]; 2] = [[0, 0], [0, i128::MAX]];
    assert_eq!(p.evaluate_as_polynomial_nd([2, 1]), -2);
    assert_eq!(p.evaluate_as_polynomial_nd([2, 2]), -4);
    let q: [[i128; 3]; 3] = [[0, 0, 0], [0, 0, 0], [0, 0, 1]];
    assert_eq!(q.evaluate_as_polynomial_nd([1i128 << 32, 1i128 << 32]), 0);
    assert_eq!(q.evaluate_as_polynomial_nd([1i128 << 32, 1i128 << 31]), 1i128 << 126);
    let xy: [[i128; 2]; 2] = [[0, 0], [0, 1]];
    assert_eq!(xy.evaluate_as_polynomial_nd([1i128 << 64, 1i128 << 63]), i128::MIN);
}

#[test]
fn sums_of_sizes() {
    assert_eq!(sum_dims([]), 0);
    assert_eq!(sum_dims([7]), 7);
    assert_eq!(sum_dims([3, 3]), 6);
    assert_eq!(sum_dims([2, 0, 5, 1]), 8);
    assert_eq!(sum_dims([usize::MAX, 0]), usize::MAX);
}
