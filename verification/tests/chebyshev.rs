use polynomial_ops::{ChebyshevPolynomial, Polynomial};

/// The value by the recurrence on values, with the point as it is.
fn reference_value(kind: i128, order: usize, x: i128) -> i128 {
    let mut t_prev: i128 = 1;
    if order == 0 {
        return t_prev;
    }
    let mut t = kind * x;
    for _ in 1..order {
        let t_next = 2 * x * t - t_prev;
        t_prev = t;
        t = t_next;
    }
    t
}

#[test]
fn it_works() {
    type T = i128;
    const KIND: usize = 2;
    const ORDER: usize = 13;
    const N: usize = ORDER + 1;

    println!("KIND = {}\nORDER = {}", KIND, ORDER);

    let cheb_vec: Vec<T> = ChebyshevPolynomial::new(KIND, ORDER).into();
    println!("cheb = {:?}", cheb_vec);
    let cheb: [T; N] = ChebyshevPolynomial::new(KIND, ORDER).try_into().ok().unwrap();
    println!("CHEB = {:?}", cheb);

    let max: T = cheb.into_iter().reduce(Ord::max).unwrap();
    let min: T = cheb.into_iter().reduce(Ord::min).unwrap();

    let mut line = format!("max = {}", max);
    if max > i64::MAX as i128 {
        line += " > i64";
    } // N < 54
    if max > i32::MAX as i128 {
        line += " > i32";
    } // N < 28
    if max > i16::MAX as i128 {
        line += " > i16";
    } // N < 14
    if max > i8::MAX as i128 {
        line += " > i8";
    } // N < 9
    println!("{}", line);
    let mut line = format!("min = {}", min);
    if min < i64::MIN as i128 {
        line += " < i64";
    }
    if min < i32::MIN as i128 {
        line += " < i32";
    }
    if min < i16::MIN as i128 {
        line += " < i16";
    }
    if min < i8::MIN as i128 {
        line += " < i8";
    }
    println!("{}", line);

    assert_eq!(cheb.to_vec(), cheb_vec);

    const TEST_COUNT: usize = (i8::MAX as i64 - i8::MIN as i64 + 1) as usize;
    let mut x: [T; TEST_COUNT] = [0; TEST_COUNT];
    for i in 0..TEST_COUNT {
        x[i] = i as T + i8::MIN as T;
    }

    let y: [T; TEST_COUNT] = x.map(|x| cheb.evaluate_as_polynomial(x));
    let y_vec = x.map(|x| cheb_vec.clone().evaluate_as_polynomial(x));

    assert_eq!(y, y_vec);
}

#[test]
fn plot_cheb() {
    const KIND: usize = 2;
    const ORDER: usize = 2;
    const N: usize = ORDER + 1;

    let cheb: [i128; N] = ChebyshevPolynomial::new(KIND, ORDER).try_into().ok().unwrap();
    assert_eq!(cheb, [-1, 0, 4]);

    const X0: i128 = 0;
    const X1: i128 = 4;

    println!("{ORDER}. order Chebyshev of the {KIND}. kind, x = {X0}..{X1}:");
    for x in X0..=X1 {
        let y = cheb.evaluate_as_polynomial(x);
        println!("{x:>4} {y:>6}");
        assert_eq!(y, 4 * x * x - 1);
    }
}

#[test]
fn measure_size() {
    fn guess(kind: usize, order: usize) -> u32 {
        (2.0f64.powi(2 * order as i32 - kind as i32 - 2)).abs().log2().ceil() as u32
    }

    fn max_bits_of_cheb_coeff(kind: usize, order: usize) -> u32 {
        let cheb: Vec<i128> = ChebyshevPolynomial::new(kind, order).into();

        let max = cheb.clone().into_iter().reduce(Ord::max).unwrap();
        let min = cheb.into_iter().reduce(Ord::min).unwrap();

        let mut bits = 1;
        let mut n = max.abs().max(min.abs());
        while n != 0 {
            n >>= 1;
            bits += 1;
        }
        bits
    }

    const N: usize = 64;
    println!("[");
    for order in 0..N {
        println!("[{}, {}, {}]", order, max_bits_of_cheb_coeff(1, order), guess(1, order));
    }
    println!("]");
    assert_eq!(max_bits_of_cheb_coeff(1, 0), 2);
    assert_eq!(max_bits_of_cheb_coeff(1, 1), 2);
    assert_eq!(max_bits_of_cheb_coeff(1, 2), 3);
    assert_eq!(max_bits_of_cheb_coeff(1, 3), 4);
}

#[test]
fn coefficients_of_the_first_orders() {
    let expected_first: [&[i128]; 7] = [
        &[1],
        &[0, 1],
        &[-1, 0, 2],
        &[0, -3, 0, 4],
        &[1, 0, -8, 0, 8],
        &[0, 5, 0, -20, 0, 16],
        &[-1, 0, 18, 0, -48, 0, 32],
    ];
    let expected_second: [&[i128]; 7] = [
        &[1],
        &[0, 2],
        &[-1, 0, 4],
        &[0, -4, 0, 8],
        &[1, 0, -12, 0, 16],
        &[0, 6, 0, -32, 0, 32],
        &[-1, 0, 24, 0, -80, 0, 64],
    ];
    for order in 0..7 {
        let first: Vec<i128> = ChebyshevPolynomial::new_of_first_kind(order).into();
        assert_eq!(first, expected_first[order]);
        let second: Vec<i128> = ChebyshevPolynomial::new_of_second_kind(order).into();
        assert_eq!(second, expected_second[order]);
    }
}

#[test]
fn coefficients_of_other_kinds() {
    // Kind 0: the polynomial of order 1 is 0, and the recurrence goes on from
    // there.
    let zero: Vec<i128> = ChebyshevPolynomial::new(0, 1).into();
    assert_eq!(zero, vec![0, 0]);
    let zero: Vec<i128> = ChebyshevPolynomial::new(0, 2).into();
    assert_eq!(zero, vec![-1, 0, 0]);
    let zero: Vec<i128> = ChebyshevPolynomial::new(0, 0).into();
    assert_eq!(zero, vec![1]);
    // Kind 3: 3x, then 2x * 3x - 1, then 2x * (6x^2 - 1) - 3x.
    let three: Vec<i128> = ChebyshevPolynomial::new(3, 1).into();
    assert_eq!(three, vec![0, 3]);
    let three: Vec<i128> = ChebyshevPolynomial::new(3, 2).into();
    assert_eq!(three, vec![-1, 0, 6]);
    let three: Vec<i128> = ChebyshevPolynomial::new(3, 3).into();
    assert_eq!(three, vec![0, -5, 0, 12]);
    assert_eq!(ChebyshevPolynomial::new(3, 3).evaluate_as_polynomial(2), 86);
}

#[test]
fn leading_coefficient_of_order_thirteen() {
    let cheb: Vec<i128> = ChebyshevPolynomial::new(2, 13).into();
    assert_eq!(cheb.len(), 14);
    assert_eq!(cheb[13], 8192);
    assert_eq!(cheb[0], 0);
    assert_eq!(cheb[1], 14);
    let cheb: Vec<i128> = ChebyshevPolynomial::new(1, 13).into();
    assert_eq!(cheb[13], 4096);
    assert_eq!(cheb[1], 13);
}

#[test]
fn array_is_the_vector_followed_by_zeros() {
    for kind in 0..4 {
        for order in 0..10 {
            let p = ChebyshevPolynomial::new(kind, order);
            let vector: Vec<i128> = p.into();
            assert_eq!(vector.len(), order + 1);
            let array: [i128; 12] = p.try_into().unwrap();
            assert_eq!(&array[..order + 1], vector.as_slice());
            assert!(array[order + 1..].iter().all(|c| *c == 0));
        }
    }
}

#[test]
fn generated_coefficients_evaluate_to_the_direct_value() {
    for kind in 1..=2 {
        for order in 0..=13 {
            let p = ChebyshevPolynomial::new(kind, order);
            let vector: Vec<i128> = p.into();
            let array: [i128; 14] = p.try_into().unwrap();
            for x in -128..=127 {
                let direct = p.evaluate_as_polynomial(x);
                assert_eq!(vector.clone().evaluate_as_polynomial(x), direct);
                assert_eq!(array.evaluate_as_polynomial(x), direct);
                assert_eq!(direct, reference_value(kind as i128, order, x));
            }
        }
    }
}

#[test]
fn generated_coefficients_evaluate_to_the_direct_value_when_wrapping() {
    for kind in [1usize, 2, 5] {
        for order in [0usize, 1, 2, 7, 40, 130] {
            let p = ChebyshevPolynomial::new(kind, order);
            let vector: Vec<i128> = p.into();
            for x in [i128::MAX, i128::MIN, 1i128 << 70, -(1i128 << 90) + 12345] {
                assert_eq!(vector.clone().evaluate_as_polynomial(x), p.evaluate_as_polynomial(x));
            }
        }
    }
}

#[test]
fn direct_values() {
    assert_eq!(ChebyshevPolynomial::new(1, 0).evaluate_as_polynomial(17), 1);
    assert_eq!(ChebyshevPolynomial::new(2, 0).evaluate_as_polynomial(-17), 1);
    assert_eq!(ChebyshevPolynomial::new(1, 1).evaluate_as_polynomial(17), 17);
    assert_eq!(ChebyshevPolynomial::new(2, 1).evaluate_as_polynomial(17), 34);
    assert_eq!(ChebyshevPolynomial::new(1, 2).evaluate_as_polynomial(3), 17);
    assert_eq!(ChebyshevPolynomial::new(2, 2).evaluate_as_polynomial(3), 35);
    assert_eq!(ChebyshevPolynomial::new(1, 3).evaluate_as_polynomial(2), 26);
    assert_eq!(ChebyshevPolynomial::new(2, 3).evaluate_as_polynomial(2), 56);
    // At 1 the first kind is 1 for every order, and the second kind is order + 1.
    for order in 0..50 {
        assert_eq!(ChebyshevPolynomial::new_of_first_kind(order).evaluate_as_polynomial(1), 1);
        assert_eq!(
            ChebyshevPolynomial::new_of_second_kind(order).evaluate_as_polynomial(1),
            order as i128 + 1
        );
    }
}

#[test]
fn order_must_be_below_the_length() {
    // Order N - 1 fits in N coefficients.
    let fits: Result<[i128; 4], ChebyshevPolynomial> = ChebyshevPolynomial::new(1, 3).try_into();
    assert_eq!(fits.unwrap(), [0, -3, 0, 4]);
    let fits: Option<[i128; 4]> = ChebyshevPolynomial::new(1, 3).into();
    assert_eq!(fits, Some([0, -3, 0, 4]));
    let fits: Option<[i128; 1]> = ChebyshevPolynomial::new(2, 0).into();
    assert_eq!(fits, Some([1]));

    // Order N does not, and the polynomial comes back as it was.
    let fails: Result<[i128; 4], ChebyshevPolynomial> = ChebyshevPolynomial::new(2, 4).try_into();
    let back = fails.unwrap_err();
    assert_eq!((back.kind, back.order), (2, 4));
    let fails: Option<[i128; 4]> = ChebyshevPolynomial::new(2, 4).into();
    assert_eq!(fails, None);

    // Nor does any larger order.
    let fails: Result<[i128; 4], ChebyshevPolynomial> = ChebyshevPolynomial::new(7, 1000).try_into();
    let back = fails.unwrap_err();
    assert_eq!((back.kind, back.order), (7, 1000));

    // No order fits in no coefficient.
    let fails: Result<[i128; 0], ChebyshevPolynomial> = ChebyshevPolynomial::new(1, 0).try_into();
    let back = fails.unwrap_err();
    assert_eq!((back.kind, back.order), (1, 0));
    let fails: Option<[i128; 0]> = ChebyshevPolynomial::new(1, 0).into();
    assert_eq!(fails, None);

    for n_minus_one in 0..6 {
        let fits: Option<[i128; 6]> = ChebyshevPolynomial::new(1, n_minus_one).into();
        assert!(fits.is_some());
    }
    for order in 6..12 {
        let fails: Option<[i128; 6]> = ChebyshevPolynomial::new(1, order).into();
        assert!(fails.is_none());
    }
}

#[test]
fn constructors_set_kind_and_order() {
    let p = ChebyshevPolynomial::new(5, 9);
    assert_eq!((p.kind, p.order), (5, 9));
    let p = ChebyshevPolynomial::new_of_first_kind(4);
    assert_eq!((p.kind, p.order), (1, 4));
    let p = ChebyshevPolynomial::new_of_second_kind(0);
    assert_eq!((p.kind, p.order), (2, 0));
}
