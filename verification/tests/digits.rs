use base95::digits::Digits;

#[test]
fn half() {
    assert_eq!(Digits(vec![2]).half(), Digits(vec![1]));
    assert_eq!(Digits(vec![1]).half(), Digits(vec![0, 47]));
    assert_eq!(Digits(vec![2, 2]).half(), Digits(vec![1, 1]));
    assert_eq!(Digits(vec![2, 1]).half(), Digits(vec![1, 0, 47]));
}

#[test]
fn naive_add() {
    assert_eq!(
        Digits::naive_add(&Digits(vec![1]), &Digits(vec![1])),
        Digits(vec![2])
    );

    assert_eq!(
        Digits::naive_add(&Digits(vec![0, 47]), &Digits(vec![0, 48])),
        Digits(vec![0, 95])
    );

    assert_eq!(
        Digits::naive_add(&Digits(vec![1]), &Digits(vec![0, 0, 1])),
        Digits(vec![1, 0, 1])
    );
}

#[test]
fn avg() {
    assert_eq!(
        Digits::avg(&Digits(vec![1]), &Digits(vec![1])),
        Digits(vec![1])
    );

    assert_eq!(
        Digits::avg(&Digits(vec![2]), &Digits(vec![2])),
        Digits(vec![2])
    );

    assert_eq!(
        Digits::avg(&Digits(vec![2]), &Digits(vec![2])),
        Digits(vec![2])
    );

    assert_eq!(
        Digits::avg(&Digits(vec![47]), &Digits(vec![48])),
        Digits(vec![47, 47])
    );

    assert_eq!(
        Digits::avg(&Digits(vec![0]), &Digits(vec![1])),
        Digits(vec![0, 47])
    );
}

#[test]
fn constants_hold_their_digits() {
    assert_eq!(Digits::zero(), Digits(vec![]));
    assert_eq!(Digits::mid(), Digits(vec![47]));
    assert_eq!(Digits::one(), Digits(vec![95]));
}

#[test]
fn half_of_nothing_is_nothing() {
    assert_eq!(Digits(vec![]).half(), Digits(vec![]));
}

#[test]
fn half_carries_an_odd_place_into_the_next() {
    assert_eq!(Digits(vec![3, 4]).half(), Digits(vec![1, 49, 47]));
    assert_eq!(Digits(vec![95]).half(), Digits(vec![47, 47]));
    assert_eq!(Digits(vec![190]).half(), Digits(vec![95]));
    assert_eq!(Digits(vec![1, 188]).half(), Digits(vec![0, 141, 47]));
    assert_eq!(Digits(vec![255, 255]).half(), Digits(vec![127, 175]));
}

#[test]
fn naive_add_pads_the_shorter_operand() {
    assert_eq!(
        Digits::naive_add(&Digits(vec![]), &Digits(vec![5, 6])),
        Digits(vec![5, 6])
    );
    assert_eq!(
        Digits::naive_add(&Digits(vec![5, 6]), &Digits(vec![])),
        Digits(vec![5, 6])
    );
    assert_eq!(
        Digits::naive_add(&Digits(vec![94, 94]), &Digits(vec![94, 94, 94])),
        Digits(vec![188, 188, 94])
    );
    assert_eq!(
        Digits::naive_add(&Digits(vec![95]), &Digits(vec![95])),
        Digits(vec![190])
    );
}

#[test]
fn carried_settles_every_place_after_the_first() {
    assert_eq!(Digits(vec![]).carried(), Digits(vec![]));
    assert_eq!(Digits(vec![190]).carried(), Digits(vec![190]));
    assert_eq!(Digits(vec![3, 95]).carried(), Digits(vec![4, 0]));
    assert_eq!(Digits(vec![1, 188]).carried(), Digits(vec![2, 93]));
    assert_eq!(Digits(vec![0, 190, 190]).carried(), Digits(vec![2, 2, 0]));
    assert_eq!(Digits(vec![1, 94, 95]).carried(), Digits(vec![2, 0, 0]));
    assert_eq!(Digits(vec![7, 94, 94]).carried(), Digits(vec![7, 94, 94]));
}

#[test]
fn normalized_strips_zeros_at_the_end_only() {
    assert_eq!(Digits(vec![]).normalized(), Digits(vec![]));
    assert_eq!(Digits(vec![0]).normalized(), Digits(vec![]));
    assert_eq!(Digits(vec![0, 0, 0]).normalized(), Digits(vec![]));
    assert_eq!(Digits(vec![0, 5, 0, 0]).normalized(), Digits(vec![0, 5]));
    assert_eq!(Digits(vec![5, 0, 7]).normalized(), Digits(vec![5, 0, 7]));
}

#[test]
fn less_than_counts_missing_places_as_zero() {
    let a = Digits(vec![47]);
    let b = Digits(vec![47, 0]);
    let c = Digits(vec![47, 0, 1]);
    assert!(!a.less_than(&b));
    assert!(!b.less_than(&a));
    assert!(a.less_than(&c));
    assert!(b.less_than(&c));
    assert!(!c.less_than(&a));
    assert!(!a.less_than(&a));
    assert!(Digits(vec![]).less_than(&Digits(vec![0, 0, 1])));
    assert!(!Digits(vec![]).less_than(&Digits(vec![0, 0])));
    assert!(Digits(vec![46, 94, 94]).less_than(&a));
    assert!(Digits(vec![94, 94, 94]).less_than(&Digits::one()));
    assert!(!Digits::one().less_than(&Digits(vec![94, 94, 94])));
}

#[test]
fn avg_with_the_bounds() {
    assert_eq!(
        Digits::avg(&Digits::zero(), &Digits::mid()),
        Digits(vec![23])
    );
    assert_eq!(
        Digits::avg(&Digits::one(), &Digits::mid()),
        Digits(vec![71])
    );
    assert_eq!(
        Digits::avg(&Digits::mid(), &Digits(vec![23])),
        Digits(vec![35])
    );
    assert_eq!(
        Digits::avg(&Digits(vec![94]), &Digits::one()),
        Digits(vec![94, 47])
    );
    assert_eq!(
        Digits::avg(&Digits(vec![94, 94]), &Digits::one()),
        Digits(vec![94, 94, 47])
    );
    assert_eq!(Digits::avg(&Digits::zero(), &Digits(vec![1])), Digits(vec![0, 47]));
    assert_eq!(
        Digits::avg(&Digits::zero(), &Digits(vec![0, 1])),
        Digits(vec![0, 0, 47])
    );
}

#[test]
fn avg_of_equal_values_is_that_value() {
    assert_eq!(Digits::avg(&Digits::zero(), &Digits::zero()), Digits(vec![]));
    assert_eq!(Digits::avg(&Digits::zero(), &Digits(vec![0])), Digits(vec![0]));
    assert_eq!(
        Digits::avg(&Digits(vec![47]), &Digits(vec![47, 0])),
        Digits(vec![47, 0])
    );
    assert_eq!(Digits::avg(&Digits::one(), &Digits::one()), Digits(vec![95]));
}

#[test]
fn avg_does_not_depend_on_the_order_of_its_operands() {
    let pairs: Vec<(Vec<u8>, Vec<u8>)> = vec![
        (vec![47], vec![48]),
        (vec![], vec![47]),
        (vec![95], vec![47]),
        (vec![10, 20, 30], vec![10, 21]),
        (vec![47, 60], vec![48, 70]),
    ];
    for (a, b) in pairs {
        assert_eq!(
            Digits::avg(&Digits(a.clone()), &Digits(b.clone())),
            Digits::avg(&Digits(b), &Digits(a))
        );
    }
}

#[test]
fn avg_takes_the_shortest_beginning_that_fits() {
    // The exact average is 10 20 62 47; three places of it lie between.
    assert_eq!(
        Digits::avg(&Digits(vec![10, 20, 30]), &Digits(vec![10, 20, 94])),
        Digits(vec![10, 20, 62])
    );
    assert_eq!(
        Digits::avg(&Digits(vec![10, 20, 30]), &Digits(vec![10, 21])),
        Digits(vec![10, 20, 62])
    );
    // No beginning short of the exact average lies between.
    assert_eq!(
        Digits::avg(&Digits(vec![10, 20, 30]), &Digits(vec![10, 20, 31])),
        Digits(vec![10, 20, 30, 47])
    );
    // The exact average 2 0 ends in a zero; the beginning 2 has its value.
    assert_eq!(
        Digits::avg(&Digits(vec![1, 47]), &Digits(vec![2, 48])),
        Digits(vec![2])
    );
}

#[test]
fn avg_halves_the_sum_as_it_stands_where_that_gives_digits() {
    // The sum is 23 110 and its half 11 102 47; one place of that lies
    // between the operands, and is a digit.
    assert_eq!(
        Digits::avg(&Digits(vec![10, 50]), &Digits(vec![13, 60])),
        Digits(vec![11])
    );
    assert_eq!(
        Digits::avg(&Digits(vec![46, 48]), &Digits(vec![93, 63])),
        Digits(vec![69])
    );
    assert_eq!(
        Digits::avg(&Digits(vec![10, 94]), &Digits(vec![13, 94])),
        Digits(vec![11])
    );
}

#[test]
fn avg_settles_carries_where_halving_would_leave_no_digit() {
    // Place by place the sum is 95 130, and halving that from the left
    // leaves 112 in the second place, which is no digit.
    assert_eq!(
        Digits::naive_add(&Digits(vec![47, 60]), &Digits(vec![48, 70])).half(),
        Digits(vec![47, 112, 47])
    );
    assert_eq!(
        Digits::naive_add(&Digits(vec![47, 60]), &Digits(vec![48, 70]))
            .carried()
            .half(),
        Digits(vec![48, 17, 47])
    );
    assert_eq!(
        Digits::avg(&Digits(vec![47, 60]), &Digits(vec![48, 70])),
        Digits(vec![48])
    );
    assert_eq!(
        Digits::avg(&Digits(vec![1, 94]), &Digits(vec![0, 94])),
        Digits(vec![1])
    );
    assert_eq!(
        Digits::avg(&Digits(vec![33, 94]), &Digits(vec![34])),
        Digits(vec![33, 94, 47])
    );
    assert_eq!(
        Digits::avg(&Digits(vec![94, 94, 94]), &Digits(vec![94, 94, 93])),
        Digits(vec![94, 94, 93, 47])
    );
}

#[test]
fn avg_lies_strictly_between_its_operands() {
    let values: Vec<Vec<u8>> = vec![
        vec![],
        vec![0, 0, 1],
        vec![0, 94],
        vec![1],
        vec![1, 94],
        vec![23],
        vec![47],
        vec![47, 0, 0, 1],
        vec![47, 60],
        vec![48, 70],
        vec![93, 94, 94],
        vec![94],
        vec![94, 94, 94, 94],
        vec![95],
    ];
    for i in 0..values.len() {
        for j in 0..values.len() {
            if i == j {
                continue;
            }
            let a = Digits(values[i].clone());
            let b = Digits(values[j].clone());
            let m = Digits::avg(&a, &b);
            let (lo, hi) = if i < j { (&a, &b) } else { (&b, &a) };
            assert!(lo.less_than(&m), "{:?} {:?} {:?}", a, b, m);
            assert!(m.less_than(hi), "{:?} {:?} {:?}", a, b, m);
            assert!(m.0.iter().all(|d| *d < 95), "{:?}", m);
            assert_ne!(m.0.last(), Some(&0));
            let sum = Digits::naive_add(&a, &b);
            let plain = sum.half().shortest_fit(lo, hi);
            let exact = if plain.is_digits() {
                sum.half()
            } else {
                sum.carried().half()
            };
            assert!(m.0.len() <= exact.0.len());
            assert_eq!(m.0[..], exact.0[..m.0.len()]);
            assert_eq!(m, exact.shortest_fit(lo, hi));
            assert_eq!(m, Digits::avg(&a, &b));
            assert_eq!(m, Digits::avg(&b, &a));
        }
    }
}

#[test]
fn is_digits_tells_digits_from_larger_entries() {
    assert!(Digits(vec![]).is_digits());
    assert!(Digits(vec![0, 94, 47]).is_digits());
    assert!(!Digits(vec![95]).is_digits());
    assert!(!Digits::one().is_digits());
    assert!(!Digits(vec![0, 0, 141]).is_digits());
    assert!(!Digits(vec![255, 0]).is_digits());
}

#[test]
fn shortest_fit_tries_beginnings_from_the_shortest() {
    let lo = Digits(vec![10, 20, 30]);
    let hi = Digits(vec![10, 21]);
    assert_eq!(
        Digits(vec![10, 20, 62, 47]).shortest_fit(&lo, &hi),
        Digits(vec![10, 20, 62])
    );
    // Both 2 and 2 0 5 lie between; the shorter comes first.
    assert_eq!(
        Digits(vec![2, 0, 5, 7]).shortest_fit(&Digits(vec![1]), &Digits(vec![3])),
        Digits(vec![2])
    );
    // The beginning 0 0 is nothing once its zeros are off, and 0 is not
    // above the lower bound.
    assert_eq!(
        Digits(vec![0, 0, 47]).shortest_fit(&Digits(vec![]), &Digits(vec![0, 1])),
        Digits(vec![0, 0, 47])
    );
    // All of the sequence is never trimmed.
    assert_eq!(
        Digits(vec![5, 0]).shortest_fit(&Digits(vec![5]), &Digits(vec![5])),
        Digits(vec![5, 0])
    );
    assert_eq!(
        Digits(vec![]).shortest_fit(&Digits(vec![]), &Digits(vec![1])),
        Digits(vec![])
    );
}

#[test]
fn is_operand_admits_digits_and_the_upper_bound() {
    assert!(Digits::zero().is_operand());
    assert!(Digits::mid().is_operand());
    assert!(Digits::one().is_operand());
    assert!(Digits(vec![94, 94]).is_operand());
    assert!(!Digits(vec![95, 0]).is_operand());
    assert!(!Digits(vec![0, 95]).is_operand());
    assert!(!Digits(vec![96]).is_operand());
}

#[test]
fn avg_gives_the_same_result_every_time() {
    let a = Digits(vec![12, 34, 56]);
    let b = Digits(vec![12, 35]);
    let first = Digits::avg(&a, &b);
    for _ in 0..10 {
        assert_eq!(Digits::avg(&a, &b), first);
        assert_eq!(Digits::avg(&a.clone(), &b.clone()), first);
    }
    assert_eq!(first, Digits(vec![12, 34, 75]));
}
