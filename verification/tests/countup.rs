use dyn_product::countup;

#[test]
fn test_countup() {
    let data = vec![vec![1, 1, 1], vec![1, 1], vec![1, 1, 1]];
    let mut actual = vec![0; data.len()];

    countup(&mut actual, &data);
    assert_eq!(actual, vec![0, 0, 1]);

    countup(&mut actual, &data);
    assert_eq!(actual, vec![0, 0, 2]);

    countup(&mut actual, &data);
    assert_eq!(actual, vec![0, 1, 0]);

    countup(&mut actual, &data);
    assert_eq!(actual, vec![0, 1, 1]);

    countup(&mut actual, &data);
    assert_eq!(actual, vec![0, 1, 2]);

    countup(&mut actual, &data);
    assert_eq!(actual, vec![1, 0, 0]);

    countup(&mut actual, &data);
    assert_eq!(actual, vec![1, 0, 1]);

    countup(&mut actual, &data);
    assert_eq!(actual, vec![1, 0, 2]);

    countup(&mut actual, &data);
    assert_eq!(actual, vec![1, 1, 0]);

    countup(&mut actual, &data);
    assert_eq!(actual, vec![1, 1, 1]);

    countup(&mut actual, &data);
    assert_eq!(actual, vec![1, 1, 2]);

    countup(&mut actual, &data);
    assert_eq!(actual, vec![2, 0, 0]);

    countup(&mut actual, &data);
    assert_eq!(actual, vec![2, 0, 1]);

    countup(&mut actual, &data);
    assert_eq!(actual, vec![2, 0, 2]);

    countup(&mut actual, &data);
    assert_eq!(actual, vec![2, 1, 0]);

    countup(&mut actual, &data);
    assert_eq!(actual, vec![2, 1, 1]);

    countup(&mut actual, &data);
    assert_eq!(actual, vec![2, 1, 2]);

    countup(&mut actual, &data);
    assert_eq!(actual, vec![3, 0, 0]);
}

#[test]
fn countup_single_digit() {
    let data = vec![vec![5, 6, 7]];
    let mut actual = vec![0];

    countup(&mut actual, &data);
    assert_eq!(actual, vec![1]);

    countup(&mut actual, &data);
    assert_eq!(actual, vec![2]);

    countup(&mut actual, &data);
    assert_eq!(actual, vec![3]);
}

#[test]
fn countup_carries_through_two_digits() {
    let data = vec![vec![9, 9], vec![9], vec![9, 9]];
    let mut actual = vec![0, 0, 1];

    countup(&mut actual, &data);
    assert_eq!(actual, vec![1, 0, 0]);
}
