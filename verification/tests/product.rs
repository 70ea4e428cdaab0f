use dyn_product::{AsSlice, DynProduct};

#[derive(Debug, PartialEq)]
struct Info {
    category: String,
    value: i32,
}

impl Info {
    fn new(category: impl Into<String>, value: i32) -> Self {
        Self {
            category: category.into(),
            value,
        }
    }
}

fn collect_all<'a, T, I: AsSlice<Item = T>>(mut p: DynProduct<'a, T, I>) -> Vec<Vec<&'a T>> {
    let mut out = Vec::new();
    while let Some(c) = p.next() {
        out.push(c);
    }
    out
}

#[test]
fn test_product() {
    let data = vec![
        vec![
            Info::new("GroupA", 1),
            Info::new("GroupA", 2),
            Info::new("GroupA", 3),
        ],
        vec![Info::new("GroupB", 1), Info::new("GroupB", 2)],
        vec![
            Info::new("GroupC", 1),
            Info::new("GroupC", 2),
            Info::new("GroupC", 3),
            Info::new("GroupC", 4),
        ],
    ];

    let p: Vec<_> = collect_all(DynProduct::from(&data));
    assert_eq!(p.len(), data[0].len() * data[1].len() * data[2].len());
    assert_eq!(p[0], vec![&data[0][0], &data[1][0], &data[2][0]]);
    assert_eq!(p[1], vec![&data[0][0], &data[1][0], &data[2][1]]);
    assert_eq!(p[2], vec![&data[0][0], &data[1][0], &data[2][2]]);
    assert_eq!(p[3], vec![&data[0][0], &data[1][0], &data[2][3]]);
    assert_eq!(p[4], vec![&data[0][0], &data[1][1], &data[2][0]]);
    assert_eq!(p[5], vec![&data[0][0], &data[1][1], &data[2][1]]);
    assert_eq!(p[6], vec![&data[0][0], &data[1][1], &data[2][2]]);
    assert_eq!(p[7], vec![&data[0][0], &data[1][1], &data[2][3]]);
    assert_eq!(p[8], vec![&data[0][1], &data[1][0], &data[2][0]]);
    assert_eq!(p[9], vec![&data[0][1], &data[1][0], &data[2][1]]);
    assert_eq!(p[10], vec![&data[0][1], &data[1][0], &data[2][2]]);
    assert_eq!(p[11], vec![&data[0][1], &data[1][0], &data[2][3]]);
    assert_eq!(p[12], vec![&data[0][1], &data[1][1], &data[2][0]]);
    assert_eq!(p[13], vec![&data[0][1], &data[1][1], &data[2][1]]);
    assert_eq!(p[14], vec![&data[0][1], &data[1][1], &data[2][2]]);
    assert_eq!(p[15], vec![&data[0][1], &data[1][1], &data[2][3]]);
    assert_eq!(p[16], vec![&data[0][2], &data[1][0], &data[2][0]]);
    assert_eq!(p[17], vec![&data[0][2], &data[1][0], &data[2][1]]);
    assert_eq!(p[18], vec![&data[0][2], &data[1][0], &data[2][2]]);
    assert_eq!(p[19], vec![&data[0][2], &data[1][0], &data[2][3]]);
    assert_eq!(p[20], vec![&data[0][2], &data[1][1], &data[2][0]]);
    assert_eq!(p[21], vec![&data[0][2], &data[1][1], &data[2][1]]);
    assert_eq!(p[22], vec![&data[0][2], &data[1][1], &data[2][2]]);
    assert_eq!(p[23], vec![&data[0][2], &data[1][1], &data[2][3]]);
}

#[test]
fn pair_of_rows_in_order() {
    let data = vec![vec!["a", "b"], vec!["x", "y"]];
    let p = collect_all(DynProduct::from(&data));
    assert_eq!(p.len(), 4);
    assert_eq!(p[0], vec![&"a", &"x"]);
    assert_eq!(p[1], vec![&"a", &"y"]);
    assert_eq!(p[2], vec![&"b", &"x"]);
    assert_eq!(p[3], vec![&"b", &"y"]);
}

#[test]
fn single_row_single_element() {
    let data = vec![vec!["only"]];
    let mut p = DynProduct::from(&data);
    assert_eq!(p.next(), Some(vec![&"only"]));
    assert_eq!(p.next(), None);
    assert_eq!(p.next(), None);
}

#[test]
fn no_rows_yields_no_combinations() {
    let data: Vec<Vec<i32>> = vec![];
    let mut p = DynProduct::from(&data);
    assert_eq!(p.next(), None);
    assert_eq!(p.next(), None);
}

#[test]
fn empty_first_row_is_exhausted_from_the_start() {
    let data: Vec<Vec<i32>> = vec![vec![], vec![1, 2]];
    let mut p = DynProduct::from(&data);
    assert_eq!(p.next(), None);
    assert_eq!(p.next(), None);
}

#[test]
fn exhaustion_is_permanent() {
    let data = vec![vec![1, 2], vec![3, 4]];
    let mut p = DynProduct::from(&data);
    let mut produced: usize = 0;
    while let Some(c) = p.next() {
        assert_eq!(c.len(), 2);
        produced += 1;
    }
    assert_eq!(produced, 4);
    for _ in 0..3 {
        assert_eq!(p.next(), None);
    }
}

#[test]
fn cardinality_matches_product_of_lengths() {
    let data = vec![vec![0, 0, 0], vec![0, 0], vec![0, 0, 0]];
    let p = collect_all(DynProduct::from(&data));
    assert_eq!(p.len(), 18);
}

#[test]
fn from_vec_matches_from_slice() {
    let data = vec![vec![10, 11], vec![12]];
    let a = collect_all(DynProduct::from(&data));
    let b = collect_all(DynProduct::from_vec(&data));
    assert_eq!(a, b);
    assert_eq!(a[0], vec![&data[0][0], &data[1][0]]);
    assert_eq!(a[1], vec![&data[0][1], &data[1][0]]);
}
