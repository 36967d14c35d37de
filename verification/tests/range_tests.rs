use logs::range::{product, FromToIter, IterOnVecIter, Range};

#[test]
fn product_test() {
    let itr = product(vec![1, 2, 3], vec![4, 5]);
    let mut itr = itr.into_iter();
    assert_eq!(itr.next(), Some((1, 4)));
    assert_eq!(itr.next(), Some((1, 5)));
    assert_eq!(itr.next(), Some((2, 4)));
    assert_eq!(itr.next(), Some((2, 5)));
    assert_eq!(itr.next(), Some((3, 4)));
    assert_eq!(itr.next(), Some((3, 5)));
}

#[test]
fn product_with_empty_side() {
    assert!(product(Vec::<u8>::new(), vec![1u8, 2]).is_empty());
    assert!(product(vec![1u8, 2], Vec::<u8>::new()).is_empty());
    assert_eq!(product(vec!['a'], vec![true, false]), vec![('a', true), ('a', false)]);
}

#[test]
fn test_from_to() {
    let mut itr = FromToIter { to: 3u32, include_to: false, cur: 0u32, finished: false };

    println!("{:?}", itr.next());
    println!("{:?}", itr.next());
    println!("{:?}", itr.next());
    println!("{:?}", itr.next());
    println!("{:?}", itr.next());
}

#[test]
fn from_to_exact_values() {
    let mut itr = FromToIter { to: 3u32, include_to: false, cur: 0u32, finished: false };
    assert_eq!(itr.next(), Some(0));
    assert_eq!(itr.next(), Some(1));
    assert_eq!(itr.next(), Some(2));
    assert_eq!(itr.next(), None);
    assert_eq!(itr.next(), None);
}

#[test]
fn from_to_stops_at_type_max() {
    let mut itr = FromToIter { to: 255u8, include_to: true, cur: 254u8, finished: false };
    assert_eq!(itr.next(), Some(254));
    assert_eq!(itr.next(), Some(255));
    assert_eq!(itr.next(), None);
    assert!(itr.finished);
}

#[test]
fn test_iter_on_vec() {
    let mut iter = IterOnVecIter {
        vec: vec![
            Range::Multiple(vec![Range::Single(1), Range::Single(2)]),
            Range::Multiple(vec![Range::Single(3), Range::Single(4)]),
        ],
        cur_item: 0,
        cur_iter: None,
    };

    println!("{:?}", iter.next());
    println!("{:?}", iter.next());
    println!("{:?}", iter.next());
    println!("{:?}", iter.next());
    println!("{:?}", iter.next());
}

#[test]
fn iter_on_vec_values() {
    let mut iter = IterOnVecIter {
        vec: vec![
            Range::Multiple(vec![Range::Single(1), Range::Single(2)]),
            Range::Multiple(vec![]),
            Range::Multiple(vec![Range::Single(3), Range::Single(4)]),
        ],
        cur_item: 0,
        cur_iter: None,
    };
    assert_eq!(iter.next(), Some(1));
    assert_eq!(iter.next(), Some(2));
    assert_eq!(iter.next(), Some(3));
    assert_eq!(iter.next(), Some(4));
    assert_eq!(iter.next(), None);
    assert_eq!(iter.next(), None);
}

#[test]
fn range_iter_test() {
    let range = Range::Single(10);
    let mut iter = range.into_iter();
    assert_eq!(iter.next(), Some(10));
    assert_eq!(iter.next(), None);

    let range = Range::FromToExc(7, 10);
    let mut iter = range.into_iter();
    assert_eq!(iter.next(), Some(7));
    assert_eq!(iter.next(), Some(8));
    assert_eq!(iter.next(), Some(9));
    assert_eq!(iter.next(), None);
    assert_eq!(iter.next(), None);

    let range = Range::Multiple(vec![Range::Single(1), Range::FromToExc(7, 10)]);
    let mut iter = range.into_iter();
    assert_eq!(iter.next(), Some(1));
    assert_eq!(iter.next(), Some(7));
    assert_eq!(iter.next(), Some(8));
    assert_eq!(iter.next(), Some(9));
    assert_eq!(iter.next(), None);

    let range = Range::Multiple(vec![
        Range::Single(1u32),
        Range::FromToExc(7, 10),
        Range::Multiple(vec![Range::FromToInc(12, 15)]),
    ]);
    let mut iter = range.into_iter();
    assert_eq!(iter.next(), Some(1u32));
    assert_eq!(iter.next(), Some(7u32));
    assert_eq!(iter.next(), Some(8u32));
    assert_eq!(iter.next(), Some(9u32));
    assert_eq!(iter.next(), Some(12u32));
    assert_eq!(iter.next(), Some(13u32));
    assert_eq!(iter.next(), Some(14u32));
    assert_eq!(iter.next(), Some(15u32));
    assert_eq!(iter.next(), None);
}

#[test]
fn range_doc_example_and_copy() {
    let range = Range::Multiple(vec![
        Range::Single(1u64),
        Range::Single(2),
        Range::Single(4),
        Range::FromToInc(8, 10),
    ]);
    let mut iter = range.iter();
    let mut got = vec![];
    while let Some(v) = iter.next() {
        got.push(v);
    }
    assert_eq!(got, vec![1, 2, 4, 8, 9, 10]);
    let again = range.copy();
    let mut iter = again.into_iter();
    assert_eq!(iter.next(), Some(1));
    let empty = Range::FromToExc(5u16, 5);
    assert_eq!(empty.into_iter().next(), None);
}
