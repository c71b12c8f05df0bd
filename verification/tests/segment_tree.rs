use algorithms::bounded::Bounded;
use algorithms::segment_tree::{next_2pow, MaxSpec, MinSpec, SegmentTree, SegmentTreeSpec};

#[test]
fn it_compiles() {
    let _t = SegmentTree::<MinSpec<i32>>::new(10);
}

#[test]
fn it_sets_up_bounds() {
    let t = SegmentTree::<MinSpec<i32>>::new(3);
    assert_eq!(
        t.bounds(),
        &vec![(0, 3), (0, 1), (1, 3), (0, 0), (0, 0), (1, 2), (2, 3)]
    )
}

#[test]
fn it_sets_up_bounds_of_small_trees() {
    let t = SegmentTree::<MaxSpec<u8>>::new(0);
    assert_eq!(t.bounds(), &vec![(0, 0)]);
    let t = SegmentTree::<MaxSpec<u8>>::new(1);
    assert_eq!(t.bounds(), &vec![(0, 1)]);
    let t = SegmentTree::<MaxSpec<u8>>::new(2);
    assert_eq!(t.bounds(), &vec![(0, 2), (0, 1), (1, 2)]);
    let t = SegmentTree::<MinSpec<i64>>::new(5);
    assert_eq!(
        t.bounds(),
        &vec![
            (0, 5),
            (0, 2),
            (2, 5),
            (0, 1),
            (1, 2),
            (2, 3),
            (3, 5),
            (0, 0),
            (0, 0),
            (0, 0),
            (0, 0),
            (0, 0),
            (0, 0),
            (3, 4),
            (4, 5)
        ]
    );
}

#[test]
fn next_2pow_rounds_up() {
    assert_eq!(next_2pow(0), 1);
    assert_eq!(next_2pow(1), 1);
    assert_eq!(next_2pow(2), 2);
    assert_eq!(next_2pow(3), 4);
    assert_eq!(next_2pow(4), 4);
    assert_eq!(next_2pow(5), 8);
    assert_eq!(next_2pow(1000), 1024);
    assert_eq!(next_2pow(usize::MAX / 2 + 1), usize::MAX / 2 + 1);
}

#[test]
fn specs_combine_and_default() {
    assert_eq!(<MinSpec<i32> as SegmentTreeSpec>::default(), i32::MAX);
    assert_eq!(<MaxSpec<i32> as SegmentTreeSpec>::default(), i32::MIN);
    assert_eq!(<MinSpec<u8> as SegmentTreeSpec>::default(), 255);
    assert_eq!(<MaxSpec<u8> as SegmentTreeSpec>::default(), 0);
    assert_eq!(<MinSpec<i32> as SegmentTreeSpec>::combine(3, -4), -4);
    assert_eq!(<MinSpec<i32> as SegmentTreeSpec>::combine(-4, 3), -4);
    assert_eq!(<MaxSpec<i32> as SegmentTreeSpec>::combine(3, -4), 3);
    assert_eq!(<MaxSpec<i32> as SegmentTreeSpec>::combine(-4, 3), 3);
    assert_eq!(<MinSpec<i32> as SegmentTreeSpec>::combine(i32::MAX, 17), 17);
    assert_eq!(<MaxSpec<i32> as SegmentTreeSpec>::combine(i32::MIN, 17), 17);
}

#[test]
fn integer_bounds() {
    assert_eq!(<i8 as Bounded>::min_value(), -128);
    assert_eq!(<i8 as Bounded>::max_value(), 127);
    assert_eq!(<u16 as Bounded>::min_value(), 0);
    assert_eq!(<u16 as Bounded>::max_value(), 65535);
    assert_eq!(<i64 as Bounded>::max_value(), 9223372036854775807);
    assert_eq!(<usize as Bounded>::max_value(), usize::MAX);
    assert_eq!(<i128 as Bounded>::min_value(), i128::MIN);
}
