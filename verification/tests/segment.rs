use std::ops::Range;
use tender::segment::{Scan, Segment};
use tender::style::Style;

#[test]
fn segment_scan() {
    let seg = |width| Segment {
        len: 0,
        width,
        style: Style::default(),
    };

    // -- --- ---- --
    let segments = vec![seg(2), seg(3), seg(4), seg(2)];

    let scan = |x, width| Segment::scan(&segments, x, width);
    let indexes = |range: Range<Scan>| range.start.index..range.end.index;

    // -
    // -- --- ---- --
    assert_eq!(indexes(scan(0, 1).unwrap()), 0..0);
    // --
    // -- --- ---- --
    assert_eq!(indexes(scan(0, 2).unwrap()), 0..0);
    //  -
    // -- --- ---- --
    assert_eq!(indexes(scan(1, 1).unwrap()), 0..0);
    //  - -
    // -- --- ---- --
    assert_eq!(indexes(scan(1, 2).unwrap()), 0..1);
    //  - ---
    // -- --- ---- --
    assert_eq!(indexes(scan(1, 4).unwrap()), 0..1);
    //  - --- -
    // -- --- ---- --
    assert_eq!(indexes(scan(1, 5).unwrap()), 0..2);
    //    ---
    // -- --- ---- --
    assert_eq!(indexes(scan(2, 3).unwrap()), 1..1);
    //     -- --
    // -- --- ---- --
    assert_eq!(indexes(scan(3, 4).unwrap()), 1..2);
    //         --
    // -- --- ---- --
    assert_eq!(indexes(scan(6, 2).unwrap()), 2..2);
    //             -
    // -- --- ---- --
    assert_eq!(indexes(scan(9, 1).unwrap()), 3..3);
    //             --
    // -- --- ---- --
    assert_eq!(indexes(scan(9, 2).unwrap()), 3..3);
    //              -
    // -- --- ---- --
    assert_eq!(indexes(scan(10, 1).unwrap()), 3..3);
    //              --
    // -- --- ---- --
    assert!(scan(10, 2).is_err());
    //               --
    // -- --- ---- --
    assert!(scan(11, 2).is_err());
}

#[test]
fn segment_scan_gives_offsets() {
    let seg = |len, width| Segment {
        len,
        width,
        style: Style::default(),
    };
    let segments = vec![seg(1, 2), seg(10, 3), seg(100, 4)];

    let range = Segment::scan(&segments, 3, 5).unwrap();
    assert_eq!(
        range.start,
        Scan {
            i: 1,
            x: 2,
            index: 1,
            segment: seg(10, 3)
        }
    );
    assert_eq!(
        range.end,
        Scan {
            i: 11,
            x: 5,
            index: 2,
            segment: seg(100, 4)
        }
    );
}

#[test]
fn segment_scan_of_nothing_fails() {
    assert_eq!(Segment::scan(&vec![], 0, 0), Err(()));
    assert_eq!(Segment::scan(&vec![Segment::default()], 0, 0), Err(()));
}

#[test]
fn segment_scan_of_no_width() {
    let seg = |width| Segment {
        len: 0,
        width,
        style: Style::default(),
    };
    let segments = vec![seg(2), seg(3)];
    let range = Segment::scan(&segments, 2, 0).unwrap();
    assert_eq!((range.start.index, range.end.index), (1, 1));
    assert!(Segment::scan(&segments, 5, 0).is_err());
}
