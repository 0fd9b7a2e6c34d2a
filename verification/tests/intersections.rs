use rect_intersect::{brute_force_intersect, intersect, random_rects, to_comparable, Rect};

#[test]
fn trivial1() {
    let r1 = Rect {
        x1: 5,
        x2: 10,
        y1: 2,
        y2: 8,
    };

    let r2 = Rect {
        x1: 5,
        x2: 10,
        y1: 2,
        y2: 8,
    };

    assert!(r1.intersects(&r2));
    assert_eq!(
        to_comparable(intersect(&[r1, r2])),
        to_comparable(vec![(1, 0)])
    );
}

#[test]
fn trivial2() {
    let r1 = Rect {
        x1: 5,
        x2: 10,
        y1: 2,
        y2: 8,
    };

    let r2 = Rect {
        x1: 50,
        x2: 60,
        y1: 2,
        y2: 8,
    };

    assert!(!r1.intersects(&r2));
    assert_eq!(to_comparable(intersect(&[r1, r2])), vec![]);
}

#[test]
fn trivial3() {
    let r1 = Rect {
        x1: 5,
        x2: 10,
        y1: 2,
        y2: 8,
    };

    let r2 = Rect {
        x1: 9,
        x2: 25,
        y1: 2,
        y2: 8,
    };

    assert!(r1.intersects(&r2));
    assert_eq!(
        to_comparable(intersect(&[r1, r2])),
        to_comparable(vec![(1, 0)])
    );
}

#[test]
fn random1() {
    let rects = random_rects(20, 0);
    assert_eq!(
        to_comparable(intersect(&rects)),
        to_comparable(brute_force_intersect(&rects)),
    );
}

#[test]
fn random2() {
    let rects = random_rects(100, 422);
    assert_eq!(
        to_comparable(intersect(&rects)),
        to_comparable(brute_force_intersect(&rects)),
    );
}

#[test]
fn random3() {
    let rects = random_rects(10_000, 3290);
    assert_eq!(
        to_comparable(intersect(&rects)),
        to_comparable(brute_force_intersect(&rects)),
    );
}
