use rect_intersect::brute::brute_force_intersect;
use rect_intersect::canonical::to_comparable;
use rect_intersect::classify::y_sorted;
use rect_intersect::detect::{detect, intersect, intersect_callback, scan_across};
use rect_intersect::events::boundary_events;
use rect_intersect::random::{random_rects, random_rects_detailed, rect_from_corner};
use rect_intersect::rect::{check_all_valid, Rect};
use rect_intersect::report::emit;
use rect_intersect::stab::stab;

fn rect(x1: i32, x2: i32, y1: i32, y2: i32) -> Rect {
    Rect { x1, y1, x2, y2 }
}

fn sorted(mut pairs: Vec<(usize, usize)>) -> Vec<(usize, usize)> {
    pairs.sort();
    pairs
}

#[test]
fn intersects_is_closed_on_both_axes() {
    let a = rect(0, 10, 0, 10);
    assert!(a.intersects(&rect(10, 20, 10, 20)));
    assert!(a.intersects(&rect(-5, 0, -5, 0)));
    assert!(a.intersects(&rect(3, 4, 3, 4)));
    assert!(!a.intersects(&rect(11, 20, 0, 10)));
    assert!(!a.intersects(&rect(0, 10, 11, 20)));
    assert!(!a.intersects(&rect(-9, -1, 0, 10)));
    assert!(!a.intersects(&rect(0, 10, -9, -1)));
}

#[test]
fn intersects_is_symmetric() {
    let rects = random_rects(40, 7);
    for a in &rects {
        for b in &rects {
            assert_eq!(a.intersects(b), b.intersects(a));
        }
    }
}

#[test]
fn is_valid_tests_both_extents() {
    assert!(rect(1, 1, 2, 2).is_valid());
    assert!(rect(1, 5, 2, 3).is_valid());
    assert!(!rect(5, 1, 2, 3).is_valid());
    assert!(!rect(1, 5, 3, 2).is_valid());
}

#[test]
fn emit_appends_a_pair() {
    let mut out = vec![(7, 8)];
    emit(&mut out, 1, 2);
    emit(&mut out, 2, 1);
    assert_eq!(out, vec![(7, 8), (1, 2), (2, 1)]);
}

#[test]
fn emit_drops_a_self_pair() {
    let mut out = vec![(7, 8)];
    emit(&mut out, 3, 3);
    assert_eq!(out, vec![(7, 8)]);
}

#[test]
fn boundary_events_are_sorted_by_coordinate() {
    let rects = [rect(9, 25, 2, 8), rect(5, 10, 2, 8), rect(-3, 7, 0, 1)];
    let events = boundary_events(&rects);
    assert_eq!(
        events,
        vec![(-3, 2), (5, 1), (7, 2), (9, 0), (10, 1), (25, 0)]
    );
}

#[test]
fn boundary_events_keep_ties_in_collection_order() {
    let rects = [rect(5, 10, 2, 8), rect(5, 10, 2, 8)];
    assert_eq!(
        boundary_events(&rects),
        vec![(5, 0), (5, 1), (10, 0), (10, 1)]
    );
}

#[test]
fn boundary_events_of_nothing() {
    assert_eq!(boundary_events(&[]), vec![]);
}

#[test]
fn y_sorted_orders_a_stretch_by_y1() {
    let rects = [rect(0, 1, 30, 31), rect(2, 3, 10, 11), rect(4, 5, 20, 21)];
    let events = boundary_events(&rects);
    assert_eq!(
        y_sorted(&rects, &events, 0, 6),
        vec![(10, 1), (10, 1), (20, 2), (20, 2), (30, 0), (30, 0)]
    );
    assert_eq!(y_sorted(&rects, &events, 1, 4), vec![(10, 1), (10, 1), (30, 0)]);
    assert_eq!(y_sorted(&rects, &events, 3, 3), vec![]);
}

#[test]
fn stab_reports_overlaps_in_y() {
    // y-intervals: 0: [0,4], 1: [5,9], 2: [2,6], 3: [10,12]
    let rects = [
        rect(0, 1, 0, 4),
        rect(0, 1, 5, 9),
        rect(0, 1, 2, 6),
        rect(0, 1, 10, 12),
    ];
    let mut out = vec![];
    stab(&rects, &[0, 1], &[2, 3], &mut out);
    assert_eq!(out, vec![(0, 2), (2, 1)]);
}

#[test]
fn stab_counts_touching_in_y() {
    let rects = [rect(0, 1, 0, 4), rect(0, 1, 4, 9), rect(0, 1, 9, 9)];
    let mut out = vec![];
    stab(&rects, &[0, 2], &[1], &mut out);
    assert_eq!(sorted(to_comparable(out)), vec![(0, 1), (1, 2)]);
}

#[test]
fn stab_of_equal_starts() {
    let rects = [rect(0, 1, 3, 4), rect(0, 1, 3, 5), rect(0, 1, 3, 3)];
    let mut out = vec![];
    stab(&rects, &[0], &[1, 2], &mut out);
    assert_eq!(out, vec![(1, 0), (2, 0)]);
}

#[test]
fn stab_never_pairs_a_rectangle_with_itself() {
    let rects = [rect(0, 1, 0, 4), rect(0, 1, 1, 2)];
    let mut out = vec![];
    stab(&rects, &[0, 1], &[0, 1], &mut out);
    assert!(out.iter().all(|&(a, b)| a != b));
    assert_eq!(to_comparable(out), vec![(0, 1)]);
}

#[test]
fn stab_with_an_empty_list() {
    let rects = [rect(0, 1, 0, 4)];
    let mut out = vec![(5, 6)];
    stab(&rects, &[], &[0], &mut out);
    stab(&rects, &[0], &[], &mut out);
    assert_eq!(out, vec![(5, 6)]);
}

#[test]
fn detect_on_a_short_stretch_reports_nothing() {
    let rects = [rect(0, 10, 0, 10), rect(5, 15, 5, 15)];
    let events = boundary_events(&rects);
    let mut out = vec![];
    detect(&rects, &events, 0, 0, &mut out);
    detect(&rects, &events, 1, 2, &mut out);
    assert_eq!(out, vec![]);
}

#[test]
fn detect_on_a_stretch_finds_the_pairs_with_events_in_it() {
    // events: (0,0) (5,1) (10,0) (15,1) (20,2) (30,2)
    let rects = [rect(0, 10, 0, 10), rect(5, 15, 5, 15), rect(20, 30, 0, 10)];
    let events = boundary_events(&rects);
    let mut out = vec![];
    detect(&rects, &events, 0, 4, &mut out);
    assert_eq!(to_comparable(out), vec![(0, 1)]);
    let mut out = vec![];
    detect(&rects, &events, 4, 6, &mut out);
    assert_eq!(to_comparable(out), vec![]);
}

#[test]
fn intersect_callback_appends_to_the_sink() {
    let rects = [rect(0, 10, 0, 10), rect(5, 15, 5, 15)];
    let mut out = vec![(9, 9)];
    intersect_callback(&rects, &mut out);
    assert_eq!(out[0], (9, 9));
    assert_eq!(to_comparable(out[1..].to_vec()), vec![(0, 1)]);
}

#[test]
fn empty_and_singleton_have_no_pairs() {
    assert_eq!(intersect(&[]), vec![]);
    assert_eq!(intersect(&[rect(5, 10, 2, 8)]), vec![]);
    assert_eq!(intersect(&[rect(3, 3, 3, 3)]), vec![]);
    assert_eq!(brute_force_intersect(&[]), vec![]);
    assert_eq!(brute_force_intersect(&[rect(5, 10, 2, 8)]), vec![]);
}

#[test]
fn coincident_rectangles_give_one_pair() {
    let r = rect(5, 10, 2, 8);
    let out = intersect(&[r, r]);
    assert!(!out.is_empty());
    assert_eq!(to_comparable(out), vec![(0, 1)]);
}

#[test]
fn degenerate_rectangles_give_one_pair() {
    let r = rect(4, 4, 4, 4);
    assert_eq!(to_comparable(intersect(&[r, r])), vec![(0, 1)]);
    assert_eq!(to_comparable(intersect(&[r, r, r])), vec![(0, 1), (0, 2), (1, 2)]);
}

#[test]
fn touching_in_x_counts() {
    let rects = [rect(0, 5, 0, 5), rect(5, 9, 0, 5)];
    assert_eq!(to_comparable(intersect(&rects)), vec![(0, 1)]);
}

#[test]
fn touching_in_a_corner_counts() {
    let rects = [rect(0, 5, 0, 5), rect(5, 9, 5, 9)];
    assert_eq!(to_comparable(intersect(&rects)), vec![(0, 1)]);
}

#[test]
fn disjoint_in_y_gives_no_pair() {
    let rects = [rect(5, 10, 2, 8), rect(5, 10, 9, 12)];
    assert_eq!(intersect(&rects), vec![]);
}

#[test]
fn disjoint_in_x_gives_no_pair() {
    let rects = [rect(5, 10, 2, 8), rect(50, 60, 2, 8)];
    assert_eq!(intersect(&rects), vec![]);
}

#[test]
fn nested_and_crossing_rectangles() {
    let rects = [
        rect(0, 100, 0, 100),
        rect(10, 20, 10, 20),
        rect(-5, 200, 50, 60),
        rect(150, 160, 0, 100),
        rect(300, 310, 0, 5),
    ];
    assert_eq!(
        to_comparable(intersect(&rects)),
        vec![(0, 1), (0, 2), (2, 3)]
    );
}

#[test]
fn no_self_pairs_are_reported() {
    let r = rect(5, 10, 2, 8);
    let mut rects = vec![r, r, r, rect(10, 10, 8, 8), rect(5, 5, 2, 2)];
    rects.extend(random_rects(200, 11));
    for (a, b) in intersect(&rects) {
        assert_ne!(a, b);
    }
}

#[test]
fn reported_pairs_intersect_both_ways() {
    let rects = random_rects(300, 5);
    let out = intersect(&rects);
    assert!(!out.is_empty());
    for (a, b) in out {
        assert!(a < rects.len() && b < rects.len());
        assert!(rects[a].intersects(&rects[b]));
        assert!(rects[b].intersects(&rects[a]));
    }
}

#[test]
fn every_intersecting_pair_is_reported() {
    let rects = random_rects_detailed(250, 99, 30, 8);
    let out = intersect(&rects);
    for i in 0..rects.len() {
        for j in i + 1..rects.len() {
            let found = out.contains(&(i, j)) || out.contains(&(j, i));
            assert_eq!(found, rects[i].intersects(&rects[j]));
        }
    }
}

#[test]
fn comparable_form_equals_the_brute_force_list() {
    for seed in 0..30 {
        let rects = random_rects_detailed(60, seed, 12, 6);
        let brute = brute_force_intersect(&rects);
        assert_eq!(to_comparable(intersect(&rects)), brute);
        assert_eq!(to_comparable(brute.clone()), brute);
    }
}

#[test]
fn many_shared_coordinates() {
    for seed in 0..50 {
        let rects = random_rects_detailed(40, seed, 2, 3);
        assert_eq!(
            to_comparable(intersect(&rects)),
            brute_force_intersect(&rects)
        );
    }
}

#[test]
fn brute_force_lists_pairs_in_ascending_order() {
    let rects = [
        rect(0, 10, 0, 10),
        rect(5, 15, 5, 15),
        rect(8, 9, 8, 9),
        rect(40, 50, 0, 10),
    ];
    assert_eq!(brute_force_intersect(&rects), vec![(0, 1), (0, 2), (1, 2)]);
}

#[test]
fn to_comparable_orders_and_deduplicates() {
    let out = to_comparable(vec![(3, 1), (1, 0), (0, 1), (2, 2), (0, 1), (1, 3), (0, 7), (5, 0)]);
    assert_eq!(out, vec![(0, 1), (0, 5), (0, 7), (1, 3)]);
}

#[test]
fn to_comparable_of_nothing() {
    assert_eq!(to_comparable(vec![]), vec![]);
    assert_eq!(to_comparable(vec![(4, 4), (0, 0)]), vec![]);
}

#[test]
fn to_comparable_is_idempotent() {
    let once = to_comparable(vec![(9, 2), (2, 9), (1, 5), (5, 4), (4, 5)]);
    assert_eq!(once, vec![(1, 5), (2, 9), (4, 5)]);
    assert_eq!(to_comparable(once.clone()), once);
}

#[test]
fn rect_from_corner_adds_the_size() {
    let r = rect_from_corner(-7, 3, 4, 9);
    assert_eq!((r.x1, r.y1, r.x2, r.y2), (-7, 3, -3, 12));
}

#[test]
fn random_rects_are_within_their_bounds() {
    let rects = random_rects(500, 1);
    assert_eq!(rects.len(), 500);
    for r in &rects {
        assert!(r.is_valid());
        assert!(-100 <= r.x1 && r.x1 <= 100);
        assert!(-100 <= r.y1 && r.y1 <= 100);
        assert!(1 <= r.x2 - r.x1 && r.x2 - r.x1 <= 50);
        assert!(1 <= r.y2 - r.y1 && r.y2 - r.y1 <= 50);
    }
}

#[test]
fn random_rects_detailed_are_within_their_bounds() {
    let rects = random_rects_detailed(300, 8, 0, 1);
    assert_eq!(rects.len(), 300);
    for r in &rects {
        assert_eq!((r.x1, r.y1, r.x2, r.y2), (0, 0, 1, 1));
    }
    let rects = random_rects_detailed(300, 8, 1000, 3);
    assert!(rects.iter().any(|r| r.x1 != rects[0].x1));
    for r in &rects {
        assert!(-1000 <= r.x1 && r.x1 <= 1000);
        assert!(-1000 <= r.y1 && r.y1 <= 1000);
        assert!(1 <= r.x2 - r.x1 && r.x2 - r.x1 <= 3);
        assert!(1 <= r.y2 - r.y1 && r.y2 - r.y1 <= 3);
    }
}

#[test]
fn random_rects_repeat_for_a_seed() {
    let a = random_rects(50, 1234);
    let b = random_rects(50, 1234);
    for (r, s) in a.iter().zip(b.iter()) {
        assert_eq!((r.x1, r.y1, r.x2, r.y2), (s.x1, s.y1, s.x2, s.y2));
    }
    assert_eq!(random_rects(0, 1234).len(), 0);
}

#[test]
fn check_all_valid_finds_an_invalid_rectangle() {
    assert!(check_all_valid(&[]));
    assert!(check_all_valid(&[rect(0, 1, 0, 1), rect(3, 3, 4, 4)]));
    assert!(!check_all_valid(&[rect(0, 1, 0, 1), rect(3, 2, 4, 4)]));
    assert!(!check_all_valid(&[rect(0, 1, 1, 0), rect(3, 3, 4, 4)]));
}

#[test]
fn stab_reports_a_touch_in_y_once() {
    let rects = [rect(0, 1, 0, 5), rect(0, 1, 5, 9)];
    let mut out = vec![];
    stab(&rects, &[0], &[1], &mut out);
    assert_eq!(out, vec![(0, 1)]);
}

#[test]
fn stab_puts_the_second_list_first_on_a_tie() {
    let rects = [rect(0, 1, 2, 8), rect(0, 1, 2, 8)];
    let mut out = vec![];
    stab(&rects, &[0], &[1], &mut out);
    assert_eq!(out, vec![(1, 0)]);
}

#[test]
fn stab_does_not_look_at_x() {
    let rects = [rect(0, 1, 0, 5), rect(100, 101, 3, 4)];
    let mut out = vec![];
    stab(&rects, &[0], &[1], &mut out);
    assert_eq!(out, vec![(0, 1)]);
}

#[test]
fn stab_stops_a_run_at_the_first_rectangle_above() {
    let rects = [rect(0, 1, 0, 2), rect(0, 1, 3, 4), rect(0, 1, 1, 6)];
    let mut out = vec![];
    stab(&rects, &[0], &[2, 1], &mut out);
    assert_eq!(out, vec![(0, 2)]);
}

#[test]
fn stab_reports_once_for_every_overlap() {
    let rects = random_rects(60, 17);
    let mut by_y: Vec<usize> = (0..rects.len()).collect();
    by_y.sort_by_key(|&i| rects[i].y1);
    let a: Vec<usize> = by_y.iter().copied().filter(|i| i % 3 != 0).collect();
    let b: Vec<usize> = by_y.iter().copied().filter(|i| i % 2 == 0).collect();
    let mut out = vec![(7, 7)];
    stab(&rects, &a, &b, &mut out);
    let mut expected = 0;
    for &x in &a {
        for &y in &b {
            if x != y && rects[x].y1 <= rects[y].y2 && rects[y].y1 <= rects[x].y2 {
                expected += 1;
            }
        }
    }
    assert_eq!(out.len(), 1 + expected);
    for &(p, q) in &out[1..] {
        assert!(rects[p].y1 <= rects[q].y1);
        if rects[p].y1 == rects[q].y1 {
            assert!(b.contains(&p) && a.contains(&q));
        }
    }
}

#[test]
fn scan_across_joins_the_two_halves() {
    // events: (0,0) (5,1) (10,0) (15,1)
    let rects = [rect(0, 10, 0, 10), rect(5, 15, 5, 15)];
    let events = boundary_events(&rects);
    let mut out = vec![];
    scan_across(&rects, &events, 0, 2, 4, &mut out);
    assert_eq!(out, vec![(0, 1)]);
    let mut out = vec![(8, 9)];
    scan_across(&rects, &events, 0, 1, 2, &mut out);
    assert_eq!(out, vec![(8, 9), (0, 1)]);
    let mut out = vec![];
    scan_across(&rects, &events, 2, 3, 4, &mut out);
    assert_eq!(out, vec![(0, 1)]);
    // events: (0,0) (1,0) (10,1) (11,1)
    let apart = [rect(0, 1, 0, 10), rect(10, 11, 0, 10)];
    let events = boundary_events(&apart);
    let mut out = vec![];
    scan_across(&apart, &events, 0, 2, 4, &mut out);
    assert_eq!(out, vec![]);
}

#[test]
fn detect_reports_only_rectangles_of_the_stretch() {
    let rects = random_rects_detailed(80, 3, 20, 10);
    let events = boundary_events(&rects);
    let (lo, hi) = (30, 90);
    let mut out = vec![];
    detect(&rects, &events, lo, hi, &mut out);
    assert!(!out.is_empty());
    for (a, b) in out {
        assert!(events[lo..hi].iter().any(|e| e.1 == a));
        assert!(events[lo..hi].iter().any(|e| e.1 == b));
    }
}

#[test]
fn intersect_is_what_the_detector_appends() {
    let rects = random_rects(120, 64);
    let mut out = vec![(3, 4)];
    intersect_callback(&rects, &mut out);
    assert_eq!(out[0], (3, 4));
    assert_eq!(out[1..].to_vec(), intersect(&rects));
    let events = boundary_events(&rects);
    let mut direct = vec![];
    detect(&rects, &events, 0, events.len(), &mut direct);
    assert_eq!(direct, intersect(&rects));
}

#[test]
fn intersect_reports_in_the_order_of_the_scans() {
    let r = rect(5, 10, 2, 8);
    assert_eq!(intersect(&[r, r]), vec![(0, 1), (1, 0), (1, 0), (0, 1)]);
    assert_eq!(
        intersect(&[rect(5, 10, 2, 8), rect(9, 25, 2, 8)]),
        vec![(0, 1), (1, 0), (0, 1)]
    );
}
