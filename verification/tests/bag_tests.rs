use raptor::journey::Boarding;
use raptor::multicriteria::{Bag, Label, BAG_CAPACITY};
use raptor::network::GlobalTripIndex;

// Costs are counted in tenths, so that 4.5 is 45 units.
fn units(cost: f32) -> u64 {
    (cost * 10.0).round() as u64
}

fn label(arrival_time: u32, cost: f32) -> Label {
    Label::new(arrival_time, units(cost))
}

fn contents(bag: &Bag) -> Vec<(u32, u64)> {
    bag.as_vec().iter().map(|l| (l.arrival_time, l.cost)).collect()
}

#[test]
fn test_bag_add() {
    let mut bag = Bag::new();

    // Should always add the first label.
    assert_eq!(bag.add(label(5, 5.)), true);
    assert_eq!(bag.labels.len(), 1);

    // Should not add existing labels.
    assert_eq!(bag.add(label(5, 5.)), false);
    assert_eq!(bag.labels.len(), 1);

    // Should not add dominated labels.
    assert_eq!(bag.add(label(12, 9.)), false);
    assert_eq!(bag.add(label(9, 12.)), false);
    assert_eq!(bag.add(label(5, 7.)), false);
    assert_eq!(bag.add(label(7, 5.)), false);
    assert_eq!(bag.labels.len(), 1);

    // Should add non-dominated labels.
    assert_eq!(bag.add(label(7, 3.)), true);
    assert_eq!(bag.add(label(4, 10.)), true);
    assert_eq!(bag.add(label(3, 50.)), true);
    assert_eq!(bag.labels.len(), 4);

    // Should dominate existing labels.
    assert_eq!(bag.add(label(2, 5.)), true);
    assert_eq!(bag.add(label(1, 4.5)), true);
    assert_eq!(bag.labels.len(), 2);

    // Should replace existing labels with the same arrival time if the new label has a lower cost.
    assert_eq!(bag.add(label(7, 2.5)), true);
    assert_eq!(bag.add(label(7, 2.4)), true);
    assert_eq!(bag.add(label(7, 2.6)), false);
    assert_eq!(bag.labels.len(), 2);

    // Should discard the last label if the bag is full and the new label has a smaller arrival time.
    assert_eq!(bag.add(label(8, 1.9)), true);
    assert_eq!(bag.add(label(9, 1.8)), true);
    assert_eq!(bag.add(label(10, 1.7)), true);
    assert_eq!(bag.labels.len(), 5);
    assert_eq!(bag.add(label(6, 4.)), true);
    assert_eq!(bag.labels.len(), 5);
}

#[test]
fn bag_contents_after_each_step() {
    let mut bag = Bag::new();
    assert!(bag.is_empty());
    bag.add(label(5, 5.));
    assert_eq!(contents(&bag), vec![(5, 50)]);
    bag.add(label(7, 3.));
    bag.add(label(4, 10.));
    bag.add(label(3, 50.));
    assert_eq!(contents(&bag), vec![(3, 500), (4, 100), (5, 50), (7, 30)]);
    // (2, 5) beats (3, 50), (4, 10) and (5, 5), and leaves (7, 3).
    bag.add(label(2, 5.));
    assert_eq!(contents(&bag), vec![(2, 50), (7, 30)]);
    bag.add(label(1, 4.5));
    assert_eq!(contents(&bag), vec![(1, 45), (7, 30)]);
    // A label with the arrival time of another takes its place.
    bag.add(label(7, 2.5));
    assert_eq!(contents(&bag), vec![(1, 45), (7, 25)]);
    bag.add(label(7, 2.4));
    assert_eq!(contents(&bag), vec![(1, 45), (7, 24)]);
    bag.add(label(8, 1.9));
    bag.add(label(9, 1.8));
    bag.add(label(10, 1.7));
    assert_eq!(contents(&bag), vec![(1, 45), (7, 24), (8, 19), (9, 18), (10, 17)]);
    // Full: the label that arrives last gives way to one that arrives earlier.
    bag.add(label(6, 4.));
    assert_eq!(contents(&bag), vec![(1, 45), (6, 40), (7, 24), (8, 19), (9, 18)]);
    assert_eq!(bag.len(), BAG_CAPACITY);
}

#[test]
fn full_bag_refuses_a_label_that_arrives_last() {
    let mut bag = Bag::new();
    for (t, c) in [(1u32, 50u64), (3, 40), (5, 30), (7, 20), (9, 10)] {
        assert!(bag.add(Label::new(t, c)));
    }
    assert_eq!(bag.add(Label::new(10, 5)), false);
    assert_eq!(contents(&bag), vec![(1, 50), (3, 40), (5, 30), (7, 20), (9, 10)]);
    // One that arrives in the middle gets in, and the last one leaves.
    assert_eq!(bag.add(Label::new(4, 35)), true);
    assert_eq!(contents(&bag), vec![(1, 50), (3, 40), (4, 35), (5, 30), (7, 20)]);
    // One that takes the place of another leaves the rest alone.
    assert_eq!(bag.add(Label::new(5, 25)), true);
    assert_eq!(contents(&bag), vec![(1, 50), (3, 40), (4, 35), (5, 25), (7, 20)]);
}

#[test]
fn bag_stays_a_pareto_front() {
    let mut bag = Bag::new();
    let mut seed: u32 = 12345;
    for _ in 0..500 {
        seed = seed.wrapping_mul(1103515245).wrapping_add(12345);
        let t = (seed >> 16) % 40;
        seed = seed.wrapping_mul(1103515245).wrapping_add(12345);
        let c = ((seed >> 16) % 40) as u64;
        let before = contents(&bag);
        let changed = bag.add(Label::new(t, c));
        let after = contents(&bag);
        assert_eq!(changed, before != after);
        assert!(after.len() <= BAG_CAPACITY);
        for w in after.windows(2) {
            assert!(w[0].0 < w[1].0);
            assert!(w[0].1 > w[1].1);
        }
        for (i, a) in after.iter().enumerate() {
            for (j, b) in after.iter().enumerate() {
                if i != j {
                    assert!(!(a.0 <= b.0 && a.1 <= b.1));
                }
            }
        }
    }
}

#[test]
fn bag_dominates_what_a_label_dominates() {
    let mut bag = Bag::new();
    assert!(!bag.dominates(&Label::new(0, 0)));
    bag.add(Label::new(10, 20));
    bag.add(Label::new(20, 10));
    assert!(bag.dominates(&Label::new(10, 20)));
    assert!(bag.dominates(&Label::new(25, 10)));
    assert!(bag.dominates(&Label::new(15, 25)));
    assert!(!bag.dominates(&Label::new(15, 15)));
    assert!(!bag.dominates(&Label::new(9, 100)));
    assert!(Label::new(1, 1).dominates(&Label::new(1, 1)));
    assert!(!Label::new(1, 2).dominates(&Label::new(1, 1)));
}

#[test]
fn bag_keeps_the_boarding_of_a_label() {
    let boarding = Boarding {
        boarded_stop: 3,
        boarded_stop_order: 1,
        boarded_time: 100,
        trip: GlobalTripIndex { route_idx: 2, trip_order: 7 },
    };
    let mut bag = Bag::new();
    bag.add(Label { arrival_time: 200, cost: 4, boarding: Some(boarding) });
    bag.add(Label::new(100, 9));
    assert_eq!(bag.get(0).boarding, None);
    assert_eq!(bag.get(1).boarding, Some(boarding));
    assert_eq!(bag.get(1).arrival_time, 200);
}
