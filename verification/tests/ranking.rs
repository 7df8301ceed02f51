use khadyota::ranking::{
    first_minimum, indices_of, place_bounded, score_all, select_nearest, Scored,
};

fn item(index: usize, distance: f32) -> Scored {
    Scored { index, distance: distance.to_bits() }
}

#[test]
fn nearest_come_out_in_ascending_order() {
    let items = vec![item(0, 5.0), item(1, 1.0), item(2, 3.0), item(3, 0.5), item(4, 4.0)];
    let best = select_nearest(&items, 3);
    assert_eq!(best, vec![item(3, 0.5), item(1, 1.0), item(2, 3.0)]);
}

#[test]
fn asking_for_more_than_there_is_gives_all() {
    let items = vec![item(7, 2.0), item(3, 1.0)];
    let best = select_nearest(&items, 10);
    assert_eq!(best, vec![item(3, 1.0), item(7, 2.0)]);
    assert_eq!(select_nearest(&items, 2).len(), 2);
    assert_eq!(select_nearest(&items, 1), vec![item(3, 1.0)]);
}

#[test]
fn asking_for_none_gives_none() {
    let items = vec![item(7, 2.0), item(3, 1.0)];
    assert!(select_nearest(&items, 0).is_empty());
    assert!(select_nearest(&Vec::new(), 4).is_empty());
}

#[test]
fn equal_distances_are_ordered_by_index() {
    let items = vec![item(9, 1.0), item(2, 1.0), item(5, 1.0), item(1, 2.0), item(0, 1.0)];
    let best = select_nearest(&items, 4);
    assert_eq!(indices_of(&best), vec![0, 2, 5, 9]);
    let flipped: Vec<Scored> = items.iter().rev().cloned().collect();
    assert_eq!(select_nearest(&flipped, 4), best);
}

#[test]
fn negative_distances_come_before_positive_ones() {
    let items = vec![item(0, 0.25), item(1, -3.0), item(2, -0.5), item(3, 0.0), item(4, -0.0)];
    let best = select_nearest(&items, 5);
    assert_eq!(indices_of(&best), vec![1, 2, 3, 4, 0]);
}

#[test]
fn selection_agrees_with_a_full_sort() {
    let mut items = Vec::new();
    let mut state: u32 = 12345;
    for i in 0..500usize {
        state = state.wrapping_mul(1664525).wrapping_add(1013904223);
        let d = ((state >> 8) % 97) as f32 * 0.25 - 6.0;
        items.push(item(i, d));
    }
    let mut sorted = items.clone();
    sorted.sort_by(|a, b| {
        f32::from_bits(a.distance)
            .partial_cmp(&f32::from_bits(b.distance))
            .unwrap()
            .then(a.index.cmp(&b.index))
    });
    for k in [0usize, 1, 2, 10, 499, 500, 501] {
        let best = select_nearest(&items, k);
        let want: Vec<Scored> = sorted.iter().take(k).cloned().collect();
        assert_eq!(best, want, "k = {}", k);
    }
}

#[test]
fn place_bounded_keeps_the_best() {
    let mut best = vec![item(1, 1.0), item(2, 2.0), item(3, 3.0)];
    place_bounded(&mut best, item(9, 2.5), 3);
    assert_eq!(best, vec![item(1, 1.0), item(2, 2.0), item(9, 2.5)]);
    place_bounded(&mut best, item(8, 7.0), 3);
    assert_eq!(best, vec![item(1, 1.0), item(2, 2.0), item(9, 2.5)]);
    place_bounded(&mut best, item(7, 0.0), 4);
    assert_eq!(best, vec![item(7, 0.0), item(1, 1.0), item(2, 2.0), item(9, 2.5)]);
}

#[test]
fn first_minimum_is_the_first_of_the_least() {
    let d: Vec<u32> = [3.0f32, 1.0, 2.0, 1.0, 5.0].iter().map(|x| x.to_bits()).collect();
    assert_eq!(first_minimum(&d), 1);
    let one: Vec<u32> = vec![7.5f32.to_bits()];
    assert_eq!(first_minimum(&one), 0);
    let zeros: Vec<u32> = vec![0.0f32.to_bits(), (-0.0f32).to_bits()];
    assert_eq!(first_minimum(&zeros), 0);
    let falling: Vec<u32> = [4.0f32, 3.0, 2.0, 1.0].iter().map(|x| x.to_bits()).collect();
    assert_eq!(first_minimum(&falling), 3);
}

#[test]
fn score_all_scores_each_position() {
    let d: Vec<u32> = vec![10, 20, 30];
    let scored = score_all(&d);
    assert_eq!(
        scored,
        vec![
            Scored { index: 0, distance: 10 },
            Scored { index: 1, distance: 20 },
            Scored { index: 2, distance: 30 }
        ]
    );
    assert_eq!(indices_of(&scored), vec![0, 1, 2]);
}
