use convert_to_chrome_trace::order::sort_by_time;

#[test]
fn sort_of_nothing_and_of_one() {
    let none: Vec<(u64, char)> = Vec::new();
    assert_eq!(sort_by_time(none), Vec::new());
    assert_eq!(sort_by_time(vec![(5, 'a')]), vec![(5, 'a')]);
}

#[test]
fn sort_orders_by_time() {
    let items = vec![(30, 'a'), (10, 'b'), (20, 'c'), (0, 'd'), (u64::MAX, 'e'), (15, 'f')];
    assert_eq!(
        sort_by_time(items),
        vec![(0, 'd'), (10, 'b'), (15, 'f'), (20, 'c'), (30, 'a'), (u64::MAX, 'e')]
    );
}

#[test]
fn sort_keeps_the_order_of_equal_times() {
    let items = vec![(2, 'a'), (1, 'b'), (2, 'c'), (1, 'd'), (2, 'e'), (1, 'f'), (0, 'g')];
    assert_eq!(
        sort_by_time(items),
        vec![(0, 'g'), (1, 'b'), (1, 'd'), (1, 'f'), (2, 'a'), (2, 'c'), (2, 'e')]
    );
}

#[test]
fn sort_leaves_sorted_items_as_they_are() {
    let items: Vec<(u64, usize)> = (0..100).map(|i| ((i / 3) as u64, i)).collect();
    assert_eq!(sort_by_time(items.clone()), items);
}

#[test]
fn sort_of_items_that_own_their_contents() {
    let items = vec![(3, "c".to_string()), (1, "a".to_string()), (2, "b".to_string())];
    assert_eq!(
        sort_by_time(items),
        vec![(1, "a".to_string()), (2, "b".to_string()), (3, "c".to_string())]
    );
}

#[test]
fn sort_agrees_with_the_stable_sort_of_the_standard_library() {
    let mut seed: u64 = 2024;
    for len in 0..70usize {
        let mut items: Vec<(u64, usize)> = Vec::new();
        for i in 0..len {
            seed = seed.wrapping_mul(6364136223846793005).wrapping_add(1442695040888963407);
            items.push(((seed >> 60) % 7, i));
        }
        let mut expected = items.clone();
        expected.sort_by_key(|item| item.0);
        assert_eq!(sort_by_time(items), expected);
    }
}
