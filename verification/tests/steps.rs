use fastgridcache::cost::cost_full;
use fastgridcache::SearcherFirstHorizontal;
use fastgridcache::SearcherFirstVertical;

#[test]
fn a_step_at_the_axis_length_is_rejected() {
    // The only vertical cut is seeded on the far edge already.
    let mut searcher = SearcherFirstHorizontal::create(100, 2, 1, 1);
    assert_eq!(searcher.filtered().get_raw_ref(), &vec![0, 1, 2, 100, 2]);

    assert!(!searcher.try_advance_index(1));
    assert_eq!(searcher.filtered().get_raw_ref(), &vec![0, 1, 2, 100, 2]);
}

#[test]
fn a_step_onto_the_next_coordinate_is_rejected() {
    let mut searcher = SearcherFirstVertical::create(100, 50, 5, 0);

    // 1 would become 2, the value of the next cut on the same axis.
    assert!(!searcher.try_advance_index(0));
    assert!(!searcher.try_advance_index(3));
    // The last cut has room up to the width.
    assert!(searcher.try_advance_index(4));
    assert_eq!(
        searcher.filtered().get_raw_ref(),
        &vec![0, 50, 1, 50, 2, 50, 3, 50, 4, 50, 5, 50, 100]
    );
}

#[test]
fn an_accepted_step_does_not_raise_the_cost() {
    let mut searcher = SearcherFirstVertical::create(100, 50, 3, 1);
    let before = cost_full(searcher.filtered().get_raw_ref());

    assert!(searcher.try_advance_index(3));
    searcher.advance_index(3);

    assert_eq!(
        searcher.filtered().get_raw_ref(),
        &vec![0, 1, 2, 50, 3, 50, 5, 50, 100]
    );
    let after = cost_full(searcher.filtered().get_raw_ref());
    assert!(after <= before);
}

#[test]
fn the_cost_of_the_seeded_layout() {
    let searcher = SearcherFirstHorizontal::create(100, 100, 1, 0);

    assert_eq!(searcher.filtered().get_raw_ref(), &vec![0, 1, 100, 100, 100]);
    // cells: 1 x 100 and 100 x 99; residual: the cut at 1
    assert_eq!(searcher.get_cost(), 1 * 100 * 99 / 2 + 100 * 99 * 197 / 2 + 1);
}

#[test]
fn the_search_stops_where_no_step_is_accepted() {
    let mut searcher = SearcherFirstHorizontal::create(100, 60, 3, 1);
    let sol = searcher.find_solution();

    for index in 0..4 {
        assert!(!searcher.try_advance_index(index));
    }
    assert_eq!(searcher.get_cost(), sol.cost());
    assert_eq!(searcher.horizontal_caches(), sol.horizontal_caches());
    assert_eq!(searcher.vertical_caches(), sol.vertical_caches());
}

#[test]
fn found_coordinates_rise_strictly() {
    for (width, height, nhoriz, nvert) in [(100u64, 50u64, 3usize, 1usize), (100, 80, 2, 2), (40, 9, 4, 2)] {
        for sol in [
            SearcherFirstHorizontal::solve(width, height, nhoriz, nvert),
            SearcherFirstVertical::solve(width, height, nhoriz, nvert),
        ] {
            let h = sol.horizontal_caches();
            let v = sol.vertical_caches();
            assert!(h.windows(2).all(|pair| pair[0] < pair[1]));
            assert!(v.windows(2).all(|pair| pair[0] < pair[1]));
            assert!(h.iter().all(|&x| 1 <= x && x < width));
            assert!(v.iter().all(|&x| 1 <= x && x < height));
        }
    }
}

#[test]
fn a_repeated_coordinate_may_step_onto_the_edge() {
    let mut searcher = SearcherFirstHorizontal::create(6, 6, 2, 2);
    assert_eq!(searcher.filtered().get_raw_ref(), &vec![0, 1, 2, 3, 4, 6, 6]);

    searcher.advance_index(3);
    searcher.advance_index(2);
    searcher.advance_index(2);
    for _ in 0..3 {
        searcher.advance_index(1);
    }
    // Both vertical cuts stand at 5 now.
    assert_eq!(searcher.filtered().get_raw_ref(), &vec![0, 1, 5, 5, 5, 6, 6]);
    assert_eq!(cost_full(searcher.filtered().get_raw_ref()), 105);

    // Moving the second one onto the edge costs the same, and a tie is accepted.
    assert!(searcher.try_advance_index(3));
    searcher.advance_index(3);
    assert_eq!(searcher.filtered().get_raw_ref(), &vec![0, 1, 5, 5, 6, 6, 6]);
    assert_eq!(cost_full(searcher.filtered().get_raw_ref()), 105);
}

#[test]
fn the_view_writes_through_to_the_buffer() {
    let mut searcher = SearcherFirstVertical::create(100, 50, 3, 1);
    assert_eq!(
        searcher.filtered().get_raw_ref(),
        &vec![0, 1, 2, 50, 3, 50, 4, 50, 100]
    );

    searcher.filtered_mut().set(3, 60);
    searcher.filtered_mut().set(0, 2);

    assert_eq!(
        searcher.filtered().get_raw_ref(),
        &vec![0, 2, 2, 50, 3, 50, 60, 50, 100]
    );
    assert_eq!(searcher.horizontal_caches(), vec![2, 3, 60]);
    assert_eq!(searcher.vertical_caches(), vec![2]);
    assert_eq!(searcher.get_cost(), 60 + 2 + cost_full(&[0, 2, 2, 50, 3, 50, 60, 50, 100]));
}
