use fastgridcache::get_cache_locations;
use fastgridcache::get_cost;
use fastgridcache::gridsearcher::is_searchable_grid;
use fastgridcache::gridsearcher::MAX_WIDTH;
use fastgridcache::SearcherFirstHorizontal;
use fastgridcache::SearcherFirstVertical;

fn closed(cuts: &[u64], length: u64) -> Vec<u64> {
    let mut full = cuts.to_vec();
    full.push(length);
    full
}

#[test]
fn cost_of_a_solution_is_the_cost_of_its_grid() {
    for (width, height, nhoriz, nvert) in [
        (100u64, 50u64, 3usize, 1usize),
        (100, 60, 3, 1),
        (100, 80, 2, 2),
        (100, 100, 1, 0),
        (4, 4, 2, 2),
        (3, 2, 1, 1),
        (30, 7, 5, 3),
        (60, 20, 6, 6),
    ] {
        let sol = get_cache_locations(width, height, nhoriz, nvert);
        let w = closed(sol.horizontal_caches(), width);
        let h = closed(sol.vertical_caches(), height);
        assert_eq!(sol.cost(), get_cost(&w, &h));
    }
}

#[test]
fn each_layout_costs_what_its_grid_costs() {
    for (width, height, nhoriz, nvert) in [(100u64, 50u64, 3usize, 1usize), (4, 4, 2, 2), (40, 9, 4, 2)] {
        let first = SearcherFirstHorizontal::create(width, height, nhoriz, nvert).find_solution();
        let w = closed(first.horizontal_caches(), width);
        let h = closed(first.vertical_caches(), height);
        assert_eq!(first.cost(), get_cost(&w, &h));

        let second = SearcherFirstVertical::create(width, height, nhoriz, nvert).find_solution();
        let w = closed(second.horizontal_caches(), width);
        let h = closed(second.vertical_caches(), height);
        assert_eq!(second.cost(), get_cost(&w, &h));
    }
}

#[test]
fn paired_coordinates_on_the_far_edge() {
    let sol = SearcherFirstHorizontal::create(4, 4, 2, 2).find_solution();

    assert_eq!(sol.horizontal_caches(), [2, 3]);
    assert_eq!(sol.vertical_caches(), [2, 4]);
    assert_eq!(sol.cost(), 27);
    assert_eq!(get_cost(&[2, 3, 4], &[2, 4, 4]), 27);
}

#[test]
fn same_inputs_same_solution() {
    let once = get_cache_locations(100, 60, 3, 1);
    let again = get_cache_locations(100, 60, 3, 1);

    assert_eq!(once, again);
    assert_eq!(once.cost(), again.cost());
    assert_eq!(once.horizontal_caches(), again.horizontal_caches());
    assert_eq!(once.vertical_caches(), again.vertical_caches());
}

#[test]
fn the_cheaper_layout_wins() {
    let first = SearcherFirstHorizontal::solve(100, 50, 3, 1);
    let second = SearcherFirstVertical::solve(100, 50, 3, 1);
    let best = get_cache_locations(100, 50, 3, 1);

    assert_eq!(first.cost(), 164_924);
    assert_eq!(first.horizontal_caches(), [26, 52, 76]);
    assert_eq!(first.vertical_caches(), [32]);
    assert_eq!(second.cost(), 164_053);
    assert_eq!(best, second);

    let first = SearcherFirstHorizontal::solve(100, 60, 3, 1);
    let second = SearcherFirstVertical::solve(100, 60, 3, 1);
    let best = get_cache_locations(100, 60, 3, 1);

    assert_eq!(second.cost(), 221_569);
    assert_eq!(best, first);
}

#[test]
fn horizontal_first_wins_a_tie() {
    let first = SearcherFirstHorizontal::solve(2, 2, 1, 1);
    let second = SearcherFirstVertical::solve(2, 2, 1, 1);
    let best = get_cache_locations(2, 2, 1, 1);

    assert_eq!(first.cost(), 5);
    assert_eq!(second.cost(), 5);
    assert_eq!(first.horizontal_caches(), [1]);
    assert_eq!(first.vertical_caches(), [2]);
    assert_eq!(second.horizontal_caches(), [2]);
    assert_eq!(second.vertical_caches(), [1]);
    assert_eq!(best, first);
}

#[test]
fn horizontal_first_initial_buffer() {
    let searcher = SearcherFirstHorizontal::create(100, 50, 5, 2);
    assert_eq!(
        searcher.filtered().get_raw_ref(),
        &vec![0, 1, 2, 3, 4, 5, 50, 6, 50, 7, 50, 100, 50]
    );
    assert_eq!(searcher.filtered().len(), 7);
    for e in 0..7 {
        assert_eq!(*searcher.filtered().get(e) as usize, e + 1);
    }
    assert_eq!(searcher.width(), 100);
    assert_eq!(searcher.horizontal_caches(), vec![1, 3, 5, 6, 7]);
    assert_eq!(searcher.vertical_caches(), vec![2, 4]);
}

#[test]
fn vertical_first_reads_its_coordinates() {
    let searcher = SearcherFirstVertical::create(100, 50, 5, 2);

    assert_eq!(searcher.width(), 100);
    assert_eq!(searcher.horizontal_caches(), vec![2, 4, 5, 6, 7]);
    assert_eq!(searcher.vertical_caches(), vec![1, 3]);
}

#[test]
fn searchable_grids() {
    assert!(is_searchable_grid(100, 50, 3, 1));
    assert!(is_searchable_grid(100, 100, 1, 0));
    assert!(is_searchable_grid(2, 2, 1, 1));
    assert!(is_searchable_grid(MAX_WIDTH, MAX_WIDTH, 1, 0));
    // no cut at all
    assert!(!is_searchable_grid(100, 50, 0, 0));
    // more vertical than horizontal cuts
    assert!(!is_searchable_grid(100, 50, 1, 2));
    // taller than wide
    assert!(!is_searchable_grid(50, 100, 3, 1));
    // too wide for the cost type
    assert!(!is_searchable_grid(MAX_WIDTH + 1, 10, 3, 1));
    // the seeds do not fit
    assert!(!is_searchable_grid(100, 3, 2, 2));
    assert!(!is_searchable_grid(5, 5, 3, 3));
    assert!(!is_searchable_grid(3, 3, 3, 0));
}

#[test]
fn solutions_are_ordered_by_cost() {
    let first = SearcherFirstHorizontal::solve(100, 50, 3, 1);
    let second = SearcherFirstVertical::solve(100, 50, 3, 1);

    assert!(second < first);
    assert!(first > second);
    assert!(first != second);

    let first = SearcherFirstHorizontal::solve(2, 2, 1, 1);
    let second = SearcherFirstVertical::solve(2, 2, 1, 1);

    assert!(first <= second);
    assert!(second <= first);
    assert!(first != second);
}

#[test]
fn more_cuts_may_cost_more() {
    assert_eq!(get_cache_locations(2, 2, 1, 0).cost(), 3);
    assert_eq!(get_cache_locations(2, 2, 1, 1).cost(), 5);
    assert_eq!(get_cache_locations(3, 2, 1, 1).cost(), 6);
    assert_eq!(get_cache_locations(3, 2, 2, 1).cost(), 7);
}
