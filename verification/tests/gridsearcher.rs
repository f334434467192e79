use fastgridcache::get_cache_locations;
use fastgridcache::get_cost;
use fastgridcache::SearcherFirstHorizontal;
use fastgridcache::SearcherFirstVertical;
use fastgridcache::Solution;

#[test]
fn horizontal_test_search_100_60_3_1() {
    let mut searcher = SearcherFirstHorizontal::create(100, 60, 3, 1);
    let sol = searcher.find_solution();

    assert_eq!(sol.horizontal_caches(), [27, 54, 77]);
    assert_eq!(sol.vertical_caches(), [37]);
    assert_eq!(sol.cost(), 220_407);
}

#[test]
fn horizontal_test_search_100_100_0_0() {
    let mut searcher = SearcherFirstHorizontal::create(100, 100, 1, 0);
    let sol = searcher.find_solution();

    assert_eq!(sol.horizontal_caches(), [50]);
    assert_eq!(sol.vertical_caches(), []);
    assert_eq!(sol.cost(), 740_050);
}

#[test]
fn test_1_0() {
    let searcher = SearcherFirstVertical::create(100, 50, 1, 0);
    assert_eq!(
        searcher.filtered().get_raw_ref(),
        &vec![0, 50, 1, 50, 100]
    );
}

#[test]
fn test_5_0() {
    let searcher = SearcherFirstVertical::create(100, 50, 5, 0);
    assert_eq!(
        searcher.filtered().get_raw_ref(),
        &vec![0, 50, 1, 50, 2, 50, 3, 50, 4, 50, 5, 50, 100]
    );
    for e in 0..5 {
        assert_eq!(*searcher.filtered().get(e) as usize, e + 1);
    }
}

#[test]
fn test_5_2() {
    let searcher = SearcherFirstVertical::create(100, 50, 5, 2);
    assert_eq!(
        searcher.filtered().get_raw_ref(),
        &vec![0, 1, 2, 3, 4, 50, 5, 50, 6, 50, 7, 50, 100]
    );
    for e in 0..7 {
        assert_eq!(*searcher.filtered().get(e) as usize, e + 1);
    }
}

#[test]
fn vertical_test_search_100_50_3_1() {
    let mut searcher = SearcherFirstVertical::create(100, 50, 3, 1);
    let sol = searcher.find_solution();

    assert_eq!(sol.horizontal_caches(), [34, 56, 78]);
    assert_eq!(sol.vertical_caches(), [25]);
    assert_eq!(sol.cost(), 164_053);
}

#[test]
fn vertical_test_search_100_80_2_2() {
    let mut searcher = SearcherFirstVertical::create(100, 80, 2, 2);
    let sol = searcher.find_solution();

    assert_eq!(sol.horizontal_caches(), [44, 74]);
    assert_eq!(sol.vertical_caches(), [29, 58]);

    assert_eq!(sol.cost(), 350_224);
}

#[test]
fn vertical_test_search_100_100_0_0() {
    let mut searcher = SearcherFirstVertical::create(100, 100, 1, 0);
    let sol = searcher.find_solution();

    assert_eq!(sol.horizontal_caches(), [50]);
    assert_eq!(sol.vertical_caches(), []);
    assert_eq!(sol.cost(), 740_050);
}

#[test]
fn mod_test_search_100_50_3_1() {
    let sol = get_cache_locations(100, 50, 3, 1);

    assert_eq!(sol.horizontal_caches(), [34, 56, 78]);
    assert_eq!(sol.vertical_caches(), [25]);
    assert_eq!(sol.cost(), 164_053);

    check_solution(sol, 100, 50);
}

#[test]
fn mod_test_search_100_60_3_1() {
    let sol = get_cache_locations(100, 60, 3, 1);

    assert_eq!(sol.horizontal_caches(), [27, 54, 77]);
    assert_eq!(sol.vertical_caches(), [37]);
    assert_eq!(sol.cost(), 220_407);

    check_solution(sol, 100, 60);
}

#[test]
fn mod_test_search_100_80_2_2() {
    let sol = get_cache_locations(100, 80, 2, 2);

    assert_eq!(sol.horizontal_caches(), [44, 74]);
    assert_eq!(sol.vertical_caches(), [29, 58]);

    assert_eq!(sol.cost(), 350_224);

    check_solution(sol, 100, 80);
}

#[test]
fn mod_test_search_100_100_0_0() {
    let sol = get_cache_locations(100, 100, 1, 0);

    assert_eq!(sol.horizontal_caches(), [50]);
    assert_eq!(sol.vertical_caches(), []);
    assert_eq!(sol.cost(), 740_050);

    check_solution(sol, 100, 100);
}

fn check_solution(sol: Solution<u64>, width: u64, height: u64) {
    let full_v: Vec<_> = sol
        .vertical_caches()
        .iter()
        .chain([&height])
        .copied()
        .collect();
    let full_h: Vec<_> = sol
        .horizontal_caches()
        .iter()
        .chain([&width])
        .copied()
        .collect();

    assert_eq!(sol.cost(), get_cost(full_h.as_slice(), full_v.as_slice()));
}
