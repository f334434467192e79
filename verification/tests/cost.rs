use fastgridcache::cost::calc_cache_costs;
use fastgridcache::cost::cost_full;
use fastgridcache::cost::cost_sq;
use fastgridcache::cost::create_cache_vector;
use fastgridcache::cost::create_cache_vector_ans;
use fastgridcache::cost::create_cache_vector_rev;
use fastgridcache::cost::last_repeater::LastRepeatIter;
use fastgridcache::get_cost;

#[test]
fn mod_square_100_100_3() {
    let w = [36, 73, 100];
    let h = [59, 100];

    assert_eq!(get_cost(&w, &h), 537857);
}

#[test]
fn mod_grid_100_80_4() {
    let h = [44, 74, 100];
    let w = [29, 58, 80];

    assert_eq!(get_cost(&w, &h), 350224);
}

#[test]
fn mod_grid_100_40_3() {
    let w = [25, 50, 75, 100];
    let h = [40];

    assert_eq!(get_cost(&w, &h), 126075);
}

#[test]
fn mod_grid_100_40_4() {
    let w = [32, 54, 77, 100];
    let h = [20, 40];

    assert_eq!(get_cost(&w, &h), 114617);
}

#[test]
fn grid_100_100_1() {
    let w = [50, 100];
    let h = [100];

    assert_eq!(get_cost(&w, &h), 740_050);
}

#[test]
fn lib_square_100_100_3() {
    let w = [36u64, 73, 100];
    let h = [59, 100];

    assert_eq!(get_cost(&w, &h), 537857);
}

#[test]
fn lib_grid_100_80_4() {
    let h = [44u64, 74, 100];
    let w = [29, 58, 80];

    assert_eq!(get_cost(&w, &h), 350224);
}

#[test]
fn lib_grid_100_40_3() {
    let w = [25u64, 50, 75, 100];
    let h = [40];

    assert_eq!(get_cost(&w, &h), 126075);
}

#[test]
fn lib_grid_100_40_4() {
    let w = [32u64, 54, 77, 100];
    let h = [20, 40];

    assert_eq!(get_cost(&w, &h), 114617);
}

#[test]
fn cell_cost_from_origin() {
    assert_eq!(cost_sq(0, 50, 100), 370_000);
    assert_eq!(cost_sq(0, 100, 50), 370_000);
    assert_eq!(cost_sq(36, 59, 73), 59 * 37 * 94 / 2);
}

#[test]
fn cell_cost_of_empty_cells() {
    assert_eq!(cost_sq(7, 50, 7), 0);
    assert_eq!(cost_sq(0, 0, 10), 0);
    assert_eq!(cost_sq(0, 0, 1), 0);
    assert_eq!(cost_sq(3, 1, 4), 0);
    assert_eq!(cost_sq(3, 1, 5), 1);
}

#[test]
fn cell_cost_near_the_limit() {
    // 2 * w * w / 2 with w = 2^32 - 1 still fits.
    let w = u32::MAX as u64;
    assert_eq!(cost_sq(0, 2, w), w * w);
}

#[test]
fn total_cost_sums_the_windows() {
    assert_eq!(cost_full(&[]), 0);
    assert_eq!(cost_full(&[0, 5]), 0);
    assert_eq!(cost_full(&[0, 36, 59]), 98_766);
    assert_eq!(cost_full(&[0, 36, 59, 73, 100, 100, 100]), 537_725);
    assert_eq!(cost_full(&[0, 50, 100, 100, 100]), 740_000);
}

#[test]
fn residual_is_the_last_but_one() {
    assert_eq!(calc_cache_costs(&[]), 0);
    assert_eq!(calc_cache_costs(&[100]), 0);
    assert_eq!(calc_cache_costs(&[50, 100]), 50);
    assert_eq!(calc_cache_costs(&[36, 73, 100]), 73);
}

#[test]
fn merged_sequence_puts_the_smaller_start_first() {
    assert_eq!(
        create_cache_vector(&[36, 73, 100], &[59, 100]),
        vec![0, 36, 59, 73, 100, 100, 100]
    );
    assert_eq!(
        create_cache_vector(&[29, 58, 80], &[44, 74, 100]),
        vec![0, 29, 44, 58, 74, 80, 100]
    );
    assert_eq!(
        create_cache_vector(&[59, 73, 100], &[59, 100]),
        vec![0, 59, 59, 100, 73, 100, 100]
    );
    assert_eq!(
        create_cache_vector(&[25, 50, 75, 100], &[40]),
        vec![0, 25, 40, 50, 40, 75, 40, 100, 40]
    );
    assert_eq!(
        create_cache_vector(&[50, 100], &[40]),
        vec![0, 40, 50, 40, 100]
    );
}

#[test]
fn merged_sequence_in_either_order() {
    assert_eq!(
        create_cache_vector_ans(&[1, 2, 3], &[7, 8]),
        vec![0, 1, 7, 2, 8, 3, 8]
    );
    assert_eq!(
        create_cache_vector_rev(&[1, 2, 3], &[7, 8]),
        vec![0, 7, 1, 8, 2, 8, 3]
    );
    assert_eq!(create_cache_vector_ans(&[1, 2, 3], &[]), vec![0]);
    assert_eq!(create_cache_vector_rev(&[], &[7]), vec![0]);
}

#[test]
fn last_item_repeats_forever() {
    let mut it = LastRepeatIter::new(vec![4u64, 9]);
    assert_eq!(it.next(), Some(4));
    assert_eq!(it.next(), Some(9));
    assert_eq!(it.next(), Some(9));
    assert_eq!(it.next(), Some(9));
}

#[test]
fn empty_source_yields_nothing() {
    let mut it = LastRepeatIter::new(Vec::<u64>::new());
    assert_eq!(it.next(), None);
    assert_eq!(it.next(), None);
}
