use ph::pool::job_ranges;
use ph::world::{merge_step, MergeAction};

#[test]
fn job_ranges_cut_with_a_short_last_job() {
    assert_eq!(job_ranges(10, 4), vec![(0, 4), (4, 8), (8, 10)]);
}

#[test]
fn job_ranges_exact_multiple() {
    assert_eq!(job_ranges(8, 4), vec![(0, 4), (4, 8)]);
}

#[test]
fn job_ranges_of_nothing() {
    assert_eq!(job_ranges(0, 4096), Vec::<(usize, usize)>::new());
}

#[test]
fn job_ranges_one_short_job() {
    assert_eq!(job_ranges(3, 4096), vec![(0, 3)]);
}

#[test]
fn merge_step_holds_later_rounds() {
    assert_eq!(merge_step(2, 5, 3), (5, MergeAction::Hold));
}

#[test]
fn merge_step_resends_earlier_and_current_rounds() {
    assert_eq!(merge_step(2, 5, 1), (6, MergeAction::Resend));
    assert_eq!(merge_step(2, 0, 2), (1, MergeAction::Resend));
}
