use pathtrace::integrator::{next_step, Step, MAX_DEPTH};

#[test]
fn miss_is_background_at_any_depth() {
    assert_eq!(next_step(None, 0), Step::Background);
    assert_eq!(next_step(None, MAX_DEPTH), Step::Background);
    assert_eq!(next_step(None, MAX_DEPTH + 1), Step::Background);
}

#[test]
fn hit_within_bound_scatters_one_level_deeper() {
    assert_eq!(next_step(Some(3), 0), Step::Scatter { index: 3, next_depth: 1 });
    assert_eq!(next_step(Some(8), 4), Step::Scatter { index: 8, next_depth: 5 });
    assert_eq!(next_step(Some(2), MAX_DEPTH), Step::Scatter { index: 2, next_depth: 6 });
}

#[test]
fn hit_past_bound_returns_emission_only() {
    assert_eq!(next_step(Some(8), MAX_DEPTH + 1), Step::Emit { index: 8 });
    assert_eq!(next_step(Some(0), 100), Step::Emit { index: 0 });
}

#[test]
fn path_of_hits_stops_after_bound() {
    let mut depth: usize = 0;
    let mut scatters: usize = 0;
    loop {
        match next_step(Some(1), depth) {
            Step::Scatter { next_depth, .. } => {
                scatters += 1;
                depth = next_depth;
            }
            Step::Emit { index } => {
                assert_eq!(index, 1);
                break;
            }
            Step::Background => unreachable!(),
        }
    }
    assert_eq!(depth, MAX_DEPTH + 1);
    assert_eq!(scatters, MAX_DEPTH + 1);
}
