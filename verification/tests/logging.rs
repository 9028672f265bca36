use ddr_chart_tools::util::logging::{level_for, LevelFilter};

#[test]
fn verbosity_0_is_info() {
    assert_eq!(level_for(0), LevelFilter::Info);
}

#[test]
fn verbosity_1_is_debug() {
    assert_eq!(level_for(1), LevelFilter::Debug);
}

#[test]
fn verbosity_2_is_trace() {
    assert_eq!(level_for(2), LevelFilter::Trace);
}

#[test]
fn verbosity_above_2_saturates_at_trace() {
    assert_eq!(level_for(100), LevelFilter::Trace);
}
