//! The gather threshold and the settings of the committer.

use kiseki_log::committer_pipeline::{BacklogTrend, DEFAULT_PIPELINE_DEPTH, MAX_PIPELINE_DEPTH};
use kiseki_log::intent_committer::gather_threshold;

#[test]
fn gather_threshold_rf3_min2_is_bare_majority() {
    // RF=3, min_acks=2: 3 - 2 + 1 = 2, the bare majority.
    assert_eq!(gather_threshold(3, 2), 2);
}

#[test]
fn gather_threshold_rf6_min2_is_five() {
    // RF=6, min_acks=2: 6 - 2 + 1 = 5, more than the majority of 4.
    assert_eq!(gather_threshold(6, 2), 5);
}

#[test]
fn gather_threshold_clamps_degenerate_inputs() {
    // min_acks=0 clamps to 1: the full RF. min_acks > RF clamps to RF: 1.
    assert_eq!(gather_threshold(3, 0), 3);
    assert_eq!(gather_threshold(3, 9), 1);
    // A single node always needs one view.
    assert_eq!(gather_threshold(1, 2), 1);
}

#[test]
fn backlog_trend_fires_only_on_monotonic_growth() {
    let mut t = BacklogTrend::new(4);
    assert!(!t.push(10));
    assert!(!t.push(20));
    assert!(!t.push(30));
    assert!(t.push(40), "4th strictly-increasing observation fires");
    // The window starts over after firing.
    assert!(!t.push(50));
    // A plateau starts the window over.
    assert!(!t.push(50));
    assert!(!t.push(60));
    assert!(!t.push(70));
    assert!(
        t.push(80),
        "4 strictly-increasing observations after the plateau reset fire again"
    );
    // And so does a decrease.
    assert!(!t.push(10));
    assert!(!t.push(20));
}

#[test]
fn default_depth_is_pipelined_and_within_clamp() {
    assert_eq!(DEFAULT_PIPELINE_DEPTH.clamp(1, MAX_PIPELINE_DEPTH), 2);
}
