use mouse_speed::history::History;
use mouse_speed::parse::parse_milli;
use mouse_speed::speed::{
    estimate_speed, floor_sqrt_of, rate_per_second, step_length_micro,
};
use mouse_speed::state::{averaging_window_us, LoopAction, MouseState, DEFAULT_WINDOW_US};

fn times_of<V>(h: &History<V>) -> Vec<u64> {
    let mut out = Vec::new();
    for i in 0..h.len() {
        out.push(h.get(i).0);
    }
    out
}

#[test]
fn parse_accepts_plain_decimals() {
    assert_eq!(parse_milli("1600"), Some(1_600_000));
    assert_eq!(parse_milli("1600.0"), Some(1_600_000));
    assert_eq!(parse_milli("0.25"), Some(250));
    assert_eq!(parse_milli("1."), Some(1000));
    assert_eq!(parse_milli("007.125"), Some(7125));
    assert_eq!(parse_milli("+5"), Some(5000));
    assert_eq!(parse_milli(".5"), Some(500));
    assert_eq!(parse_milli("+.5"), Some(500));
}

#[test]
fn parse_rounds_to_thousandths() {
    assert_eq!(parse_milli("1.2345"), Some(1235));
    assert_eq!(parse_milli("1.2344999"), Some(1234));
    assert_eq!(parse_milli("0.9995"), Some(1000));
    assert_eq!(parse_milli("0.0004"), Some(1));
    assert_eq!(parse_milli("0.0000"), Some(0));
    assert_eq!(parse_milli("0"), Some(0));
}

#[test]
fn parse_rejects_other_text() {
    assert_eq!(parse_milli(""), None);
    assert_eq!(parse_milli("abc"), None);
    assert_eq!(parse_milli("-5"), None);
    assert_eq!(parse_milli("."), None);
    assert_eq!(parse_milli("+"), None);
    assert_eq!(parse_milli("++5"), None);
    assert_eq!(parse_milli("1e3"), None);
    assert_eq!(parse_milli("1.2.3"), None);
    assert_eq!(parse_milli("12a"), None);
    assert_eq!(parse_milli(" 12"), None);
}

#[test]
fn parse_bounds_at_u64() {
    assert_eq!(parse_milli("18446744073709551.615"), Some(u64::MAX));
    assert_eq!(parse_milli("18446744073709551.616"), Some(u64::MAX));
    assert_eq!(parse_milli("18446744073709552"), Some(u64::MAX));
    assert_eq!(parse_milli("99999999999999999999999.5"), Some(u64::MAX));
}

#[test]
fn averaging_window_defaults_and_floor() {
    assert_eq!(averaging_window_us("5000"), 5_000_000);
    assert_eq!(averaging_window_us("5.0"), 5_000);
    assert_eq!(averaging_window_us("abc"), DEFAULT_WINDOW_US);
    assert_eq!(averaging_window_us("-5"), DEFAULT_WINDOW_US);
    assert_eq!(averaging_window_us("0"), DEFAULT_WINDOW_US);
    assert_eq!(averaging_window_us("0.05"), 100);
    assert_eq!(averaging_window_us(".5"), 500);
    assert_eq!(averaging_window_us("0.0001"), 100);
}

#[test]
fn square_roots_round_down() {
    assert_eq!(floor_sqrt_of(0), 0);
    assert_eq!(floor_sqrt_of(15), 3);
    assert_eq!(floor_sqrt_of(16), 4);
    assert_eq!(floor_sqrt_of(2_000_000), 1414);
    assert_eq!(step_length_micro(3, -4), 5_000_000);
    assert_eq!(step_length_micro(1, 1), 1_414_213);
    assert_eq!(step_length_micro(0, 0), 0);
    assert_eq!(step_length_micro(i32::MIN, i32::MIN), 3_037_000_499_976_049);
}

#[test]
fn rate_of_thirty_events_in_fifteen_ms() {
    assert_eq!(rate_per_second(30, 15_000), 2000);
    assert_eq!(rate_per_second(0, 15_000), 0);
    assert_eq!(rate_per_second(1, 3), 333_333);
    assert_eq!(rate_per_second(1, 15_000), 67);
    assert_eq!(rate_per_second(2, 3), 666_667);
}

#[test]
fn aggregator_tick_computes_rate() {
    let mut s = MouseState::new();
    s.events_count = 30;
    assert!(!s.polling_tick(10_000, 15_000));
    assert_eq!(s.events_count, 30);
    assert!(s.polling_tick(15_000, 15_000));
    assert_eq!(s.events_per_second, 2000);
    assert_eq!(s.events_count, 0);
    assert_eq!(s.last_polling_update, 15_000);
    assert_eq!(s.polling_history.len(), 1);
    assert_eq!(*s.polling_history.get(0), (15_000, 2000));
}

#[test]
fn speed_of_one_inch_in_one_second() {
    let mut s = MouseState::new();
    s.record_motion(0, 1600, 0);
    let speed = s.refresh(0, "1000");
    assert_eq!(speed, 25_400_000);
    assert_eq!(s.max_speed, 25_400_000);
    assert_eq!(*s.speed_history.get(0), (0, 25_400_000));
}

#[test]
fn empty_history_gives_zero_speed() {
    let h: History<(i32, i32)> = History::new();
    assert_eq!(estimate_speed(&h, 1_600_000, 1_000_000), 0);
    let mut s = MouseState::new();
    assert_eq!(s.refresh(1_000, "5000"), 0);
}

#[test]
fn window_prunes_old_events() {
    let mut s = MouseState::new();
    s.record_motion(0, 3, 4);
    s.record_motion(1_000_000, 3, 4);
    s.record_motion(2_000_000, 3, 4);
    s.record_motion(6_000_000, 3, 4);
    let speed = s.refresh(6_000_000, "5000");
    assert_eq!(times_of(&s.event_history), vec![1_000_000, 2_000_000, 6_000_000]);
    // 15 counts at 1600 DPI over 5 s: 47.625 um/s.
    assert_eq!(speed, 47_625);
}

#[test]
fn shrinking_window_drops_buffered_events() {
    let mut s = MouseState::new();
    s.record_motion(0, 1600, 0);
    s.record_motion(900_000, 1600, 0);
    assert_eq!(s.refresh(1_000_000, "1000"), 50_800_000);
    assert_eq!(s.refresh(1_000_000, "500"), 50_800_000);
    assert_eq!(times_of(&s.event_history), vec![900_000]);
    assert_eq!(s.max_speed, 50_800_000);
}

#[test]
fn plotted_histories_keep_five_seconds() {
    let mut s = MouseState::new();
    assert!(s.polling_tick(1_000_000, 15_000));
    assert!(s.polling_tick(3_000_000, 15_000));
    s.refresh(1_000_000, "5000");
    s.refresh(6_000_000, "5000");
    s.refresh(6_000_001, "5000");
    assert_eq!(times_of(&s.polling_history), vec![3_000_000]);
    assert_eq!(times_of(&s.speed_history), vec![6_000_000, 6_000_001]);
}

#[test]
fn capacity_keeps_most_recent() {
    let mut h: History<u128> = History::new();
    for i in 0..1500u64 {
        h.push(i, i as u128 * 2);
    }
    assert_eq!(h.len(), 1000);
    for i in 0..1000usize {
        assert_eq!(*h.get(i), (500 + i as u64, (500 + i as u128) * 2));
    }
}

#[test]
fn pruning_twice_changes_nothing() {
    let mut h: History<u128> = History::new();
    for i in 0..10u64 {
        h.push(i * 1_000_000, 0);
    }
    h.prune(9_000_000, 5_000_000);
    let once = times_of(&h);
    assert_eq!(once, vec![4_000_000, 5_000_000, 6_000_000, 7_000_000, 8_000_000, 9_000_000]);
    h.prune(9_000_000, 5_000_000);
    assert_eq!(times_of(&h), once);
}

#[test]
fn max_speed_only_rises_until_reset() {
    let mut s = MouseState::new();
    s.record_motion(0, 1600, 0);
    assert_eq!(s.refresh(0, "1000"), 25_400_000);
    assert_eq!(s.refresh(2_000_000, "1000"), 0);
    assert_eq!(s.max_speed, 25_400_000);
    s.reset_max_speed();
    assert_eq!(s.max_speed, 0);
    assert_eq!(s.refresh(2_000_001, "1000"), 0);
    assert_eq!(s.max_speed, 0);
    s.record_motion(2_000_002, 800, 0);
    assert_eq!(s.refresh(2_000_002, "1000"), 12_700_000);
    assert_eq!(s.max_speed, 12_700_000);
}

#[test]
fn ingestion_counts_events() {
    let mut s = MouseState::new();
    assert_eq!(s.ingest_step(10, Some((5, -7))), LoopAction::Continue);
    assert_eq!(s.ingest_step(11, None), LoopAction::Wait);
    assert_eq!(s.events_count, 1);
    assert_eq!(s.delta, (5, -7));
    assert_eq!(s.last_event_time, Some(10));
    assert_eq!(*s.event_history.get(0), (10, (5, -7)));
}

#[test]
fn stopped_loops_leave_state_alone() {
    let mut s = MouseState::new();
    s.ingest_step(10, Some((1, 1)));
    assert_eq!(s.aggregate_step(20_000, 15_000), LoopAction::Wait);
    s.ingest_step(20_001, Some((1, 1)));
    s.stop();
    assert!(!s.running);
    assert_eq!(s.ingest_step(20_002, Some((2, 2))), LoopAction::Stop);
    assert_eq!(s.aggregate_step(60_000, 15_000), LoopAction::Stop);
    assert_eq!(s.events_count, 1);
    assert_eq!(s.polling_history.len(), 1);
    assert_eq!(s.event_history.len(), 2);
    assert_eq!(s.last_polling_update, 20_000);
}

#[test]
fn invalid_dpi_text_is_ignored() {
    let mut s = MouseState::new();
    assert_eq!(s.dpi_milli, 1_600_000);
    assert!(!s.set_dpi_text("abc"));
    assert!(!s.set_dpi_text("-5"));
    assert!(!s.set_dpi_text("0"));
    assert!(!s.set_dpi_text("0.000"));
    assert_eq!(s.dpi_milli, 1_600_000);
    assert!(s.set_dpi_text("800.5"));
    assert_eq!(s.dpi_milli, 800_500);
    assert!(s.set_dpi_text(".5"));
    assert_eq!(s.dpi_milli, 500);
    assert!(s.set_dpi_text("0.0001"));
    assert_eq!(s.dpi_milli, 1);
}

#[test]
fn small_motion_gives_positive_speed() {
    let mut s = MouseState::new();
    assert!(s.set_dpi_text("16000"));
    s.record_motion(0, 1, 0);
    // 1 count at 16000 DPI over 5 s: 317.5 nm/s, rounded up.
    assert_eq!(s.refresh(0, "5000"), 318);
    let mut z = MouseState::new();
    z.record_motion(0, 0, 0);
    assert_eq!(z.refresh(0, "5000"), 0);
}

#[test]
fn times_must_not_go_back() {
    let mut s = MouseState::new();
    assert!(s.accepts_time(0));
    s.record_motion(100, 1, 0);
    assert!(s.accepts_time(100));
    assert!(!s.accepts_time(99));
}
