use event_graph::args::Args;
use event_graph::clock::get_current_time;
use event_graph::clock::to_timestamp;
use event_graph::clock::ClockError;
use event_graph::view::View;

#[test]
fn default_settings_are_quiet() {
    let args = Args::default();
    assert_eq!(args.config, None);
    assert_eq!(args.verbose, 0);
}

#[test]
fn the_clock_reads_a_time_in_this_century() {
    let now = get_current_time().unwrap();
    assert!(now > 1_600_000_000_000);
    assert!(now < 4_102_444_800_000);
}

#[test]
fn clock_readings_become_timestamps() {
    assert_eq!(to_timestamp(Some(0)), Ok(0));
    assert_eq!(to_timestamp(Some(1_234)), Ok(1_234));
    assert_eq!(to_timestamp(Some(u64::MAX as u128)), Ok(u64::MAX));
}

#[test]
fn a_clock_before_the_epoch_gives_no_timestamp() {
    assert_eq!(to_timestamp(None), Err(ClockError::BeforeEpoch));
}

#[test]
fn a_count_beyond_64_bits_gives_no_timestamp() {
    assert_eq!(to_timestamp(Some(u64::MAX as u128 + 1)), Err(ClockError::TooLate));
    assert_eq!(to_timestamp(Some(u128::MAX)), Err(ClockError::TooLate));
}

#[test]
fn a_new_reader_has_seen_nothing() {
    let view = View::new();
    assert!(!view.has_seen(&[0u8; 32]));
}
