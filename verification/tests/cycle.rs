use jiggler::jiggle::cycle::{
    compose, reports, Phase, Report, DIAGNOSTIC_REST_MILLIS, IDLE_POLL_MILLIS, REST_MILLIS,
    REVERBERATIONS,
};
use jiggler::jiggle::movement::Movement;

#[test]
fn phase_follows_the_flag() {
    assert_eq!(Phase::of(true), Phase::ActiveCycle);
    assert_eq!(Phase::of(false), Phase::IdlePoll);
}

#[test]
fn pauses_are_as_documented() {
    assert_eq!(IDLE_POLL_MILLIS, 1_000);
    assert_eq!(DIAGNOSTIC_REST_MILLIS, 2_000);
    assert_eq!(REST_MILLIS, (60 * 5 - 1) * 1_000);
    assert_eq!(Phase::IdlePoll.pause_millis(false), 1_000);
    assert_eq!(Phase::IdlePoll.pause_millis(true), 1_000);
    assert_eq!(Phase::ActiveCycle.pause_millis(false), 299_000);
    assert_eq!(Phase::ActiveCycle.pause_millis(true), 2_000);
}

#[test]
fn report_carries_only_the_horizontal_step() {
    let report = Report::horizontal(-6);
    assert_eq!(report, Report { buttons: 0, x: -6, y: 0, wheel: 0, pan: 0 });
    assert_eq!(Report::horizontal(2).x, 2);
}

#[test]
fn no_seeds_compose_an_empty_buffer() {
    let buf = compose(&Movement::new(), &[]);
    assert!(buf.is_empty());
    assert!(reports(&buf).is_empty());
}

#[test]
fn cycle_of_the_extreme_seeds() {
    assert_eq!(REVERBERATIONS, 2);
    let seeds: [u32; 2] = [0, u32::MAX];
    let buf = compose(&Movement::new(), &seeds);
    assert_eq!(buf.len(), 14);
    assert_eq!(buf.as_slice(), &[6, -6, 6, 6, 6, 6, 6, 2, -2, -6, -6, -6, -6, -6]);
    let sent = reports(&buf);
    assert_eq!(sent.len(), 14);
    for (report, step) in sent.iter().zip(buf.iter()) {
        assert_eq!(*report, Report { buttons: 0, x: *step, y: 0, wheel: 0, pan: 0 });
    }
    let end: i32 = sent.iter().map(|report| report.x as i32).sum();
    assert_eq!(end, 0);
}

#[test]
fn shipped_cycles_return_to_the_origin() {
    let movement = Movement::new();
    let seeds: [u32; 5] = [0, 1, 0x8000_0000, 0xDEAD_BEEF, u32::MAX];
    for first in seeds {
        for second in seeds {
            let buf = compose(&movement, &[first, second]);
            assert!(buf.len() <= 24);
            let end: i32 = buf.iter().map(|step| *step as i32).sum();
            assert_eq!(end, 0);
        }
    }
}

#[test]
fn a_third_run_is_cut_where_the_buffer_is_full() {
    let seeds: [u32; 3] = [u32::MAX, u32::MAX, u32::MAX];
    let buf = compose(&Movement::new(), &seeds);
    assert_eq!(buf.len(), 32);
    assert_eq!(&buf[..12], &[6, 6, 6, 6, 6, 2, -2, -6, -6, -6, -6, -6]);
    assert_eq!(&buf[12..24], &[6, 6, 6, 6, 6, 2, -2, -6, -6, -6, -6, -6]);
    assert_eq!(&buf[24..], &[6, 6, 6, 6, 6, 2, -2, -6]);
}
