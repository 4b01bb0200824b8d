use jiggler::jiggle::movement::Movement;

fn buffer_holding(count: usize) -> heapless::Vec<i8, 32> {
    let mut buf: heapless::Vec<i8, 32> = heapless::Vec::new();
    for _ in 0..count {
        buf.push(0).unwrap();
    }
    buf
}

fn generated(movement: &Movement, seed: u32) -> heapless::Vec<i8, 32> {
    let mut buf: heapless::Vec<i8, 32> = heapless::Vec::new();
    movement.generate_vector(seed, &mut buf);
    buf
}

fn sum(steps: &[i8]) -> i32 {
    steps.iter().map(|step| *step as i32).sum()
}

fn forward_sum(steps: &[i8]) -> i32 {
    steps.iter().filter(|step| **step > 0).map(|step| *step as i32).sum()
}

#[test]
fn new_has_the_shipped_limits() {
    let movement = Movement::new();
    assert_eq!(movement.upper_limit(), 32);
    assert_eq!(movement.lower_limit(), 6);
    assert_eq!(movement.step(), 6);
}

#[test]
fn with_limits_keeps_sensible_limits() {
    let movement = Movement::with_limits(3, 10, 4).unwrap();
    assert_eq!(movement.lower_limit(), 3);
    assert_eq!(movement.upper_limit(), 10);
    assert_eq!(movement.step(), 4);
    assert!(Movement::with_limits(1, 1, 1).is_some());
    assert!(Movement::with_limits(127, 127, 127).is_some());
}

#[test]
fn with_limits_refuses_senseless_limits() {
    assert!(Movement::with_limits(0, 10, 4).is_none());
    assert!(Movement::with_limits(11, 10, 4).is_none());
    assert!(Movement::with_limits(3, 128, 4).is_none());
    assert!(Movement::with_limits(3, 10, 0).is_none());
    assert!(Movement::with_limits(3, 10, -4).is_none());
}

#[test]
fn magnitude_of_the_extreme_seeds() {
    let movement = Movement::new();
    assert_eq!(movement.magnitude_of(0), 6);
    assert_eq!(movement.magnitude_of(u32::MAX), 32);
}

#[test]
fn magnitude_rounds_down() {
    let movement = Movement::new();
    assert_eq!(movement.magnitude_of(1), 6);
    assert_eq!(movement.magnitude_of(0x8000_0000), 19);
    assert_eq!(movement.magnitude_of(u32::MAX - 1), 31);
    // The first seed that reaches 7: the least s with 26 * s >= u32::MAX.
    assert_eq!(movement.magnitude_of(165_191_049), 6);
    assert_eq!(movement.magnitude_of(165_191_050), 7);
}

#[test]
fn magnitude_stays_within_limits() {
    let movement = Movement::with_limits(10, 100, 7).unwrap();
    let mut seed: u32 = 0;
    loop {
        let magnitude: i8 = movement.magnitude_of(seed);
        assert!(10 <= magnitude && magnitude <= 100);
        match seed.checked_add(0x00FF_FFFF) {
            Some(next) => seed = next,
            None => break,
        }
    }
    assert_eq!(movement.magnitude_of(u32::MAX), 100);
}

#[test]
fn smallest_seed_gives_one_step_out_and_back() {
    let buf = generated(&Movement::new(), 0);
    assert_eq!(buf.as_slice(), &[6, -6]);
    assert_eq!(forward_sum(&buf), 6);
}

#[test]
fn largest_seed_gives_the_longest_run() {
    let buf = generated(&Movement::new(), u32::MAX);
    assert_eq!(buf.as_slice(), &[6, 6, 6, 6, 6, 2, -2, -6, -6, -6, -6, -6]);
    assert_eq!(forward_sum(&buf), 32);
}

#[test]
fn middle_seed_ends_with_a_short_step() {
    let buf = generated(&Movement::new(), 0x8000_0000);
    assert_eq!(buf.as_slice(), &[6, 6, 6, 1, -1, -6, -6, -6]);
}

#[test]
fn runs_return_to_the_origin() {
    let movement = Movement::new();
    let mut seed: u32 = 0;
    loop {
        let buf = generated(&movement, seed);
        assert_eq!(sum(&buf), 0);
        assert_eq!(forward_sum(&buf), movement.magnitude_of(seed) as i32);
        assert!(buf.len() <= 12);
        match seed.checked_add(0x0123_4567) {
            Some(next) => seed = next,
            None => break,
        }
    }
}

#[test]
fn first_step_is_a_stride_or_the_whole_distance() {
    let shipped = Movement::new();
    assert_eq!(generated(&shipped, 0)[0], 6);
    assert_eq!(generated(&shipped, u32::MAX)[0], 6);
    let short = Movement::with_limits(2, 9, 5).unwrap();
    assert_eq!(short.magnitude_of(0), 2);
    assert_eq!(generated(&short, 0).as_slice(), &[2, -2]);
    assert_eq!(generated(&short, u32::MAX).as_slice(), &[5, 4, -4, -5]);
}

#[test]
fn single_free_place_takes_one_forward_step() {
    let movement = Movement::new();
    for seed in [0, 1, 0x8000_0000, u32::MAX] {
        let mut buf = buffer_holding(31);
        movement.generate_vector(seed, &mut buf);
        assert_eq!(buf.len(), 32);
        assert_eq!(buf[31], 6);
        assert!(buf[..31].iter().all(|step| *step == 0));
    }
}

#[test]
fn forward_steps_are_cut_at_capacity() {
    let mut buf = buffer_holding(28);
    Movement::new().generate_vector(u32::MAX, &mut buf);
    assert_eq!(&buf[28..], &[6, 6, 6, 6]);
}

#[test]
fn mirror_is_cut_at_capacity() {
    let mut buf = buffer_holding(24);
    Movement::new().generate_vector(u32::MAX, &mut buf);
    assert_eq!(&buf[24..], &[6, 6, 6, 6, 6, 2, -2, -6]);
    assert_eq!(sum(&buf), 24);
}

#[test]
fn exact_fit_completes_the_mirror() {
    let mut buf = buffer_holding(20);
    Movement::new().generate_vector(u32::MAX, &mut buf);
    assert_eq!(&buf[20..], &[6, 6, 6, 6, 6, 2, -2, -6, -6, -6, -6, -6]);
    assert_eq!(sum(&buf), 0);
}

#[test]
fn full_buffer_is_left_alone() {
    let mut buf = buffer_holding(32);
    Movement::new().generate_vector(u32::MAX, &mut buf);
    assert_eq!(buf.len(), 32);
    assert!(buf.iter().all(|step| *step == 0));
}

#[test]
fn earlier_steps_stay_and_are_not_mirrored() {
    let mut buf: heapless::Vec<i8, 32> = heapless::Vec::new();
    buf.push(5).unwrap();
    buf.push(-3).unwrap();
    Movement::new().generate_vector(0, &mut buf);
    assert_eq!(buf.as_slice(), &[5, -3, 6, -6]);
}

#[test]
fn two_runs_in_one_buffer() {
    let movement = Movement::new();
    let mut buf: heapless::Vec<i8, 32> = heapless::Vec::new();
    movement.generate_vector(0, &mut buf);
    movement.generate_vector(u32::MAX, &mut buf);
    assert_eq!(buf.len(), 14);
    assert_eq!(buf.as_slice(), &[6, -6, 6, 6, 6, 6, 6, 2, -2, -6, -6, -6, -6, -6]);
    assert_eq!(sum(&buf), 0);
}

#[test]
fn long_lower_limit_needs_more_room_than_the_span() {
    // Span 12 in strides of 6 takes two strides, but the distance itself
    // takes four: six free places are too few for the way back.
    let movement = Movement::with_limits(20, 32, 6).unwrap();
    let mut buf = buffer_holding(26);
    movement.generate_vector(0, &mut buf);
    assert_eq!(&buf[26..], &[6, 6, 6, 2, -2, -6]);
    assert_eq!(sum(&buf), 12);
    assert_eq!(generated(&movement, 0).as_slice(), &[6, 6, 6, 2, -2, -6, -6, -6]);
}
