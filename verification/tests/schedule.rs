use khaos_monkey::error::{ConfigError, DurationField};
use khaos_monkey::random::{UnitFraction, SCALE};
use khaos_monkey::schedule::{
    has_few_digits, parse_span, step, Action, Event, Phase, Schedule, Span,
};
use rand::rngs::StdRng;
use rand::SeedableRng;

fn parts(span: Option<Span>) -> Option<(u64, u32)> {
    span.map(|s| (s.as_secs(), s.subsec_nanos()))
}

fn schedule(min: (u64, u32), extra: (u64, u32)) -> Schedule {
    Schedule {
        min_time_between_chaos: Span::new(min.0, min.1).unwrap(),
        random_extra_time_between_chaos: Span::new(extra.0, extra.1).unwrap(),
    }
}

fn draw(numerator: u64) -> UnitFraction {
    UnitFraction::new(numerator).unwrap()
}

#[test]
fn spans_are_read_as_people_write_them() {
    assert_eq!(parts(parse_span("1m")), Some((60, 0)));
    assert_eq!(parts(parse_span("1hour 12min 5s")), Some((4325, 0)));
    assert_eq!(parts(parse_span("2h 37min")), Some((9420, 0)));
    assert_eq!(parts(parse_span("32ms")), Some((0, 32_000_000)));
    assert_eq!(parts(parse_span("4.2s")), Some((4, 200_000_000)));
    assert_eq!(parts(parse_span("0")), Some((0, 0)));
    assert_eq!(parts(parse_span(" 90 s ")), Some((90, 0)));
    assert_eq!(parts(parse_span("1y")), Some((31_557_600, 0)));
}

#[test]
fn malformed_spans_are_not_read() {
    assert_eq!(parts(parse_span("")), None);
    assert_eq!(parts(parse_span("   ")), None);
    assert_eq!(parts(parse_span("soon")), None);
    assert_eq!(parts(parse_span("10")), None);
    assert_eq!(parts(parse_span("10 parsecs")), None);
    assert_eq!(parts(parse_span("1m!")), None);
    assert_eq!(parts(parse_span("-1m")), None);
}

#[test]
fn spans_with_many_digits_are_not_read() {
    assert!(has_few_digits("12345678901s"));
    assert!(!has_few_digits("123456789012s"));
    assert!(has_few_digits(""));
    assert!(has_few_digits("no digits at all, however long the text may be"));
    assert!(!has_few_digits("1s 2s 3s 4s 5s 6s 7s 8s 9s 1s 2s 3s"));
    assert_eq!(parts(parse_span("12345678901s")), Some((12_345_678_901, 0)));
    assert_eq!(parts(parse_span("123456789012s")), None);
    assert_eq!(parts(parse_span("18446744073709551615s 1000ms")), None);
}

#[test]
fn a_span_has_less_than_a_second_of_nanoseconds() {
    assert_eq!(parts(Span::new(5, 999_999_999)), Some((5, 999_999_999)));
    assert!(Span::new(5, 1_000_000_000).is_none());
    assert!(Span::new(0, u32::MAX).is_none());
}

#[test]
fn a_span_is_written_as_people_read_it() {
    assert_eq!(Span::new(90, 0).unwrap().to_text(), "1m 30s");
    assert_eq!(Span::new(0, 0).unwrap().to_text(), "0s");
    assert_eq!(Span::new(9420, 0).unwrap().to_text(), "2h 37m");
    assert_eq!(Span::new(0, 32_000_000).unwrap().to_text(), "32ms");
    assert_eq!(Span::new(u64::MAX, 999_999_999).unwrap().to_text().is_empty(), false);
}

#[test]
fn the_first_malformed_span_is_reported() {
    let first = ConfigError::MalformedDuration(DurationField::MinTimeBetweenChaos);
    let second = ConfigError::MalformedDuration(DurationField::RandomExtraTimeBetweenChaos);
    assert_eq!(Schedule::parse("x", "1m").err(), Some(first));
    assert_eq!(Schedule::parse("1m", "x").err(), Some(second));
    assert_eq!(Schedule::parse("x", "y").err(), Some(first));
    assert_eq!(Schedule::parse("1m", "").err(), Some(second));
    let made = Schedule::parse("1m", "30s").unwrap();
    assert_eq!(parts(Some(made.min_time_between_chaos)), Some((60, 0)));
    assert_eq!(parts(Some(made.random_extra_time_between_chaos)), Some((30, 0)));
    assert_eq!(Schedule::from_spans(None, None).err(), Some(first));
    assert_eq!(Schedule::from_spans(Span::new(1, 0), None).err(), Some(second));
    assert!(Schedule::from_spans(Span::new(1, 0), Span::new(2, 0)).is_ok());
}

#[test]
fn the_wait_is_the_least_time_and_a_fraction_of_the_extra() {
    let plan = schedule((60, 0), (60, 0));
    assert_eq!(parts(plan.wait_time(draw(0))), Some((60, 0)));
    assert_eq!(parts(plan.wait_time(draw(SCALE / 2))), Some((90, 0)));
    assert_eq!(parts(plan.wait_time(draw(SCALE / 4))), Some((75, 0)));
    assert_eq!(parts(plan.wait_time(draw(SCALE - 1))), Some((119, 0)));
    assert_eq!(parts(plan.wait_time(draw(SCALE / 60 - 1))), Some((60, 0)));
    assert_eq!(parts(plan.wait_time(draw(SCALE / 60 + 1))), Some((61, 0)));
}

#[test]
fn the_wait_keeps_the_nanoseconds_of_the_least_time() {
    let plan = schedule((1, 500_000_000), (10, 900_000_000));
    assert_eq!(parts(plan.wait_time(draw(SCALE / 2))), Some((6, 500_000_000)));
    assert_eq!(parts(plan.wait_time(draw(SCALE - 1))), Some((10, 500_000_000)));
    let none = schedule((7, 1), (0, 999_999_999));
    assert_eq!(parts(none.wait_time(draw(SCALE - 1))), Some((7, 1)));
}

#[test]
fn a_wait_beyond_64_bits_is_no_wait() {
    let long = schedule((u64::MAX, 0), (2, 0));
    assert_eq!(parts(long.wait_time(draw(0))), Some((u64::MAX, 0)));
    assert_eq!(parts(long.wait_time(draw(SCALE / 2 - 1))), Some((u64::MAX, 0)));
    assert_eq!(parts(long.wait_time(draw(SCALE / 2))), None);
    let longest = schedule((u64::MAX, 0), (u64::MAX, 0));
    assert_eq!(parts(longest.wait_time(draw(SCALE - 1))), None);
    let fits = schedule((1, 0), (u64::MAX, 0));
    assert_eq!(parts(fits.wait_time(draw(SCALE - 1))), Some((u64::MAX - 2047, 0)));
}

#[test]
fn drawn_waits_stay_in_their_range() {
    let plan = schedule((60, 7), (60, 0));
    let mut rng = StdRng::seed_from_u64(21);
    let mut seen = Vec::new();
    for _ in 0..200 {
        let (secs, nanos) = parts(plan.next_wait(&mut rng)).unwrap();
        assert!(60 <= secs && secs < 120);
        assert_eq!(nanos, 7);
        seen.push(secs);
    }
    seen.sort();
    seen.dedup();
    assert!(seen.len() > 10);
    let fixed = schedule((5, 0), (0, 0));
    assert_eq!(parts(fixed.next_wait(&mut rng)), Some((5, 0)));
}

#[test]
fn a_cycle_lists_attacks_and_waits() {
    assert_eq!(step(Phase::Idle, Event::Started), Some((Phase::Listing, Action::ListPods)));
    assert_eq!(step(Phase::Listing, Event::Listed), Some((Phase::Attacking, Action::Attack)));
    assert_eq!(step(Phase::Attacking, Event::Attacked), Some((Phase::Waiting, Action::Sleep)));
    assert_eq!(step(Phase::Waiting, Event::Woke), Some((Phase::Listing, Action::ListPods)));
}

#[test]
fn a_failure_of_the_cluster_ends_the_loop() {
    assert_eq!(step(Phase::Listing, Event::ClusterFailed), Some((Phase::Stopped, Action::Exit)));
    assert_eq!(step(Phase::Attacking, Event::ClusterFailed), Some((Phase::Stopped, Action::Exit)));
    assert_eq!(step(Phase::Idle, Event::ClusterFailed), None);
    assert_eq!(step(Phase::Waiting, Event::ClusterFailed), None);
}

#[test]
fn an_event_out_of_place_is_refused() {
    let phases = [Phase::Idle, Phase::Listing, Phase::Attacking, Phase::Waiting, Phase::Stopped];
    let events =
        [Event::Started, Event::Listed, Event::Attacked, Event::Woke, Event::ClusterFailed];
    let mut accepted = 0;
    for phase in phases {
        for event in events {
            if let Some((next, action)) = step(phase, event) {
                accepted += 1;
                assert_ne!(phase, Phase::Stopped);
                assert_eq!(next == Phase::Stopped, event == Event::ClusterFailed);
                assert_eq!(action == Action::Exit, next == Phase::Stopped);
            }
        }
    }
    assert_eq!(accepted, 6);
}

#[test]
fn the_loop_runs_on_while_the_cluster_answers() {
    let mut phase = Phase::Idle;
    let mut event = Event::Started;
    let mut listings = 0;
    for _ in 0..30 {
        let (next, action) = step(phase, event).unwrap();
        phase = next;
        event = match action {
            Action::ListPods => {
                listings += 1;
                Event::Listed
            }
            Action::Attack => Event::Attacked,
            Action::Sleep => Event::Woke,
            Action::Exit => panic!("the loop ended by itself"),
        };
    }
    assert_eq!(listings, 10);
}
