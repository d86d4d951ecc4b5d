//! The time between two attack cycles, and the phases of the loop that
//! drives them.

use crate::error::{ConfigError, DurationField};
use crate::random::{UnitFraction, SCALE};
use humantime::DurationError;
use rand::rngs::StdRng;
use vstd::arithmetic::div_mod::{lemma_div_is_ordered, lemma_div_multiples_vanish};
use vstd::prelude::*;

verus! {

/// The error type `humantime::DurationError`, opaque to the verifier.
#[verifier::external_type_specification]
#[verifier::external_body]
pub struct ExDurationError(DurationError);

/// What `humantime::parse_duration` makes of a text: the whole seconds and
/// the nanoseconds beyond them, or nothing where it reports an error.
pub uninterp spec fn humantime_duration(text: Seq<char>) -> Option<(u64, u32)>;

/// The text that `humantime::format_duration` gives for a duration of
/// `secs` seconds and `nanos` nanoseconds.
pub uninterp spec fn humantime_text(secs: u64, nanos: u32) -> Seq<char>;

/// The number of nanoseconds in a second.
pub const NANOS_PER_SEC: u32 = 1_000_000_000;

/// The most decimal digits that the text of a duration may hold.
pub const MAX_DURATION_DIGITS: usize = 11;

/// Calls `humantime::parse_duration` and takes the duration apart with
/// `Duration::as_secs` and `Duration::subsec_nanos`. The claim is that the
/// parser is a function of its text, named `humantime_duration`, and that the
/// nanoseconds stay below one second.
///
/// The parser adds up its seconds with checked arithmetic but hands the sum to
/// `Duration::new`, which panics where the seconds are `u64::MAX` and the
/// nanoseconds a full second. Each number of the text is multiplied by less
/// than 10^8 seconds, so a text with at most eleven digits stays below
/// 10^19 seconds and cannot get there.
#[verifier::external_body]
fn parse_duration(text: &str) -> (parsed: Result<(u64, u32), DurationError>)
    requires
        digit_count(text@) <= MAX_DURATION_DIGITS,
    ensures
        match parsed {
            Ok(parts) => humantime_duration(text@) == Some(parts) && parts.1 < NANOS_PER_SEC,
            Err(_) => humantime_duration(text@) is None,
        },
{
    match humantime::parse_duration(text) {
        Ok(duration) => Ok((duration.as_secs(), duration.subsec_nanos())),
        Err(error) => Err(error),
    }
}

/// Calls `humantime::format_duration` on `Duration::new(secs, nanos)` and
/// collects what it displays. The claim is that the text is a function of the
/// two numbers, named `humantime_text`. With the nanoseconds below one second
/// `Duration::new` carries nothing over and cannot overflow.
#[verifier::external_body]
fn format_duration(secs: u64, nanos: u32) -> (text: String)
    requires
        nanos < NANOS_PER_SEC,
    ensures
        text@ == humantime_text(secs, nanos),
{
    humantime::format_duration(std::time::Duration::new(secs, nanos)).to_string()
}

/// Whether `c` is one of the ten decimal digits.
pub open spec fn is_digit(c: char) -> bool {
    '0' <= c <= '9'
}

/// The number of decimal digits in `text`.
pub open spec fn digit_count(text: Seq<char>) -> nat
    decreases text.len(),
{
    if text.len() == 0 {
        0
    } else {
        digit_count(text.drop_last()) + if is_digit(text.last()) {
            1nat
        } else {
            0nat
        }
    }
}

/// Whether `text` has no more than `MAX_DURATION_DIGITS` decimal digits.
pub fn has_few_digits(text: &str) -> (few: bool)
    ensures
        few == (digit_count(text@) <= MAX_DURATION_DIGITS),
{
    let mut digits: usize = 0;
    for c in it: text.chars()
        invariant
            it.seq() == text@,
            digits <= MAX_DURATION_DIGITS,
            digits == digit_count(text@.take(it.index() as int)),
    {
        proof {
            assert(text@.take(it.index() + 1).drop_last() == text@.take(it.index() as int));
        }
        if '0' <= c && c <= '9' {
            if digits == MAX_DURATION_DIGITS {
                proof {
                    lemma_digit_count_rises(text@, it.index() + 1);
                }
                return false;
            }
            digits += 1;
        }
    }
    assert(text@.take(text@.len() as int) == text@);
    true
}

/// A longer start of a text has no fewer digits.
pub proof fn lemma_digit_count_rises(text: Seq<char>, upto: int)
    requires
        0 <= upto <= text.len(),
    ensures
        digit_count(text.take(upto)) <= digit_count(text),
    decreases text.len() - upto,
{
    if upto < text.len() {
        assert(text.take(upto + 1).drop_last() == text.take(upto));
        lemma_digit_count_rises(text, upto + 1);
    } else {
        assert(text.take(upto) == text);
    }
}

/// A span of time: whole seconds, and nanoseconds below one second.
#[derive(Clone, Copy, Debug)]
pub struct Span {
    secs: u64,
    nanos: u32,
}

impl Span {
    #[verifier::type_invariant]
    spec fn holds(self) -> bool {
        self.nanos < NANOS_PER_SEC
    }

    /// The whole seconds.
    pub closed spec fn secs(self) -> u64 {
        self.secs
    }

    /// The nanoseconds beyond the whole seconds.
    pub closed spec fn nanos(self) -> u32 {
        self.nanos
    }

    /// The two numbers of the span.
    pub open spec fn parts(self) -> (u64, u32) {
        (self.secs(), self.nanos())
    }

    /// The span of `secs` seconds and `nanos` nanoseconds, if the latter are
    /// less than a second.
    pub fn new(secs: u64, nanos: u32) -> (made: Option<Span>)
        ensures
            made is Some <==> nanos < NANOS_PER_SEC,
            made matches Some(span) ==> span.parts() == (secs, nanos),
    {
        if nanos < NANOS_PER_SEC {
            Some(Span { secs, nanos })
        } else {
            None
        }
    }

    /// The whole seconds.
    pub fn as_secs(&self) -> (secs: u64)
        ensures
            secs == self.secs(),
    {
        self.secs
    }

    /// The nanoseconds beyond the whole seconds.
    pub fn subsec_nanos(&self) -> (nanos: u32)
        ensures
            nanos == self.nanos(),
            nanos < NANOS_PER_SEC,
    {
        proof {
            use_type_invariant(self);
        }
        self.nanos
    }

    /// The span as a person reads it, such as `1m 30s`.
    pub fn to_text(&self) -> (text: String)
        ensures
            text@ == humantime_text(self.secs(), self.nanos()),
    {
        proof {
            use_type_invariant(self);
        }
        format_duration(self.secs, self.nanos)
    }
}

/// The span that a text stands for: what the parser makes of it, and
/// nothing where the text has more than `MAX_DURATION_DIGITS` digits.
pub open spec fn duration_of(text: Seq<char>) -> Option<(u64, u32)> {
    if digit_count(text) <= MAX_DURATION_DIGITS {
        humantime_duration(text)
    } else {
        None
    }
}

/// Reads a span such as `1hour 12min 5s`. A text with more than
/// `MAX_DURATION_DIGITS` digits is not read.
pub fn parse_span(text: &str) -> (read: Option<Span>)
    ensures
        match read {
            Some(span) => duration_of(text@) == Some(span.parts()),
            None => duration_of(text@) is None,
        },
{
    if !has_few_digits(text) {
        return None;
    }
    match parse_duration(text) {
        Ok(parts) => Some(Span { secs: parts.0, nanos: parts.1 }),
        Err(_) => None,
    }
}

/// The two configured spans: the least time between two cycles, and the
/// most that chance adds to it.
#[derive(Clone, Copy, Debug)]
pub struct Schedule {
    pub min_time_between_chaos: Span,
    pub random_extra_time_between_chaos: Span,
}

/// The whole seconds to wait: the least time, and of the seconds of the
/// extra time the drawn fraction, rounded down.
pub open spec fn wait_secs(min_secs: u64, extra_secs: u64, draw: UnitFraction) -> int {
    min_secs + (extra_secs * draw.numerator()) / (SCALE as int)
}

impl Schedule {
    /// The schedule of two spans that were read, or the error for the first
    /// that could not be read.
    pub open spec fn of_spans(min: Option<Span>, extra: Option<Span>) -> Result<
        Schedule,
        ConfigError,
    > {
        match (min, extra) {
            (None, _) => Err(ConfigError::MalformedDuration(DurationField::MinTimeBetweenChaos)),
            (Some(_), None) => Err(
                ConfigError::MalformedDuration(DurationField::RandomExtraTimeBetweenChaos),
            ),
            (Some(least), Some(most)) => Ok(
                Schedule { min_time_between_chaos: least, random_extra_time_between_chaos: most },
            ),
        }
    }

    /// The schedule of two spans that were read, or the error for the first
    /// that could not be read.
    pub fn from_spans(min: Option<Span>, extra: Option<Span>) -> (made: Result<
        Schedule,
        ConfigError,
    >)
        ensures
            made == Schedule::of_spans(min, extra),
    {
        match (min, extra) {
            (None, _) => Err(ConfigError::MalformedDuration(DurationField::MinTimeBetweenChaos)),
            (Some(_), None) => Err(
                ConfigError::MalformedDuration(DurationField::RandomExtraTimeBetweenChaos),
            ),
            (Some(least), Some(most)) => Ok(
                Schedule { min_time_between_chaos: least, random_extra_time_between_chaos: most },
            ),
        }
    }

    /// Reads the two configured spans. Fails if and only if one of the texts
    /// is no span, with the error for the first of them.
    pub fn parse(min_time_between_chaos: &str, random_extra_time_between_chaos: &str) -> (made:
        Result<Schedule, ConfigError>)
        ensures
            made is Ok <==> duration_of(min_time_between_chaos@) is Some && duration_of(
                random_extra_time_between_chaos@,
            ) is Some,
            made matches Ok(schedule) ==> {
                &&& duration_of(min_time_between_chaos@) == Some(
                    schedule.min_time_between_chaos.parts(),
                )
                &&& duration_of(random_extra_time_between_chaos@) == Some(
                    schedule.random_extra_time_between_chaos.parts(),
                )
            },
            made matches Err(e) ==> e == ConfigError::MalformedDuration(
                if duration_of(min_time_between_chaos@) is None {
                    DurationField::MinTimeBetweenChaos
                } else {
                    DurationField::RandomExtraTimeBetweenChaos
                },
            ),
    {
        let min = parse_span(min_time_between_chaos);
        let extra = parse_span(random_extra_time_between_chaos);
        Schedule::from_spans(min, extra)
    }

    /// The time to wait when `draw` was drawn: the seconds of `wait_secs`
    /// and the nanoseconds of the least time, or nothing if the seconds do
    /// not fit 64 bits.
    pub open spec fn wait_of(self, draw: UnitFraction) -> Option<(u64, u32)> {
        let secs = wait_secs(
            self.min_time_between_chaos.secs(),
            self.random_extra_time_between_chaos.secs(),
            draw,
        );
        if secs <= u64::MAX {
            Some((secs as u64, self.min_time_between_chaos.nanos()))
        } else {
            None
        }
    }

    /// The time to wait when `draw` was drawn, or nothing if its seconds
    /// do not fit 64 bits.
    pub fn wait_time(&self, draw: UnitFraction) -> (wait: Option<Span>)
        ensures
            match wait {
                Some(span) => self.wait_of(draw) == Some(span.parts()),
                None => self.wait_of(draw) is None,
            },
    {
        let least = self.min_time_between_chaos.as_secs();
        let nanos = self.min_time_between_chaos.subsec_nanos();
        let most: u128 = self.random_extra_time_between_chaos.as_secs() as u128;
        let a: u128 = draw.get() as u128;
        assert(most * a <= 0xffff_ffff_ffff_ffff * 0x20_0000_0000_0000) by (nonlinear_arith)
            requires
                0 <= most <= 0xffff_ffff_ffff_ffff,
                0 <= a <= 0x20_0000_0000_0000,
        ;
        let added: u128 = (most * a) / (SCALE as u128);
        proof {
            lemma_added_is_below(most as int, a as int);
        }
        let total: u128 = least as u128 + added;
        if total <= u64::MAX as u128 {
            Some(Span { secs: total as u64, nanos })
        } else {
            None
        }
    }

    /// Draws the time to wait before the next cycle: at least the least
    /// time, and less than the extra time more. Nothing if its seconds do not
    /// fit 64 bits.
    pub fn next_wait(&self, rng: &mut StdRng) -> (wait: Option<Span>)
        ensures
            exists|draw: UnitFraction|
                draw.numerator() < SCALE && match wait {
                    Some(span) => #[trigger] self.wait_of(draw) == Some(span.parts()),
                    None => self.wait_of(draw) is None,
                },
            wait matches Some(span) ==> {
                &&& self.min_time_between_chaos.secs() <= span.secs()
                    <= self.min_time_between_chaos.secs()
                    + self.random_extra_time_between_chaos.secs()
                &&& self.random_extra_time_between_chaos.secs() > 0 ==> span.secs()
                    < self.min_time_between_chaos.secs()
                    + self.random_extra_time_between_chaos.secs()
                &&& span.nanos() == self.min_time_between_chaos.nanos()
            },
            wait is None ==> self.min_time_between_chaos.secs()
                + self.random_extra_time_between_chaos.secs() > u64::MAX,
    {
        let draw = UnitFraction::draw53(rng);
        proof {
            lemma_added_is_below(
                self.random_extra_time_between_chaos.secs() as int,
                draw.numerator() as int,
            );
        }
        self.wait_time(draw)
    }
}

/// The drawn fraction of a number of seconds, rounded down, is less than
/// that number, or zero with it.
pub proof fn lemma_added_is_below(most: int, a: int)
    requires
        0 <= most,
        0 <= a < SCALE,
    ensures
        0 <= (most * a) / (SCALE as int) <= most,
        most > 0 ==> (most * a) / (SCALE as int) < most,
{
    let s = SCALE as int;
    assert(0 <= most * a) by (nonlinear_arith)
        requires
            0 <= most,
            0 <= a,
    ;
    lemma_div_is_ordered(0, most * a, s);
    lemma_div_multiples_vanish(most, s);
    if most > 0 {
        assert(most * a <= s * most - most) by (nonlinear_arith)
            requires
                0 < most,
                0 <= a <= s - 1,
        ;
        lemma_div_is_ordered(most * a, s * most - most, s);
        lemma_div_multiples_vanish(most - 1, s);
        assert(s * most - most <= s * most - 1);
        lemma_div_is_ordered(s * most - most, s * most - 1, s);
        assert((s * most - 1) / s == most - 1) by {
            vstd::arithmetic::div_mod::lemma_fundamental_div_mod_converse_div(
                s * most - 1,
                s,
                most - 1,
                s - 1,
            );
            assert(s * most - 1 == s * (most - 1) + (s - 1)) by (nonlinear_arith);
        }
    } else {
        assert(most * a == 0) by (nonlinear_arith)
            requires
                most == 0,
        ;
    }
}

/// A phase of the loop that drives the cycles.
#[derive(Clone, Copy, Debug, PartialEq, Eq, Structural)]
pub enum Phase {
    /// Before the first cycle.
    Idle,
    /// The pods of the cluster are being listed.
    Listing,
    /// The victims of the cycle are being deleted.
    Attacking,
    /// The time until the next cycle is passing.
    Waiting,
    /// The cluster could not be reached; the loop has ended.
    Stopped,
}

/// What happened outside the loop.
#[derive(Clone, Copy, Debug, PartialEq, Eq, Structural)]
pub enum Event {
    /// The process is ready for the first cycle.
    Started,
    /// The pods were listed and grouped.
    Listed,
    /// The deletions of the cycle were requested.
    Attacked,
    /// The time to wait has passed.
    Woke,
    /// The cluster could not be reached.
    ClusterFailed,
}

/// What the loop does next.
#[derive(Clone, Copy, Debug, PartialEq, Eq, Structural)]
pub enum Action {
    /// List the pods of the cluster and group them.
    ListPods,
    /// Plan the attacks and request the deletions.
    Attack,
    /// Draw the time to wait, and wait.
    Sleep,
    /// Leave the loop with the error of the cluster.
    Exit,
}

/// The phase that follows and what to do on entering it, or nothing where
/// the event does not belong to the phase.
pub open spec fn transition(phase: Phase, event: Event) -> Option<(Phase, Action)> {
    match (phase, event) {
        (Phase::Idle, Event::Started) => Some((Phase::Listing, Action::ListPods)),
        (Phase::Listing, Event::Listed) => Some((Phase::Attacking, Action::Attack)),
        (Phase::Attacking, Event::Attacked) => Some((Phase::Waiting, Action::Sleep)),
        (Phase::Waiting, Event::Woke) => Some((Phase::Listing, Action::ListPods)),
        (Phase::Listing, Event::ClusterFailed) => Some((Phase::Stopped, Action::Exit)),
        (Phase::Attacking, Event::ClusterFailed) => Some((Phase::Stopped, Action::Exit)),
        _ => None,
    }
}

/// The phase that follows and what to do on entering it.
pub fn step(phase: Phase, event: Event) -> (next: Option<(Phase, Action)>)
    ensures
        next == transition(phase, event),
{
    match (phase, event) {
        (Phase::Idle, Event::Started) => Some((Phase::Listing, Action::ListPods)),
        (Phase::Listing, Event::Listed) => Some((Phase::Attacking, Action::Attack)),
        (Phase::Attacking, Event::Attacked) => Some((Phase::Waiting, Action::Sleep)),
        (Phase::Waiting, Event::Woke) => Some((Phase::Listing, Action::ListPods)),
        (Phase::Listing, Event::ClusterFailed) => Some((Phase::Stopped, Action::Exit)),
        (Phase::Attacking, Event::ClusterFailed) => Some((Phase::Stopped, Action::Exit)),
        _ => None,
    }
}

/// The loop has no end of its own: it stops on a failure of the cluster and
/// on nothing else, nothing follows once it has stopped, and a cycle that
/// meets no failure is back at the listing after its wait.
pub proof fn lemma_loop_shape(phase: Phase, event: Event)
    ensures
        transition(Phase::Stopped, event) is None,
        transition(phase, event) matches Some(next) ==> (next.0 == Phase::Stopped <==> event
            == Event::ClusterFailed),
        transition(phase, event) matches Some(next) ==> (next.1 == Action::Exit <==> next.0
            == Phase::Stopped),
        transition(Phase::Listing, Event::Listed) == Some((Phase::Attacking, Action::Attack)),
        transition(Phase::Attacking, Event::Attacked) == Some((Phase::Waiting, Action::Sleep)),
        transition(Phase::Waiting, Event::Woke) == Some((Phase::Listing, Action::ListPods)),
{
}

} // verus!
