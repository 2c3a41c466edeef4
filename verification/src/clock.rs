//! The audio clock: when a page is due, by its granule position.
//!
//! A stream of `sample_rate` samples a second that started at `start_time`
//! reaches sample `p` after `p * 1000 / sample_rate` milliseconds.

use vstd::prelude::*;
use crate::page::{page_position, OggPage};

verus! {

/// `time::SteadyTime`, a reading of the monotonic clock. Nothing is known
/// of its value.
#[verifier::external_type_specification]
#[verifier::external_body]
pub struct ExSteadyTime(time::SteadyTime);

/// `time::SteadyTime::now`: the current reading of the monotonic clock.
#[verifier::external_body]
fn steady_now() -> time::SteadyTime {
    time::SteadyTime::now()
}

/// The difference of two readings of the monotonic clock, `later - earlier`
/// as `time` computes it, in whole milliseconds
/// (`time::Duration::num_milliseconds`).
#[verifier::external_body]
fn millis_between(later: &time::SteadyTime, earlier: &time::SteadyTime) -> i64 {
    (*later - *earlier).num_milliseconds()
}

/// `time::get_time`: the seconds of the current Unix time.
#[verifier::external_body]
pub(crate) fn unix_now() -> i64 {
    time::get_time().sec
}

/// Milliseconds from the start of the stream to sample `position`.
pub open spec fn offset_ms(sample_rate: u32, position: u64) -> int {
    position * 1000 / (sample_rate as int)
}

/// How long to wait, in milliseconds, until sample `position` is due, when
/// `elapsed_ms` milliseconds have passed since the start of the stream:
/// nothing if it is overdue, and no more than a `u64` holds.
pub open spec fn delay_spec(sample_rate: u32, elapsed_ms: i64, position: u64) -> int {
    let wait = offset_ms(sample_rate, position) - elapsed_ms;
    if wait < 0 {
        0
    } else if wait > u64::MAX {
        u64::MAX as int
    } else {
        wait
    }
}

/// How long to wait, in milliseconds, until sample `position` is due.
pub fn delay_ms(sample_rate: u32, elapsed_ms: i64, position: u64) -> (ms: u64)
    requires
        sample_rate > 0,
    ensures
        ms == delay_spec(sample_rate, elapsed_ms, position),
{
    let scaled: u128 = position as u128 * 1000;
    let offset: u128 = scaled / (sample_rate as u128);
    assert(offset == offset_ms(sample_rate, position));
    assert(offset <= scaled) by (nonlinear_arith)
        requires
            offset == scaled / (sample_rate as u128),
            sample_rate > 0,
    ;
    if elapsed_ms >= 0 {
        let elapsed: u128 = elapsed_ms as u128;
        if offset <= elapsed {
            0
        } else if offset - elapsed > u64::MAX as u128 {
            u64::MAX
        } else {
            (offset - elapsed) as u64
        }
    } else {
        let behind: u128 = (-(elapsed_ms as i128)) as u128;
        if offset + behind > u64::MAX as u128 {
            u64::MAX
        } else {
            (offset + behind) as u64
        }
    }
}

/// A sample rate and the moment the stream started.
pub struct AudioClock {
    // in Hz, e.g. 44100 or 48000
    sample_rate: u32,
    start_time: time::SteadyTime,
}

impl AudioClock {
    /// The sample rate is positive.
    pub closed spec fn wf(&self) -> bool {
        self.sample_rate > 0
    }

    /// The sample rate, in Hz.
    pub closed spec fn rate(&self) -> u32 {
        self.sample_rate
    }

    /// A clock for a stream of `sample_rate` samples a second that started
    /// at `start_time`.
    pub fn new_with_start(sample_rate: u32, start_time: time::SteadyTime) -> (clock: AudioClock)
        requires
            sample_rate > 0,
        ensures
            clock.wf(),
            clock.rate() == sample_rate,
    {
        AudioClock { sample_rate, start_time }
    }

    /// The sample rate, in Hz.
    pub fn sample_rate(&self) -> (rate: u32)
        ensures
            rate == self.rate(),
    {
        self.sample_rate
    }

    /// How long to wait from `now`, in milliseconds, until sample
    /// `position` is due. It depends on the two clock readings, of which
    /// nothing is known here: `delay_ms` says how.
    pub fn wait_delay(&self, now: time::SteadyTime, position: u64) -> (ms: u64)
        requires
            self.wf(),
        ensures
            exists|elapsed_ms: i64| ms == #[trigger] delay_spec(self.rate(), elapsed_ms, position),
    {
        let elapsed = millis_between(&now, &self.start_time);
        let ms = delay_ms(self.sample_rate, elapsed, position);
        assert(ms == delay_spec(self.rate(), elapsed, position));
        ms
    }
}

/// The position in the whole stream of a page at `position` in its track,
/// when the track began at `base` and the stream has come to `last`: a
/// position that falls behind `last` begins a new track there.
pub open spec fn absolute_position(base: u64, last: u64, position: u64) -> int {
    if base + position < last {
        saturated(last + position)
    } else {
        saturated(base + position)
    }
}

/// `n`, or the largest `u64` if `n` is larger.
pub open spec fn saturated(n: int) -> int {
    if n > u64::MAX {
        u64::MAX as int
    } else {
        n
    }
}

/// An audio clock for a stream of tracks, each of which counts its samples
/// from zero.
pub struct OggClock {
    clock: AudioClock,
    last_pos: u64,
    base_pos: u64,
}

impl OggClock {
    /// The sample rate is positive.
    pub closed spec fn wf(&self) -> bool {
        self.clock.wf()
    }

    /// The sample rate, in Hz.
    pub closed spec fn rate(&self) -> u32 {
        self.clock.rate()
    }

    /// The stream position of the last page.
    pub closed spec fn last(&self) -> u64 {
        self.last_pos
    }

    /// The stream position at which the current track began.
    pub closed spec fn base(&self) -> u64 {
        self.base_pos
    }

    /// A clock for a stream that starts now.
    pub fn new(sample_rate: u32) -> (clock: OggClock)
        requires
            sample_rate > 0,
        ensures
            clock.wf(),
            clock.rate() == sample_rate,
            clock.last() == 0,
            clock.base() == 0,
    {
        OggClock::new_with_start(sample_rate, steady_now())
    }

    /// A clock for a stream that started at `start_time`.
    pub fn new_with_start(sample_rate: u32, start_time: time::SteadyTime) -> (clock: OggClock)
        requires
            sample_rate > 0,
        ensures
            clock.wf(),
            clock.rate() == sample_rate,
            clock.last() == 0,
            clock.base() == 0,
    {
        OggClock {
            clock: AudioClock::new_with_start(sample_rate, start_time),
            last_pos: 0,
            base_pos: 0,
        }
    }

    /// The sample rate, in Hz.
    pub fn sample_rate(&self) -> (rate: u32)
        ensures
            rate == self.rate(),
    {
        self.clock.sample_rate()
    }

    /// Moves the clock on to a page at `position` in its track, and gives
    /// the page's position in the whole stream.
    pub fn advance(&mut self, position: u64) -> (abs_pos: u64)
        requires
            old(self).wf(),
        ensures
            final(self).wf(),
            final(self).rate() == old(self).rate(),
            abs_pos == absolute_position(old(self).base(), old(self).last(), position),
            final(self).last() == abs_pos,
            final(self).base() == if old(self).base() + position < old(self).last() {
                old(self).last()
            } else {
                old(self).base()
            },
    {
        if self.base_pos.saturating_add(position) < self.last_pos {
            self.base_pos = self.last_pos;
        }
        let abs_pos = self.base_pos.saturating_add(position);
        self.last_pos = abs_pos;
        abs_pos
    }

    /// How long to wait, in milliseconds, until `page` is due, when
    /// `elapsed_ms` milliseconds have passed since the start of the stream.
    pub fn wait_duration_at(&mut self, elapsed_ms: i64, page: &OggPage) -> (ms: u64)
        requires
            old(self).wf(),
            page.wf(),
        ensures
            final(self).wf(),
            final(self).rate() == old(self).rate(),
            final(self).last() == absolute_position(
                old(self).base(),
                old(self).last(),
                page_position(page@),
            ),
            ms == delay_spec(old(self).rate(), elapsed_ms, final(self).last()),
    {
        let abs_pos = self.advance(page.position());
        delay_ms(self.clock.sample_rate(), elapsed_ms, abs_pos)
    }

    /// How long to wait from now, in milliseconds, until `page` is due. It
    /// depends on the clock, of which nothing is known here:
    /// `wait_duration_at` says how.
    pub fn wait_duration(&mut self, page: &OggPage) -> (ms: u64)
        requires
            old(self).wf(),
            page.wf(),
        ensures
            final(self).wf(),
            final(self).rate() == old(self).rate(),
            final(self).last() == absolute_position(
                old(self).base(),
                old(self).last(),
                page_position(page@),
            ),
            exists|elapsed_ms: i64|
                ms == #[trigger] delay_spec(old(self).rate(), elapsed_ms, final(self).last()),
    {
        let elapsed = millis_between(&steady_now(), &self.clock.start_time);
        self.wait_duration_at(elapsed, page)
    }
}

} // verus!
