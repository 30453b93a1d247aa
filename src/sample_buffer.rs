//! Time-aligned sample windows and the queue that reassembles them from incoming ASDUs.
use std::collections::VecDeque;
use vstd::arithmetic::div_mod::{
    lemma_fundamental_div_mod, lemma_mod_mod, lemma_mod_multiples_basic,
};
use vstd::prelude::*;

use crate::calendar::{
    date_from_fixed, fixed_date, fixed_from_gregorian, is_valid_date, lemma_date_unique, MAX_DAY,
};
use crate::sv::{Asdu, Sample};

verus! {

/// A timestamp counted in sample periods since the Unix epoch (1970-01-01 00:00:00 UTC). The value
/// is only meaningful together with a sample rate; times before the epoch cannot be represented.
/// Leap seconds are not counted, as in Unix time.
#[derive(Debug, Clone, Copy, PartialEq, Eq, Structural, PartialOrd, Ord)]
pub struct SampleTime(u64);

impl View for SampleTime {
    type V = nat;

    closed spec fn view(&self) -> nat {
        self.0 as nat
    }
}

/// The UTC calendar date and time of day of `t` sample periods after the epoch, as year, month,
/// day, hours, minutes, seconds and microseconds (truncated).
pub open spec fn is_date_time_of(t: nat, rate: nat, r: (u32, u32, u32, u32, u32, u32, u32)) -> bool {
    let time_of_day = (t % (86400 * rate)) / rate;
    &&& is_valid_date(r.0 as int, r.1 as int, r.2 as int)
    &&& fixed_date(r.0 as int, r.1 as int, r.2 as int) == t / (86400 * rate) + fixed_date(1970, 1, 1)
    &&& r.3 == time_of_day / 3600
    &&& r.4 == time_of_day % 3600 / 60
    &&& r.5 == time_of_day % 60
    &&& r.6 == (t % rate) * 1_000_000 / rate
}

/// A timestamp has one date and time: the result of `to_date_time` is determined by its contract.
pub proof fn lemma_date_time_unique(
    t: nat,
    rate: nat,
    a: (u32, u32, u32, u32, u32, u32, u32),
    b: (u32, u32, u32, u32, u32, u32, u32),
)
    requires
        is_date_time_of(t, rate, a),
        is_date_time_of(t, rate, b),
    ensures
        a == b,
{
    lemma_date_unique(a.0 as int, a.1 as int, a.2 as int, b.0 as int, b.1 as int, b.2 as int);
}

/// Whether the date of `t` sample periods after the epoch lies within the calendar range handled.
pub open spec fn has_calendar_date(t: nat, rate: nat) -> bool {
    t / (86400 * rate) + fixed_date(1970, 1, 1) <= MAX_DAY
}

impl SampleTime {
    /// The time `seconds` after the epoch plus `samples` sample periods, at `sample_rate` samples
    /// per second.
    pub fn from_seconds_and_samples(seconds: u64, samples: u32, sample_rate: u32) -> (r: Self)
        requires
            seconds * sample_rate + samples <= u64::MAX,
        ensures
            r@ == seconds * sample_rate + samples,
    {
        proof {
            assert(seconds * sample_rate <= u64::MAX) by (nonlinear_arith)
                requires
                    seconds * sample_rate + samples <= u64::MAX,
                    samples >= 0,
            ;
        }
        SampleTime(seconds * sample_rate as u64 + samples as u64)
    }

    /// Whole seconds since the epoch.
    pub fn as_secs(self, sample_rate: u32) -> (r: u64)
        requires
            sample_rate > 0,
        ensures
            r == self@ / (sample_rate as nat),
    {
        self.0 / sample_rate as u64
    }

    /// The sample periods elapsed since the start of the current second.
    pub fn subsec_samples(self, sample_rate: u32) -> (r: u32)
        requires
            sample_rate > 0,
        ensures
            r == self@ % (sample_rate as nat),
    {
        (self.0 % sample_rate as u64) as u32
    }

    /// This time moved `samples` sample periods later.
    pub fn add_samples(self, samples: u32) -> (r: Self)
        requires
            self@ + samples <= u64::MAX,
        ensures
            r@ == self@ + samples,
    {
        SampleTime(self.0 + samples as u64)
    }

    /// The Gregorian calendar date and the time of day (UTC) of this timestamp, as year, month,
    /// day, hours, minutes, seconds and microseconds. Month and day start at 1; the microseconds
    /// are truncated.
    pub fn to_date_time(self, sample_rate: u32) -> (r: (u32, u32, u32, u32, u32, u32, u32))
        requires
            sample_rate > 0,
            has_calendar_date(self@, sample_rate as nat),
        ensures
            is_date_time_of(self@, sample_rate as nat, r),
    {
        let samples_per_day = 86400 * sample_rate as u64;
        let date = self.0 / samples_per_day + fixed_from_gregorian(1970, 1, 1);
        let (year, month, day) = date_from_fixed(date);
        let time = self.0 % samples_per_day / sample_rate as u64;
        proof {
            let x = (self.0 % samples_per_day) as nat;
            assert(x / (sample_rate as nat) < 86400) by (nonlinear_arith)
                requires
                    x < 86400 * sample_rate,
                    sample_rate > 0,
            ;
        }
        let hours = time / 3600;
        let minutes = time % 3600 / 60;
        let seconds = time % 60;
        let subsec = self.0 % sample_rate as u64;
        proof {
            assert((subsec as nat) * 1_000_000 / (sample_rate as nat) < 1_000_000) by (nonlinear_arith)
                requires
                    subsec < sample_rate,
                    sample_rate > 0,
            ;
        }
        let microseconds = subsec * 1_000_000 / sample_rate as u64;
        (
            year as u32,
            month as u32,
            day as u32,
            hours as u32,
            minutes as u32,
            seconds as u32,
            microseconds as u32,
        )
    }

    /// Whether this timestamp's date lies within the calendar range that `to_date_time` handles.
    pub fn has_calendar_date(self, sample_rate: u32) -> (r: bool)
        requires
            sample_rate > 0,
        ensures
            r == has_calendar_date(self@, sample_rate as nat),
    {
        let days = self.0 / (86400 * sample_rate as u64);
        days <= MAX_DAY - fixed_from_gregorian(1970, 1, 1)
    }

    /// The number of sample periods since the epoch.
    pub fn sample_count(self) -> (r: u64)
        ensures
            r == self@,
    {
        self.0
    }
}

/// The absolute value of a reading.
pub open spec fn abs_value(v: i32) -> nat {
    if v < 0 {
        (-v) as nat
    } else {
        v as nat
    }
}

/// The readings of one channel over a window, and the largest absolute value inserted.
#[derive(Debug)]
pub struct SampleBufferChannel {
    buffer: Vec<i32>,
    max: u32,
}

pub struct ChannelModel {
    pub values: Seq<i32>,
    pub max: nat,
}

impl View for SampleBufferChannel {
    type V = ChannelModel;

    closed spec fn view(&self) -> ChannelModel {
        ChannelModel { values: self.buffer@, max: self.max as nat }
    }
}

/// No stored reading is larger in magnitude than the channel's `max`.
pub open spec fn channel_wf(c: ChannelModel) -> bool {
    &&& c.max <= 0x8000_0000
    &&& forall|i: int| 0 <= i < c.values.len() ==> abs_value(#[trigger] c.values[i]) <= c.max
}

/// A channel of `length` zero readings.
pub open spec fn zero_channel(length: nat) -> ChannelModel {
    ChannelModel { values: Seq::new(length, |i: int| 0i32), max: 0 }
}

/// The channel with `value` written at `index`; `max` grows to cover it and never shrinks.
pub open spec fn channel_insert(c: ChannelModel, index: int, value: i32) -> ChannelModel {
    ChannelModel {
        values: c.values.update(index, value),
        max: if abs_value(value) > c.max {
            abs_value(value)
        } else {
            c.max
        },
    }
}

/// After any insertion into a well-formed channel, every stored reading is still bounded by `max`.
pub proof fn lemma_channel_max_bound(c: ChannelModel, index: int, value: i32)
    requires
        channel_wf(c),
        0 <= index < c.values.len(),
    ensures
        channel_wf(channel_insert(c, index, value)),
        forall|i: int|
            0 <= i < c.values.len() ==> abs_value(#[trigger] channel_insert(c, index, value).values[i])
                <= channel_insert(c, index, value).max,
{
    let n = channel_insert(c, index, value);
    assert forall|i: int| 0 <= i < n.values.len() implies abs_value(#[trigger] n.values[i]) <= n.max by {
        if i != index {
            assert(abs_value(c.values[i]) <= c.max);
        }
    }
}

impl SampleBufferChannel {
    /// A channel of `length` readings, all zero.
    pub fn new(length: usize) -> (r: Self)
        ensures
            r@ == zero_channel(length as nat),
            channel_wf(r@),
    {
        let buffer = vec![0i32; length];
        proof {
            assert(buffer@ =~= Seq::new(length as nat, |i: int| 0i32));
        }
        Self { buffer, max: 0 }
    }

    /// Writes `value` at `index` and raises `max` to its magnitude where that is larger.
    pub fn insert_sample(&mut self, index: u32, value: i32)
        requires
            index < old(self)@.values.len(),
            channel_wf(old(self)@),
        ensures
            final(self)@ == channel_insert(old(self)@, index as int, value),
            channel_wf(final(self)@),
    {
        let magnitude: u32 = if value < 0 {
            (-(value as i64)) as u32
        } else {
            value as u32
        };
        self.buffer.set(index as usize, value);
        if magnitude > self.max {
            self.max = magnitude;
        }
        proof {
            lemma_channel_max_bound(old(self)@, index as int, value);
        }
    }

    /// The largest absolute value inserted.
    pub fn max(&self) -> (r: u32)
        ensures
            r == self@.max,
    {
        self.max
    }

    /// The readings, one per sample period of the window.
    pub fn values(&self) -> (r: &Vec<i32>)
        ensures
            r@ == self@.values,
    {
        &self.buffer
    }
}

/// The delay, in nanoseconds, between the end of a window and the moment it is sent.
pub const SEND_DELAY_NS: u128 = 5_000_000;

pub const NS_PER_SEC: u64 = 1_000_000_000;

/// The readings of all eight channels over one window of `length` sample periods starting at
/// `start_time`.
#[derive(Debug)]
pub struct SampleBuffer {
    current_a: SampleBufferChannel,
    current_b: SampleBufferChannel,
    current_c: SampleBufferChannel,
    current_n: SampleBufferChannel,
    voltage_a: SampleBufferChannel,
    voltage_b: SampleBufferChannel,
    voltage_c: SampleBufferChannel,
    voltage_n: SampleBufferChannel,
    sample_rate: u32,
    start_time: SampleTime,
    length: u32,
}

/// A window: its sample rate, start (in sample periods since the epoch), length (in sample
/// periods) and its eight channels in wire order.
pub struct BufferModel {
    pub rate: nat,
    pub start: nat,
    pub length: nat,
    pub channels: Seq<ChannelModel>,
}

impl View for SampleBuffer {
    type V = BufferModel;

    closed spec fn view(&self) -> BufferModel {
        BufferModel {
            rate: self.sample_rate as nat,
            start: self.start_time@,
            length: self.length as nat,
            channels: seq![
                self.current_a@,
                self.current_b@,
                self.current_c@,
                self.current_n@,
                self.voltage_a@,
                self.voltage_b@,
                self.voltage_c@,
                self.voltage_n@,
            ],
        }
    }
}

/// The window parameters that the buffer's invariant asks for: a whole number of windows per
/// second, the start aligned to a multiple of `length` within its second, and the end representable.
pub open spec fn window_params_ok(rate: nat, start: nat, length: nat) -> bool {
    &&& 0 < rate <= u32::MAX
    &&& 0 < length <= u32::MAX
    &&& rate % length == 0
    &&& (start % rate) % length == 0
    &&& start + length <= u64::MAX
}

pub open spec fn buffer_wf(b: BufferModel) -> bool {
    &&& window_params_ok(b.rate, b.start, b.length)
    &&& b.channels.len() == 8
    &&& forall|k: int|
        0 <= k < 8 ==> (#[trigger] b.channels[k]).values.len() == b.length && channel_wf(
            b.channels[k],
        )
}

/// A window whose channels all hold zeros.
pub open spec fn empty_buffer(rate: nat, start: nat, length: nat) -> BufferModel {
    BufferModel {
        rate,
        start,
        length,
        channels: Seq::new(8, |k: int| zero_channel(length)),
    }
}

/// The window after a sample with counter `smp_cnt` is inserted: it lands at
/// `smp_cnt - start_time.subsec_samples` where that lies within the window, and is dropped otherwise.
pub open spec fn buffer_insert(b: BufferModel, smp_cnt: nat, sample: Sample) -> BufferModel {
    let sub = b.start % b.rate;
    if sub <= smp_cnt < sub + b.length {
        BufferModel {
            channels: Seq::new(
                8,
                |k: int| channel_insert(b.channels[k], smp_cnt - sub, sample.values()[k]),
            ),
            ..b
        }
    } else {
        b
    }
}

pub open spec fn buffer_end(b: BufferModel) -> nat {
    b.start + b.length
}

pub open spec fn is_within(b: BufferModel, ts: nat) -> bool {
    b.start <= ts < buffer_end(b)
}

pub open spec fn is_after(b: BufferModel, ts: nat) -> bool {
    ts >= buffer_end(b)
}

/// The moment, in nanoseconds since the epoch, at which a window is due to be sent.
pub open spec fn send_time_ns(b: BufferModel) -> nat {
    buffer_end(b) * NS_PER_SEC as nat / b.rate + SEND_DELAY_NS as nat
}

impl SampleBuffer {
    /// A window of `length` sample periods from `start_time`, all readings zero.
    pub fn new(sample_rate: u32, start_time: SampleTime, length: u32) -> (r: Self)
        requires
            window_params_ok(sample_rate as nat, start_time@, length as nat),
        ensures
            r@ == empty_buffer(sample_rate as nat, start_time@, length as nat),
            buffer_wf(r@),
    {
        let r = Self {
            current_a: SampleBufferChannel::new(length as usize),
            current_b: SampleBufferChannel::new(length as usize),
            current_c: SampleBufferChannel::new(length as usize),
            current_n: SampleBufferChannel::new(length as usize),
            voltage_a: SampleBufferChannel::new(length as usize),
            voltage_b: SampleBufferChannel::new(length as usize),
            voltage_c: SampleBufferChannel::new(length as usize),
            voltage_n: SampleBufferChannel::new(length as usize),
            sample_rate,
            start_time,
            length,
        };
        proof {
            assert(r@.channels =~= Seq::new(8, |k: int| zero_channel(length as nat)));
        }
        r
    }

    /// Inserts a sample at the position its counter gives within this window; a sample outside
    /// the window is dropped.
    pub fn insert_sample(&mut self, smp_cnt: u32, sample: Sample)
        requires
            buffer_wf(old(self)@),
        ensures
            final(self)@ == buffer_insert(old(self)@, smp_cnt as nat, sample),
            buffer_wf(final(self)@),
    {
        let sub = self.start_time.subsec_samples(self.sample_rate);
        if sub <= smp_cnt && smp_cnt - sub < self.length {
            let index = smp_cnt - sub;
            self.current_a.insert_sample(index, sample.current_a);
            self.current_b.insert_sample(index, sample.current_b);
            self.current_c.insert_sample(index, sample.current_c);
            self.current_n.insert_sample(index, sample.current_n);
            self.voltage_a.insert_sample(index, sample.voltage_a);
            self.voltage_b.insert_sample(index, sample.voltage_b);
            self.voltage_c.insert_sample(index, sample.voltage_c);
            self.voltage_n.insert_sample(index, sample.voltage_n);
            proof {
                let expected = buffer_insert(old(self)@, smp_cnt as nat, sample);
                assert(self@.channels =~= expected.channels);
            }
        }
    }

    /// Whether `timestamp` falls within this window.
    pub fn is_sample_within_timespan(&self, timestamp: SampleTime) -> (r: bool)
        requires
            buffer_wf(self@),
        ensures
            r == is_within(self@, timestamp@),
    {
        let end = self.start_time.add_samples(self.length);
        timestamp.sample_count() >= self.start_time.sample_count() && timestamp.sample_count()
            < end.sample_count()
    }

    /// Whether `timestamp` comes at or after the end of this window.
    pub fn is_sample_after_timespan(&self, timestamp: SampleTime) -> (r: bool)
        requires
            buffer_wf(self@),
        ensures
            r == is_after(self@, timestamp@),
    {
        let end = self.start_time.add_samples(self.length);
        timestamp.sample_count() >= end.sample_count()
    }

    /// The moment, in nanoseconds since the epoch, at which this window is due to be sent: its end
    /// plus the send delay.
    pub fn get_send_time(&self) -> (r: u128)
        requires
            buffer_wf(self@),
        ensures
            r == send_time_ns(self@),
    {
        let end = self.start_time.add_samples(self.length).sample_count() as u128;
        proof {
            assert(end * 1_000_000_000 <= u64::MAX * 1_000_000_000) by (nonlinear_arith)
                requires
                    end <= u64::MAX,
            ;
        }
        end * (NS_PER_SEC as u128) / (self.sample_rate as u128) + SEND_DELAY_NS
    }

    pub fn sample_rate(&self) -> (r: u32)
        ensures
            r == self@.rate,
    {
        self.sample_rate
    }

    pub fn start_time(&self) -> (r: SampleTime)
        ensures
            r@ == self@.start,
    {
        self.start_time
    }

    pub fn length(&self) -> (r: u32)
        ensures
            r == self@.length,
    {
        self.length
    }

    /// The channel at position `k` in wire order: currents A, B, C, N, then voltages A, B, C, N.
    pub fn channel(&self, k: usize) -> (r: &SampleBufferChannel)
        requires
            k < 8,
        ensures
            r@ == self@.channels[k as int],
    {
        match k {
            0 => &self.current_a,
            1 => &self.current_b,
            2 => &self.current_c,
            3 => &self.current_n,
            4 => &self.voltage_a,
            5 => &self.voltage_b,
            6 => &self.voltage_c,
            _ => &self.voltage_n,
        }
    }
}

/// Where the sample rate is a whole multiple of `length`, a time's alignment within its second is
/// its alignment since the epoch.
pub proof fn lemma_alignment(t: nat, rate: nat, length: nat)
    requires
        rate > 0,
        length > 0,
        rate % length == 0,
    ensures
        (t % rate) % length == t % length,
{
    let k = rate / length;
    lemma_fundamental_div_mod(rate as int, length as int);
    assert(rate == length * k);
    assert(k > 0) by (nonlinear_arith)
        requires
            rate == length * k,
            rate > 0,
            length > 0,
    ;
    lemma_mod_mod(t as int, length as int, k as int);
}

/// The window that the sample counter `smp_cnt` of second `seconds` belongs to starts at
/// `smp_cnt` rounded down to a multiple of `length`.
pub open spec fn window_start(seconds: nat, rate: nat, length: nat, smp_cnt: nat) -> nat {
    seconds * rate + (smp_cnt / length) * length
}

proof fn lemma_window_start(seconds: nat, rate: nat, length: nat, smp_cnt: nat)
    requires
        rate > 0,
        length > 0,
        rate % length == 0,
    ensures
        window_start(seconds, rate, length, smp_cnt) % length == 0,
        window_start(seconds, rate, length, smp_cnt) <= seconds * rate + smp_cnt,
        seconds * rate + smp_cnt < window_start(seconds, rate, length, smp_cnt) + length,
{
    let k = rate / length;
    let m = smp_cnt / length;
    lemma_fundamental_div_mod(rate as int, length as int);
    lemma_fundamental_div_mod(smp_cnt as int, length as int);
    assert(seconds * rate + m * length == (seconds * k + m) * length) by (nonlinear_arith)
        requires
            rate == length * k,
    ;
    lemma_mod_multiples_basic((seconds * k + m) as int, length as int);
}

proof fn lemma_multiples_order(a: nat, b: nat, length: nat)
    requires
        length > 0,
        a % length == 0,
        b % length == 0,
        a + length > b,
    ensures
        a >= b,
{
    lemma_fundamental_div_mod(a as int, length as int);
    lemma_fundamental_div_mod(b as int, length as int);
    let x = a / length;
    let y = b / length;
    assert(x >= y) by (nonlinear_arith)
        requires
            a == length * x,
            b == length * y,
            a + length > b,
            length > 0,
    ;
    assert(a >= b) by (nonlinear_arith)
        requires
            a == length * x,
            b == length * y,
            x >= y,
            length > 0,
    ;
}

/// The windows awaiting dispatch, oldest first.
#[derive(Debug)]
pub struct SampleBufferQueue {
    queue: VecDeque<SampleBuffer>,
}

pub open spec fn buffer_views(q: Seq<SampleBuffer>) -> Seq<BufferModel> {
    q.map_values(|b: SampleBuffer| b@)
}

impl View for SampleBufferQueue {
    type V = Seq<BufferModel>;

    closed spec fn view(&self) -> Seq<BufferModel> {
        buffer_views(self.queue@)
    }
}

/// Every window is well formed, and the windows are in ascending order of start time without
/// overlapping.
pub open spec fn queue_wf(q: Seq<BufferModel>) -> bool {
    &&& forall|i: int| 0 <= i < q.len() ==> buffer_wf(#[trigger] q[i])
    &&& forall|i: int, j: int| 0 <= i < j < q.len() ==> buffer_end(#[trigger] q[i]) <= (#[trigger] q[j]).start
}

/// In a well-formed queue every window starts at a multiple of its length within its second, and
/// the start times ascend strictly with no two windows overlapping.
pub proof fn lemma_queue_windows_aligned_and_ordered(q: Seq<BufferModel>)
    requires
        queue_wf(q),
    ensures
        forall|i: int| 0 <= i < q.len() ==> ((#[trigger] q[i]).start % q[i].rate) % q[i].length == 0,
        forall|i: int, j: int|
            0 <= i < j < q.len() ==> (#[trigger] q[i]).start < (#[trigger] q[j]).start && buffer_end(
                q[i],
            ) <= q[j].start,
{
    assert forall|i: int| 0 <= i < q.len() implies ((#[trigger] q[i]).start % q[i].rate)
        % q[i].length == 0 by {
        assert(buffer_wf(q[i]));
    }
    assert forall|i: int, j: int| 0 <= i < j < q.len() implies (#[trigger] q[i]).start < (
    #[trigger] q[j]).start && buffer_end(q[i]) <= q[j].start by {
        assert(buffer_wf(q[i]));
        assert(buffer_end(q[i]) <= q[j].start);
    }
}

/// Every window has the given sample rate and length.
pub open spec fn queue_uniform(q: Seq<BufferModel>, rate: nat, length: nat) -> bool {
    forall|i: int| 0 <= i < q.len() ==> (#[trigger] q[i]).rate == rate && q[i].length == length
}

/// The second that a sample belongs to. A counter that, at the nanosecond offset it stands for,
/// is not earlier than the receive time's fraction of a second was sampled before the counter
/// rolled over, in the previous second.
pub open spec fn effective_second(recv_s: nat, recv_ns: nat, rate: nat, smp_cnt: nat) -> int {
    if smp_cnt * NS_PER_SEC >= recv_ns * rate {
        recv_s - 1
    } else {
        recv_s as int
    }
}

/// The index of the newest window that contains `ts`, or -1.
pub open spec fn newest_within(q: Seq<BufferModel>, ts: nat) -> int
    decreases q.len(),
{
    if q.len() == 0 {
        -1
    } else if is_within(q.last(), ts) {
        q.len() - 1
    } else {
        newest_within(q.drop_last(), ts)
    }
}

/// The queue after a sample is inserted. A sample later than the newest window opens a new window
/// at the end; one inside a live window goes into the newest such window; any other sample, and
/// one whose second would lie before the epoch, is dropped.
pub open spec fn queue_after_insert(
    q: Seq<BufferModel>,
    recv_s: nat,
    recv_ns: nat,
    rate: nat,
    length: nat,
    smp_cnt: nat,
    sample: Sample,
) -> Seq<BufferModel> {
    let s = effective_second(recv_s, recv_ns, rate, smp_cnt);
    if s < 0 {
        q
    } else {
        let ts = (s * rate + smp_cnt) as nat;
        if q.len() == 0 || is_after(q.last(), ts) {
            q.push(
                buffer_insert(
                    empty_buffer(rate, window_start(s as nat, rate, length, smp_cnt), length),
                    smp_cnt,
                    sample,
                ),
            )
        } else {
            let i = newest_within(q, ts);
            if i < 0 {
                q
            } else {
                q.update(i, buffer_insert(q[i], smp_cnt, sample))
            }
        }
    }
}

proof fn lemma_newest_within_range(q: Seq<BufferModel>, ts: nat)
    ensures
        -1 <= newest_within(q, ts) < q.len(),
        newest_within(q, ts) >= 0 ==> is_within(q[newest_within(q, ts)], ts),
        forall|j: int| newest_within(q, ts) < j < q.len() ==> !is_within(#[trigger] q[j], ts),
    decreases q.len(),
{
    if q.len() > 0 && !is_within(q.last(), ts) {
        lemma_newest_within_range(q.drop_last(), ts);
        assert forall|j: int| newest_within(q, ts) < j < q.len() implies !is_within(
            #[trigger] q[j],
            ts,
        ) by {
            if j < q.len() - 1 {
                assert(q[j] == q.drop_last()[j]);
            }
        }
    }
}

impl SampleBufferQueue {
    pub fn new() -> (r: Self)
        ensures
            r@ == Seq::<BufferModel>::empty(),
    {
        let r = Self { queue: VecDeque::new() };
        proof {
            assert(r@ =~= Seq::<BufferModel>::empty());
        }
        r
    }

    /// The number of windows awaiting dispatch.
    pub fn len(&self) -> (r: usize)
        ensures
            r == self@.len(),
    {
        self.queue.len()
    }

    pub fn is_empty(&self) -> (r: bool)
        ensures
            r == (self@.len() == 0),
    {
        self.queue.len() == 0
    }

    /// Whether every window awaiting dispatch has this sample rate and length, so that samples of
    /// that rate and window length may be inserted.
    pub fn accepts(&self, sample_rate: u32, buffer_length: u32) -> (r: bool)
        ensures
            r == queue_uniform(self@, sample_rate as nat, buffer_length as nat),
    {
        let mut i: usize = 0;
        while i < self.queue.len()
            invariant
                i <= self@.len(),
                self@ == buffer_views(self.queue@),
                forall|j: int|
                    0 <= j < i ==> (#[trigger] self@[j]).rate == sample_rate && self@[j].length
                        == buffer_length,
            decreases self@.len() - i,
        {
            proof {
                assert(self@[i as int] == self.queue@[i as int]@);
            }
            if self.queue[i].sample_rate() != sample_rate || self.queue[i].length() != buffer_length {
                return false;
            }
            i += 1;
        }
        true
    }

    /// Opens a new window for a sample later than every live window, and inserts the sample.
    fn append_window(
        &mut self,
        seconds: u64,
        smp_cnt: u32,
        sample_rate: u32,
        buffer_length: u32,
        sample: Sample,
    )
        requires
            queue_wf(old(self)@),
            queue_uniform(old(self)@, sample_rate as nat, buffer_length as nat),
            sample_rate > 0,
            buffer_length > 0,
            sample_rate % buffer_length == 0,
            seconds * sample_rate + smp_cnt + buffer_length <= u64::MAX,
            old(self)@.len() == 0 || is_after(old(self)@.last(), (seconds * sample_rate + smp_cnt) as nat),
        ensures
            final(self)@ == old(self)@.push(
                buffer_insert(
                    empty_buffer(
                        sample_rate as nat,
                        window_start(
                            seconds as nat,
                            sample_rate as nat,
                            buffer_length as nat,
                            smp_cnt as nat,
                        ),
                        buffer_length as nat,
                    ),
                    smp_cnt as nat,
                    sample,
                ),
            ),
            queue_wf(final(self)@),
            queue_uniform(final(self)@, sample_rate as nat, buffer_length as nat),
    {
        let ghost rate = sample_rate as nat;
        let ghost length = buffer_length as nat;
        let ghost ts = (seconds * rate + smp_cnt) as nat;
        let ghost start_value = window_start(seconds as nat, rate, length, smp_cnt as nat);
        proof {
            lemma_window_start(seconds as nat, rate, length, smp_cnt as nat);
            lemma_alignment(start_value, rate, length);
            lemma_fundamental_div_mod(smp_cnt as int, length as int);
            assert((smp_cnt / buffer_length) * buffer_length <= smp_cnt);
        }
        let aligned = smp_cnt / buffer_length * buffer_length;
        let start = SampleTime::from_seconds_and_samples(seconds, aligned, sample_rate);
        let mut buffer = SampleBuffer::new(sample_rate, start, buffer_length);
        buffer.insert_sample(smp_cnt, sample);
        let ghost old_q = self@;
        self.queue.push_back(buffer);
        proof {
            assert(self@ =~= old_q.push(buffer@));
            let n = old_q.len();
            if n > 0 {
                let back = old_q.last();
                assert(buffer_wf(old_q[n - 1]));
                lemma_alignment(back.start, rate, length);
                lemma_fundamental_div_mod(back.start as int, length as int);
                lemma_mod_multiples_basic((back.start / length + 1) as int, length as int);
                assert(buffer_end(back) == (back.start / length + 1) * length) by (nonlinear_arith)
                    requires
                        back.start == length * (back.start / length),
                        buffer_end(back) == back.start + length,
                ;
                lemma_multiples_order(start_value, buffer_end(back), length);
                assert forall|i: int, j: int| 0 <= i < j < self@.len() implies buffer_end(
                    #[trigger] self@[i],
                ) <= (#[trigger] self@[j]).start by {
                    if j == n && i < n - 1 {
                        assert(buffer_end(old_q[i]) <= old_q[n - 1].start);
                    }
                }
            }
        }
    }

    /// Inserts a sample into the newest live window that contains `timestamp`; drops it where none
    /// does.
    fn insert_into_live(&mut self, timestamp: SampleTime, smp_cnt: u32, sample: Sample)
        requires
            queue_wf(old(self)@),
        ensures
            newest_within(old(self)@, timestamp@) < 0 ==> final(self)@ == old(self)@,
            newest_within(old(self)@, timestamp@) >= 0 ==> final(self)@ == old(self)@.update(
                newest_within(old(self)@, timestamp@),
                buffer_insert(
                    old(self)@[newest_within(old(self)@, timestamp@)],
                    smp_cnt as nat,
                    sample,
                ),
            ),
            queue_wf(final(self)@),
            forall|k: int|
                0 <= k < old(self)@.len() ==> (#[trigger] final(self)@[k]).rate == old(self)@[k].rate
                    && final(self)@[k].length == old(self)@[k].length,
            final(self)@.len() == old(self)@.len(),
    {
        proof {
            lemma_newest_within_range(self@, timestamp@);
        }
        let ghost old_q = self@;
        let mut i: usize = self.queue.len();
        while i > 0
            invariant
                i <= old_q.len(),
                self@ == old_q,
                old_q == old(self)@,
                self@ == buffer_views(self.queue@),
                queue_wf(old_q),
                forall|j: int| i <= j < old_q.len() ==> !is_within(#[trigger] old_q[j], timestamp@),
                -1 <= newest_within(old_q, timestamp@) < old_q.len(),
                newest_within(old_q, timestamp@) >= 0 ==> is_within(
                    old_q[newest_within(old_q, timestamp@)],
                    timestamp@,
                ),
                forall|j: int|
                    newest_within(old_q, timestamp@) < j < old_q.len() ==> !is_within(
                        #[trigger] old_q[j],
                        timestamp@,
                    ),
            decreases i,
        {
            let k = i - 1;
            proof {
                assert(self@[k as int] == self.queue@[k as int]@);
                assert(buffer_wf(old_q[k as int]));
            }
            if self.queue[k].is_sample_within_timespan(timestamp) {
                let mut buffer = self.queue.remove(k).unwrap();
                buffer.insert_sample(smp_cnt, sample);
                let ghost updated = buffer@;
                self.queue.insert(k, buffer);
                proof {
                    assert(newest_within(old_q, timestamp@) == k);
                    assert(self@ =~= old_q.update(k as int, updated));
                    assert forall|a: int, b: int| 0 <= a < b < self@.len() implies buffer_end(
                        #[trigger] self@[a],
                    ) <= (#[trigger] self@[b]).start by {
                        assert(buffer_end(old_q[a]) <= old_q[b].start);
                    }
                }
                return;
            }
            i = k;
        }
    }

    /// Inserts the sample of `asdu`, received `recv_time_s` seconds and `recv_time_ns` nanoseconds
    /// after the epoch, into the window it belongs to, opening a new window at the end where the
    /// sample is later than every live window.
    pub fn insert_sample(
        &mut self,
        recv_time_s: u64,
        recv_time_ns: u32,
        sample_rate: u32,
        buffer_length: u32,
        asdu: Asdu,
    )
        requires
            queue_wf(old(self)@),
            queue_uniform(old(self)@, sample_rate as nat, buffer_length as nat),
            sample_rate > 0,
            buffer_length > 0,
            sample_rate % buffer_length == 0,
            recv_time_s * sample_rate + 0x1_0000 + buffer_length <= u64::MAX,
        ensures
            final(self)@ == queue_after_insert(
                old(self)@,
                recv_time_s as nat,
                recv_time_ns as nat,
                sample_rate as nat,
                buffer_length as nat,
                asdu.smp_cnt as nat,
                asdu.sample,
            ),
            queue_wf(final(self)@),
            queue_uniform(final(self)@, sample_rate as nat, buffer_length as nat),
    {
        let smp_cnt = asdu.smp_cnt as u32;
        proof {
            assert(recv_time_ns * sample_rate <= u32::MAX * u32::MAX) by (nonlinear_arith)
                requires
                    recv_time_ns <= u32::MAX,
                    sample_rate <= u32::MAX,
            ;
        }
        let rolled_over = smp_cnt as u64 * NS_PER_SEC >= recv_time_ns as u64 * sample_rate as u64;
        let seconds = if rolled_over {
            if recv_time_s == 0 {
                return;
            }
            recv_time_s - 1
        } else {
            recv_time_s
        };
        proof {
            assert(seconds * sample_rate <= recv_time_s * sample_rate) by (nonlinear_arith)
                requires
                    seconds <= recv_time_s,
            ;
        }
        let timestamp = SampleTime::from_seconds_and_samples(seconds, smp_cnt, sample_rate);
        let n = self.queue.len();
        let append = if n == 0 {
            true
        } else {
            proof {
                assert(self@[n - 1] == self.queue@[n - 1]@);
                assert(buffer_wf(self@[n - 1]));
            }
            self.queue[n - 1].is_sample_after_timespan(timestamp)
        };
        if append {
            self.append_window(seconds, smp_cnt, sample_rate, buffer_length, asdu.sample);
        } else {
            let ghost old_q = self@;
            self.insert_into_live(timestamp, smp_cnt, asdu.sample);
            proof {
                assert forall|k: int| 0 <= k < self@.len() implies (#[trigger] self@[k]).rate
                    == sample_rate && self@[k].length == buffer_length by {
                    assert(old_q[k].rate == sample_rate);
                }
            }
        }
    }

    /// Removes and returns the oldest window. Every window left starts at or after its end.
    pub fn pop_sample_buffer(&mut self) -> (r: Option<SampleBuffer>)
        requires
            queue_wf(old(self)@),
        ensures
            old(self)@.len() == 0 ==> r is None && final(self)@ == old(self)@,
            old(self)@.len() > 0 ==> (r matches Some(b) && b@ == old(self)@[0]) && final(self)@
                == old(self)@.skip(1),
            r matches Some(b) ==> forall|k: int|
                0 <= k < final(self)@.len() ==> buffer_end(b@) <= (#[trigger] final(self)@[k]).start,
            queue_wf(final(self)@),
    {
        let ghost old_q = self@;
        let r = self.queue.pop_front();
        proof {
            if old_q.len() > 0 {
                assert(self@ =~= old_q.skip(1));
                assert forall|k: int| 0 <= k < self@.len() implies buffer_end(old_q[0]) <= (
                #[trigger] self@[k]).start by {
                    assert(self@[k] == old_q[k + 1]);
                }
                assert forall|a: int, b: int| 0 <= a < b < self@.len() implies buffer_end(
                    #[trigger] self@[a],
                ) <= (#[trigger] self@[b]).start by {
                    assert(self@[a] == old_q[a + 1] && self@[b] == old_q[b + 1]);
                }
            }
        }
        r
    }

    /// When the oldest window is due to be sent, in nanoseconds since the epoch.
    pub fn next_send_time(&self) -> (r: Option<u128>)
        requires
            queue_wf(self@),
        ensures
            self@.len() == 0 ==> r is None,
            self@.len() > 0 ==> r is Some && r->Some_0 == send_time_ns(self@[0]),
    {
        if self.queue.len() == 0 {
            None
        } else {
            proof {
                assert(self@[0] == self.queue@[0]@);
                assert(buffer_wf(self@[0]));
            }
            Some(self.queue[0].get_send_time())
        }
    }
}

/// What the dispatcher does next.
#[derive(Debug, Clone, Copy, PartialEq, Eq, Structural)]
pub enum DispatchAction {
    /// Shutdown was requested: stop.
    Exit,
    /// No window is waiting: wait until one is added.
    Wait,
    /// Wait this many nanoseconds, then take the oldest window and send it.
    SendAfter(u128),
}

/// Decides the dispatcher's next step from the shutdown flag, the oldest window's send time and
/// the time now (both in nanoseconds since the epoch).
pub fn next_dispatch_action(done: bool, head_send_time_ns: Option<u128>, now_ns: u128) -> (r:
    DispatchAction)
    ensures
        done ==> r == DispatchAction::Exit,
        !done && head_send_time_ns is None ==> r == DispatchAction::Wait,
        !done && head_send_time_ns is Some ==> r == DispatchAction::SendAfter(
            if head_send_time_ns->Some_0 > now_ns {
                (head_send_time_ns->Some_0 - now_ns) as u128
            } else {
                0
            },
        ),
{
    if done {
        DispatchAction::Exit
    } else {
        match head_send_time_ns {
            None => DispatchAction::Wait,
            Some(t) => if t > now_ns {
                DispatchAction::SendAfter(t - now_ns)
            } else {
                DispatchAction::SendAfter(0)
            },
        }
    }
}

/// One received sample, as `SampleBufferQueue::insert_sample` takes it.
pub struct InsertEvent {
    pub recv_s: nat,
    pub recv_ns: nat,
    pub smp_cnt: nat,
    pub sample: Sample,
}

/// The queue after the samples of `events` are inserted in turn.
pub open spec fn queue_after_inserts(
    q: Seq<BufferModel>,
    rate: nat,
    length: nat,
    events: Seq<InsertEvent>,
) -> Seq<BufferModel>
    decreases events.len(),
{
    if events.len() == 0 {
        q
    } else {
        let e = events[0];
        queue_after_inserts(
            queue_after_insert(q, e.recv_s, e.recv_ns, rate, length, e.smp_cnt, e.sample),
            rate,
            length,
            events.skip(1),
        )
    }
}

/// Insertion never moves, removes or re-times a window: it only fills windows in place or
/// appends one at the end.
pub proof fn lemma_insert_keeps_windows(
    q: Seq<BufferModel>,
    rate: nat,
    length: nat,
    events: Seq<InsertEvent>,
)
    ensures
        queue_after_inserts(q, rate, length, events).len() >= q.len(),
        forall|k: int|
            0 <= k < q.len() ==> (#[trigger] queue_after_inserts(q, rate, length, events)[k]).start
                == q[k].start && queue_after_inserts(q, rate, length, events)[k].length
                == q[k].length,
    decreases events.len(),
{
    if events.len() > 0 {
        let e = events[0];
        let q1 = queue_after_insert(q, e.recv_s, e.recv_ns, rate, length, e.smp_cnt, e.sample);
        lemma_newest_within_range(q, 0);
        let s = effective_second(e.recv_s, e.recv_ns, rate, e.smp_cnt);
        if s >= 0 {
            lemma_newest_within_range(q, (s * rate + e.smp_cnt) as nat);
        }
        assert(q1.len() >= q.len());
        assert forall|k: int| 0 <= k < q.len() implies (#[trigger] q1[k]).start == q[k].start
            && q1[k].length == q[k].length by {}
        lemma_insert_keeps_windows(q1, rate, length, events.skip(1));
    }
}

/// Windows are sent in ascending order of start time: once the oldest window is taken from a queue
/// that holds another, whatever samples arrive next, the window sent after it starts no earlier
/// than the end of the one sent.
pub proof fn lemma_send_order(
    q: Seq<BufferModel>,
    rate: nat,
    length: nat,
    events: Seq<InsertEvent>,
)
    requires
        queue_wf(q),
        q.len() >= 2,
    ensures
        queue_after_inserts(q.skip(1), rate, length, events).len() >= 1,
        queue_after_inserts(q.skip(1), rate, length, events)[0].start >= buffer_end(q[0]),
{
    lemma_insert_keeps_windows(q.skip(1), rate, length, events);
    assert(q.skip(1)[0] == q[1]);
}

} // verus!
