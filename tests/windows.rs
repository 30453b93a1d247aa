use mu_rust::sample_buffer::{
    next_dispatch_action, DispatchAction, SampleBuffer, SampleBufferChannel, SampleBufferQueue,
    SampleTime,
};
use mu_rust::{Asdu, Sample};

fn sample(v: i32) -> Sample {
    Sample {
        current_a: v,
        current_b: -v,
        current_c: 0,
        current_n: 1,
        voltage_a: 2 * v,
        voltage_b: 0,
        voltage_c: 0,
        voltage_n: 0,
    }
}

fn asdu(smp_cnt: u16, v: i32) -> Asdu {
    Asdu {
        svid: "MU01".to_string(),
        datset: None,
        smp_cnt,
        conf_rev: 1,
        refr_tm: None,
        smp_synch: 2,
        smp_rate: None,
        sample: sample(v),
        smp_mod: None,
    }
}

const S: u64 = 1_700_000_000;

#[test]
fn window_creation() {
    let mut q = SampleBufferQueue::new();
    // Received late in the second, so no rollover correction applies.
    q.insert_sample(S, 999_999_999, 4000, 40, asdu(0, 7));
    assert_eq!(q.len(), 1);
    q.insert_sample(S, 999_999_999, 4000, 40, asdu(39, 8));
    assert_eq!(q.len(), 1);
    q.insert_sample(S, 999_999_999, 4000, 40, asdu(40, 9));
    assert_eq!(q.len(), 2);
    let first = q.pop_sample_buffer().unwrap();
    assert_eq!(first.start_time(), SampleTime::from_seconds_and_samples(S, 0, 4000));
    assert_eq!(first.start_time().sample_count(), S * 4000);
    assert_eq!(first.length(), 40);
    assert_eq!(first.channel(0).values()[0], 7);
    assert_eq!(first.channel(0).values()[39], 8);
    assert_eq!(first.channel(1).values()[39], -8);
    let second = q.pop_sample_buffer().unwrap();
    assert_eq!(second.start_time().sample_count(), S * 4000 + 40);
    assert_eq!(second.channel(0).values()[0], 9);
    assert!(q.pop_sample_buffer().is_none());
}

#[test]
fn pre_rollover_timestamp_correction() {
    let mut q = SampleBufferQueue::new();
    q.insert_sample(100, 1000, 4000, 40, asdu(3999, 5));
    let b = q.pop_sample_buffer().unwrap();
    // ts = 99 * 4000 + 3999, in the window that starts at 99 * 4000 + 3960.
    assert_eq!(b.start_time().sample_count(), 99 * 4000 + 3960);
    assert_eq!(b.channel(0).values()[39], 5);
    assert!(b.is_sample_within_timespan(SampleTime::from_seconds_and_samples(99, 3999, 4000)));
    assert!(!b.is_sample_within_timespan(SampleTime::from_seconds_and_samples(100, 3999, 4000)));
    assert!(b.is_sample_after_timespan(SampleTime::from_seconds_and_samples(100, 0, 4000)));
}

#[test]
fn no_correction_when_offset_is_before_receive_time() {
    let mut q = SampleBufferQueue::new();
    // 0 ns offset for counter 0 is not before 1000 ns... it is equal or later only when ns is 0.
    q.insert_sample(100, 1000, 4000, 40, asdu(0, 5));
    let b = q.pop_sample_buffer().unwrap();
    assert_eq!(b.start_time().sample_count(), 100 * 4000);
    q.insert_sample(100, 0, 4000, 40, asdu(0, 5));
    let b = q.pop_sample_buffer().unwrap();
    assert_eq!(b.start_time().sample_count(), 99 * 4000);
}

#[test]
fn sample_before_epoch_is_dropped() {
    let mut q = SampleBufferQueue::new();
    q.insert_sample(0, 0, 4000, 40, asdu(10, 5));
    assert_eq!(q.len(), 0);
}

#[test]
fn out_of_range_sample_is_dropped() {
    let mut q = SampleBufferQueue::new();
    q.insert_sample(S, 999_999_999, 4000, 40, asdu(80, 1));
    q.insert_sample(S, 999_999_999, 4000, 40, asdu(120, 2));
    assert_eq!(q.len(), 2);
    // Older than every live window.
    q.insert_sample(S, 999_999_999, 4000, 40, asdu(10, 3));
    assert_eq!(q.len(), 2);
    let a = q.pop_sample_buffer().unwrap();
    let b = q.pop_sample_buffer().unwrap();
    assert_eq!(a.start_time().sample_count(), S * 4000 + 80);
    assert_eq!(b.start_time().sample_count(), S * 4000 + 120);
    assert!(a.channel(0).values().iter().all(|&v| v == 0 || v == 1));
    assert!(b.channel(0).values().iter().all(|&v| v == 0 || v == 2));
    assert_eq!(a.channel(0).max(), 1);
    assert_eq!(b.channel(0).max(), 2);
}

#[test]
fn late_sample_goes_into_older_live_window() {
    let mut q = SampleBufferQueue::new();
    q.insert_sample(S, 999_999_999, 4000, 40, asdu(0, 1));
    q.insert_sample(S, 999_999_999, 4000, 40, asdu(40, 2));
    q.insert_sample(S, 999_999_999, 4000, 40, asdu(5, -30));
    assert_eq!(q.len(), 2);
    let a = q.pop_sample_buffer().unwrap();
    assert_eq!(a.channel(0).values()[5], -30);
    assert_eq!(a.channel(0).max(), 30);
}

#[test]
fn queue_stays_aligned_and_ordered() {
    let mut q = SampleBufferQueue::new();
    let mut ns: u32 = 156_255;
    for i in 0..500u32 {
        let cnt = ((i * 37) % 4000) as u16;
        q.insert_sample(1_000_000_000, ns, 4000, 40, asdu(cnt, i as i32));
        ns = ns.wrapping_add(1000) % 1_000_000_000;
    }
    let mut previous_end: Option<u64> = None;
    while let Some(b) = q.pop_sample_buffer() {
        let start = b.start_time();
        assert_eq!(start.subsec_samples(4000) % 40, 0);
        if let Some(end) = previous_end {
            assert!(start.sample_count() >= end);
        }
        previous_end = Some(start.sample_count() + 40);
        for k in 0..8 {
            let ch = b.channel(k);
            assert!(ch.values().iter().all(|v| v.unsigned_abs() <= ch.max()));
        }
    }
}

#[test]
fn channel_max_never_decreases() {
    let mut c = SampleBufferChannel::new(4);
    c.insert_sample(0, -50);
    c.insert_sample(1, 20);
    assert_eq!(c.max(), 50);
    c.insert_sample(0, 1);
    assert_eq!(c.max(), 50);
    assert_eq!(c.values(), &vec![1, 20, 0, 0]);
    c.insert_sample(3, i32::MIN);
    assert_eq!(c.max(), 1u32 << 31);
}

#[test]
fn send_time_is_end_plus_delay() {
    let b = SampleBuffer::new(4000, SampleTime::from_seconds_and_samples(10, 40, 4000), 40);
    // End is 10 s + 80 samples = 10.02 s; plus 5 ms.
    assert_eq!(b.get_send_time(), 10_025_000_000);
    let b = SampleBuffer::new(4800, SampleTime::from_seconds_and_samples(0, 0, 4800), 48);
    assert_eq!(b.get_send_time(), 10_000_000 + 5_000_000);
}

#[test]
fn sample_time_arithmetic() {
    let t = SampleTime::from_seconds_and_samples(12, 345, 4000);
    assert_eq!(t.sample_count(), 48_345);
    assert_eq!(t.as_secs(4000), 12);
    assert_eq!(t.subsec_samples(4000), 345);
    assert_eq!(t.add_samples(3655).as_secs(4000), 13);
    assert_eq!(t.add_samples(3655).subsec_samples(4000), 0);
}

#[test]
fn dispatch_decisions() {
    assert_eq!(next_dispatch_action(true, Some(5), 0), DispatchAction::Exit);
    assert_eq!(next_dispatch_action(false, None, 0), DispatchAction::Wait);
    assert_eq!(next_dispatch_action(false, Some(500), 200), DispatchAction::SendAfter(300));
    assert_eq!(next_dispatch_action(false, Some(500), 900), DispatchAction::SendAfter(0));
}

#[test]
fn next_send_time_follows_head() {
    let mut q = SampleBufferQueue::new();
    assert_eq!(q.next_send_time(), None);
    q.insert_sample(10, 999_999_999, 4000, 40, asdu(0, 1));
    q.insert_sample(10, 999_999_999, 4000, 40, asdu(40, 1));
    assert_eq!(q.next_send_time(), Some(10_015_000_000));
    q.pop_sample_buffer();
    assert_eq!(q.next_send_time(), Some(10_025_000_000));
}

#[test]
fn accepts_only_matching_windows() {
    let mut q = SampleBufferQueue::new();
    assert!(q.accepts(4800, 48));
    q.insert_sample(10, 999_999_999, 4000, 40, asdu(0, 1));
    assert!(q.accepts(4000, 40));
    assert!(!q.accepts(4800, 48));
}
