use resonantdust_client::clock::{
    ClockSync, CLIENT_DELAY_INIT_US, CLIENT_DELAY_MAX_US, GRAINS, HALF_GRAINS, MS_GRAINS,
};
use resonantdust_client::pulse::{read_drift, Pulse};

/// Milliseconds, in the microseconds the clock counts in.
fn us(ms: u64) -> u64 {
    ms * 1000
}

#[test]
fn runs_behind_by_client_delay_on_a_steady_clock() {
    let mut c = ClockSync::new();
    for i in 0..20u64 {
        let perf = i * 1000;
        c.note_sample(us(perf + 1_000_000), us(perf));
    }
    let perf = 20_000u64;
    let true_server = (perf + 1_000_000) as f64;
    let est = c.server_now_ms(us(perf)) as f64;
    let behind = true_server - est;
    assert!(
        (behind - 3000.0).abs() < 50.0,
        "should run ~client_delay(3000) behind; behind={behind}"
    );
}

#[test]
fn client_delay_grows_on_a_latency_spike() {
    let mut c = ClockSync::new();
    for i in 0..8u64 {
        let perf = i * 1000;
        c.note_sample(us(perf + 1_000_000), us(perf));
    }
    let before = c.client_delay();
    let perf = 8_000u64;
    c.note_sample(us(perf + 1_000_000 + 4000), us(perf));
    assert!(c.client_delay() > before, "spike grew client_delay");
    assert!(c.client_delay() <= CLIENT_DELAY_MAX_US * GRAINS, "clamped to max");
}

#[test]
fn correct_from_drift_reseats_immediately() {
    let mut c = ClockSync::new();
    c.note_sample(us(1_000_000), 0);
    c.correct_from_drift(false, us(800), us(1_000_000), us(100));
    let est = c.server_now_ms(us(100)) as f64;
    let delay = c.client_delay() as f64 / MS_GRAINS as f64;
    assert!((est - (1_000_800.0 - delay)).abs() < 1.0, "reseated to corrected server time");
}

#[test]
fn rejects_stale_buffered_samples_on_resume() {
    let mut c = ClockSync::new();
    for i in 0..8u64 {
        let perf = i * 1000;
        c.note_sample(us(perf + 1_000_000), us(perf));
    }
    let before_delay = c.client_delay();
    let perf = 8000u64;
    for k in 0..5u64 {
        c.note_sample(us(1_000_000 - 20_000 + k * 1000), us(perf));
    }
    assert_eq!(c.client_delay(), before_delay, "stale samples must not spike client_delay");
    let true_server = (perf + 1_000_000) as f64;
    let behind = true_server - c.server_now_ms(us(perf)) as f64;
    assert!(
        behind > 0.0 && behind < before_delay as f64 / MS_GRAINS as f64 + 100.0,
        "estimate must stay ~client_delay behind; behind={behind}"
    );
}

#[test]
fn unsynced_before_first_sample() {
    let c = ClockSync::new();
    assert!(!c.is_synced());
    assert_eq!(c.server_now_ms(us(123)), 0);
}

#[test]
fn the_estimate_advances_with_local_time() {
    let mut c = ClockSync::new();
    c.note_sample(us(10_000), us(0));
    assert!(c.is_synced());
    assert_eq!(c.server_now(us(0)), (10_000_000 - CLIENT_DELAY_INIT_US) * GRAINS);
    assert_eq!(c.server_now(us(700)), (10_700_000 - CLIENT_DELAY_INIT_US) * GRAINS);
    // An estimate before the epoch reads as zero.
    let mut early = ClockSync::new();
    early.note_sample(us(1000), 0);
    assert_eq!(early.server_now_ms(0), 0);
}

#[test]
fn drift_messages_are_read() {
    assert_eq!(read_drift("no drift here"), None);
    assert_eq!(read_drift("time_drift:client_ahead_by=800ms"), Some((true, 800)));
    assert_eq!(read_drift("time_drift:client_behind_by=250"), Some((false, 250)));
    assert_eq!(read_drift("time_drift:client_lost"), None);
}

#[test]
fn ids_count_up_and_stamps_follow_the_clock() {
    let mut p = Pulse::new();
    assert_eq!((p.cid(), p.cid()), (1, 2));
    p.set_clock_ms(5);
    assert_eq!(p.clock_ms(), 5);
    assert_eq!(p.sample("not a number"), None);
    assert!(p.sample("5000000").is_some());
    p.tick(1_000_000);
    assert_eq!(p.perf_us(), 1_000_000);
    // One sample at local time zero: five seconds, run forward by one, behind by three.
    assert_eq!(p.clock_ms(), 3000);
}

#[test]
fn half_steps_keep_fractions_of_a_microsecond() {
    let mut c = ClockSync::new();
    c.note_sample(10_000_000, 0);
    // One microsecond ahead of the prediction, then one behind what half a step made of it.
    c.note_sample(10_000_999, 1_000);
    assert_eq!(c.server_now(1_000), (10_001_000 - 3_000_000) * GRAINS - HALF_GRAINS);
    c.note_sample(10_001_999, 2_000);
    assert_eq!(c.server_now(2_000), (10_002_000 - 3_000_000) * GRAINS - HALF_GRAINS - HALF_GRAINS / 2);
}

#[test]
fn a_rejection_is_placed_halfway_to_the_half_microsecond() {
    let mut c = ClockSync::new();
    c.note_sample(10_000_000, 0);
    c.correct_between(true, 7, 5_000, 100, 201);
    // Five seconds less seven milliseconds, at 150.5 microseconds.
    assert_eq!(c.server_now(201), (4_993_000 + 50 - 3_000_000) * GRAINS + HALF_GRAINS);
}

/// The estimator over double-precision milliseconds.
struct Doubles {
    captures: Vec<(f64, f64)>,
    delta: f64,
    jitter: f64,
    delay: f64,
}

impl Doubles {
    fn offset(&self) -> Option<f64> {
        self.captures.iter().map(|(s, p)| s - p).fold(None, |m, x| match m {
            Some(y) if y > x => Some(y),
            _ => Some(x),
        })
    }

    fn sample(&mut self, server: f64, perf: f64) {
        if let Some(offset) = self.offset() {
            let ahead = offset + perf;
            if ahead - server > 6000.0 {
                return;
            }
            let error = ahead + self.delta - server;
            if error.abs() > self.jitter / 2.0 {
                self.jitter += (error.abs() - self.jitter) / 2.0;
                self.delay = (2.0 * self.jitter).clamp(1500.0, 5000.0);
            } else {
                self.delta -= error / 2.0;
            }
        }
        self.captures.push((server, perf));
        if self.captures.len() > 16 {
            self.captures.remove(0);
        }
    }

    fn now(&self, perf: f64) -> f64 {
        self.offset().map_or(0.0, |o| o + perf + self.delta - self.delay)
    }
}

#[test]
fn the_estimate_is_that_of_doubles_to_their_precision() {
    let mut c = ClockSync::new();
    let mut d = Doubles { captures: vec![], delta: 0.0, jitter: 1500.0, delay: 3000.0 };
    let mut seed = 12345u64;
    let mut perf = 0u64;
    for step in 0..400u64 {
        seed = seed.wrapping_mul(6364136223846793005).wrapping_add(1442695040888963407);
        perf += 900_001 + (seed >> 40) % 200_000;
        // Jitter of up to half a second, and a spike now and then.
        let late = (seed >> 20) % 500_000 + if step % 37 == 5 { 2_500_000 } else { 0 };
        let server = 1_700_000_000_000_000 + perf - late;
        c.note_sample(server, perf);
        d.sample(server as f64 / 1000.0, perf as f64 / 1000.0);
        let ours = c.server_now(perf) as f64 / MS_GRAINS as f64;
        let theirs = d.now(perf as f64 / 1000.0);
        assert!((ours - theirs).abs() < 0.005, "step {step}: {ours} against {theirs}");
        let delay = c.client_delay() as f64 / MS_GRAINS as f64;
        assert!((delay - d.delay).abs() < 0.005);
    }
}
