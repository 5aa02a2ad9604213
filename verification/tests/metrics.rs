use barnes_hut::duration::Duration;
use barnes_hut::metrics::{FrameCounts, FrameTimings, Metrics, MetricsSnapshot, DEFAULT_WINDOW};

fn ms(n: u64) -> Duration {
    Duration::from_millis(n)
}

fn timings(iterate: u64, collide: u64, attract: u64, build: u64, acc: u64) -> FrameTimings {
    FrameTimings {
        iterate: ms(iterate),
        collide: ms(collide),
        attract_total: ms(attract),
        quadtree_build: ms(build),
        quadtree_acc: ms(acc),
    }
}

fn record(m: &mut Metrics, frame: usize, t: FrameTimings, bodies: usize) {
    m.begin_frame(frame);
    m.snapshot_mut().last = t;
    m.snapshot_mut().counts_last.bodies = bodies;
    m.finish_frame();
}

#[test]
fn duration_arithmetic() {
    let a = Duration::new(1, 700_000_000);
    let b = Duration::new(2, 600_000_000);
    let s = a.plus(b);
    assert_eq!(s.as_secs(), 4);
    assert_eq!(s.subsec_nanos(), 300_000_000);
    assert_eq!(s.minus(b), a);
    assert_eq!(b.minus(a).as_nanos(), 900_000_000);
    assert_eq!(Duration::new(0, 2_500_000_000).as_nanos(), 2_500_000_000);
}

#[test]
fn duration_division_rounds_down() {
    let d = Duration::new(10, 1);
    assert_eq!(d.div_u32(3).as_nanos(), 10_000_000_001 / 3);
    assert_eq!(Duration::from_nanos(7).div_u32(2).as_nanos(), 3);
    let big = Duration::new(u64::MAX, 999_999_999);
    assert_eq!(big.div_u32(u32::MAX).as_nanos(), big.as_nanos() / (u32::MAX as u128));
}

#[test]
fn total_adds_the_three_phases() {
    let t = timings(1, 2, 4, 100, 200);
    assert_eq!(t.total().as_nanos(), 7_000_000);
}

#[test]
fn clear_zeroes_everything() {
    let mut t = timings(1, 2, 3, 4, 5);
    t.clear();
    assert_eq!(t.iterate.as_nanos() + t.quadtree_acc.as_nanos(), 0);
    let mut c = FrameCounts { bodies: 3, quadtree_nodes_active: 1, collision_pairs: 2, collision_islands: 1, collision_island_max_pairs: 4, bonds: 9 };
    c.clear();
    assert_eq!(c.bodies + c.bonds + c.collision_pairs, 0);
}

#[test]
fn new_clamps_window_to_one() {
    let mut m = Metrics::new(0);
    record(&mut m, 0, timings(10, 0, 0, 0, 0), 1);
    record(&mut m, 1, timings(30, 0, 0, 0, 0), 1);
    assert_eq!(m.window_len(), 1);
    assert_eq!(m.snapshot().avg.iterate, ms(30));
}

#[test]
fn default_window_is_120() {
    let mut m = Metrics::default();
    for f in 0..200 {
        record(&mut m, f, timings(1, 1, 1, 1, 1), 2);
    }
    assert_eq!(m.window_len(), DEFAULT_WINDOW);
    assert_eq!(m.window_counts_sum().bodies, 2 * DEFAULT_WINDOW);
}

#[test]
fn averages_cover_the_window_only() {
    let mut m = Metrics::new(2);
    record(&mut m, 0, timings(10, 20, 30, 40, 50), 5);
    let s = m.snapshot();
    assert_eq!(s.avg.iterate, ms(10));
    assert_eq!(s.frame, 0);
    record(&mut m, 1, timings(20, 20, 30, 40, 50), 7);
    assert_eq!(m.snapshot().avg.iterate, ms(15));
    record(&mut m, 2, timings(40, 0, 0, 0, 0), 9);
    let s = m.snapshot();
    assert_eq!(s.avg.iterate, ms(30));
    assert_eq!(s.avg.collide, ms(10));
    assert_eq!(s.frame, 2);
    assert_eq!(m.window_len(), 2);
    assert_eq!(m.window_counts_sum().bodies, 16);
}

#[test]
fn begin_frame_resets_last_but_keeps_averages() {
    let mut m = Metrics::new(4);
    record(&mut m, 0, timings(8, 8, 8, 8, 8), 3);
    m.begin_frame(1);
    let s: MetricsSnapshot = m.snapshot();
    assert_eq!(s.frame, 1);
    assert_eq!(s.last.iterate, Duration::zero());
    assert_eq!(s.counts_last.bodies, 0);
    assert_eq!(s.avg.iterate, ms(8));
}

#[test]
fn average_rounds_down_to_nanoseconds() {
    let mut m = Metrics::new(3);
    for (f, n) in [1u64, 1, 2].iter().enumerate() {
        m.begin_frame(f);
        m.snapshot_mut().last.collide = Duration::from_nanos(*n);
        m.finish_frame();
    }
    assert_eq!(m.snapshot().avg.collide.as_nanos(), 1);
}

#[test]
fn window_holds_only_the_latest_frames() {
    let mut m = Metrics::new(3);
    for f in 0..10u64 {
        record(&mut m, f as usize, timings(f, 0, 0, 0, 0), f as usize);
        assert!(m.window_len() <= 3);
    }
    assert_eq!(m.window_len(), 3);
    // frames 7, 8 and 9 remain
    assert_eq!(m.window_counts_sum().bodies, 7 + 8 + 9);
    assert_eq!(m.snapshot().avg.iterate, ms(8));
}
