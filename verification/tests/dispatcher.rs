use fastry::dispatcher::{Dispatcher, PoolOptions, Ratio, ScalingAction};

fn options(size: usize) -> PoolOptions {
    PoolOptions {
        initial_pool_size: size,
        scale_up_ratio: Ratio { numerator: 5, denominator: 1 },
        scale_down_ratio: Ratio { numerator: 1, denominator: 5 },
        window_seconds: 60,
    }
}

fn pool(size: usize) -> Dispatcher {
    Dispatcher::new(options(size), 0).unwrap()
}

#[test]
fn standard_options_are_those_of_the_minimal_design() {
    let o = PoolOptions::standard();
    assert!(o.is_valid());
    assert_eq!(o.initial_pool_size, 10);
    assert_eq!((o.scale_up_ratio.numerator, o.scale_up_ratio.denominator), (5, 1));
    assert_eq!((o.scale_down_ratio.numerator, o.scale_down_ratio.denominator), (1, 5));
    assert_eq!(o.window_seconds, 60);
}

#[test]
fn options_without_window_or_with_zero_denominator_are_refused() {
    let mut o = options(3);
    o.window_seconds = 0;
    assert!(!o.is_valid());
    assert!(Dispatcher::new(o, 0).is_none());
    let mut o = options(3);
    o.scale_up_ratio.denominator = 0;
    assert!(Dispatcher::new(o, 0).is_none());
    let mut o = options(3);
    o.scale_down_ratio.denominator = 0;
    assert!(Dispatcher::new(o, 0).is_none());
}

#[test]
fn new_pool_numbers_its_contexts_from_zero() {
    let d = pool(4);
    assert_eq!(d.contexts(), &vec![0, 1, 2, 3]);
    assert_eq!(d.cursor(), 0);
    assert_eq!(d.request_count(), 0);
    assert_eq!(d.target(), Some(0));
}

#[test]
fn requests_go_round_the_pool_in_order() {
    let mut d = pool(3);
    let mut seen = Vec::new();
    for _ in 0..7 {
        seen.push(d.target().unwrap());
        d.delivered();
    }
    assert_eq!(seen, vec![0, 1, 2, 0, 1, 2, 0]);
    assert_eq!(d.request_count(), 7);
    assert_eq!(d.cursor(), 1);
}

#[test]
fn round_robin_gives_each_context_floor_or_ceiling() {
    let n = 4usize;
    let m = 10usize;
    let mut d = pool(n);
    d.delivered();
    d.delivered();
    let mut received = vec![0usize; n];
    let mut order = Vec::new();
    for _ in 0..m {
        let t = d.target().unwrap() as usize;
        order.push(t);
        received[t] += 1;
        d.delivered();
    }
    assert_eq!(order, vec![2, 3, 0, 1, 2, 3, 0, 1, 2, 3]);
    assert_eq!(received, vec![2, 2, 3, 3]);
    for r in received {
        assert!(r == m / n || r == (m + n - 1) / n);
    }
}

#[test]
fn failed_push_removes_the_target_and_retries_the_next() {
    let mut d = pool(3);
    d.delivered();
    assert_eq!(d.target(), Some(1));
    assert_eq!(d.push_failed(), Some(1));
    assert_eq!(d.contexts(), &vec![0, 2]);
    assert_eq!(d.target(), Some(2));
    assert_eq!(d.request_count(), 1);
    assert_eq!(d.push_failed(), Some(2));
    assert_eq!(d.contexts(), &vec![0]);
    assert_eq!(d.cursor(), 0);
    assert_eq!(d.target(), Some(0));
    assert_eq!(d.push_failed(), Some(0));
    assert_eq!(d.target(), None);
    assert_eq!(d.push_failed(), None);
}

#[test]
fn delivery_in_an_empty_pool_keeps_the_cursor_at_zero() {
    let mut d = pool(0);
    assert_eq!(d.target(), None);
    d.delivered();
    assert_eq!(d.cursor(), 0);
    assert_eq!(d.request_count(), 1);
}

#[test]
fn scale_up_scenario() {
    let mut d = pool(4);
    for _ in 0..1300 {
        d.delivered();
    }
    assert_eq!(d.request_count(), 1300);
    assert_eq!(d.evaluate_scaling(61), ScalingAction::Spawn(4));
    assert_eq!(d.contexts(), &vec![0, 1, 2, 3, 4]);
    assert_eq!(d.request_count(), 0);
    assert_eq!(d.evaluate_scaling(62), ScalingAction::Keep);
    assert_eq!(d.contexts().len(), 5);
}

#[test]
fn scale_down_scenario() {
    let mut d = pool(5);
    for _ in 0..50 {
        d.delivered();
    }
    assert_eq!(d.evaluate_scaling(61), ScalingAction::Stop(4));
    assert_eq!(d.contexts(), &vec![0, 1, 2, 3]);
    assert_eq!(d.request_count(), 0);
}

#[test]
fn load_between_the_thresholds_changes_nothing_but_the_window() {
    let mut d = pool(5);
    for _ in 0..60 {
        d.delivered();
    }
    // 60 / 60 / 5 = 0.2: not below the lower threshold.
    assert_eq!(d.evaluate_scaling(61), ScalingAction::Keep);
    assert_eq!(d.contexts().len(), 5);
    assert_eq!(d.request_count(), 0);
    for _ in 0..1500 {
        d.delivered();
    }
    // 1500 / 60 / 5 = 5.0: not above the upper threshold.
    assert_eq!(d.evaluate_scaling(122), ScalingAction::Keep);
    for _ in 0..1501 {
        d.delivered();
    }
    assert_eq!(d.evaluate_scaling(183), ScalingAction::Spawn(5));
}

#[test]
fn nothing_is_evaluated_before_the_window_is_over() {
    let mut d = pool(2);
    for _ in 0..5000 {
        d.delivered();
    }
    assert_eq!(d.evaluate_scaling(0), ScalingAction::Keep);
    assert_eq!(d.evaluate_scaling(60), ScalingAction::Keep);
    assert_eq!(d.request_count(), 5000);
    assert_eq!(d.evaluate_scaling(61), ScalingAction::Spawn(2));
    assert_eq!(d.request_count(), 0);
    // the new window began at 61
    for _ in 0..5000 {
        d.delivered();
    }
    assert_eq!(d.evaluate_scaling(121), ScalingAction::Keep);
    assert_eq!(d.evaluate_scaling(122), ScalingAction::Spawn(3));
}

#[test]
fn removing_the_last_context_settles_the_cursor() {
    let mut d = pool(3);
    d.delivered();
    d.delivered();
    assert_eq!(d.cursor(), 2);
    assert_eq!(d.evaluate_scaling(100), ScalingAction::Stop(2));
    assert_eq!(d.cursor(), 0);
    assert_eq!(d.target(), Some(0));
}

#[test]
fn empty_pool_grows_with_the_first_request() {
    let mut d = pool(0);
    assert_eq!(d.evaluate_scaling(100), ScalingAction::Keep);
    d.delivered();
    assert_eq!(d.evaluate_scaling(200), ScalingAction::Spawn(0));
    assert_eq!(d.target(), Some(0));
}

#[test]
fn numbers_of_removed_contexts_are_not_given_out_again() {
    let mut d = pool(2);
    assert_eq!(d.evaluate_scaling(100), ScalingAction::Stop(1));
    for _ in 0..1000 {
        d.delivered();
    }
    assert_eq!(d.evaluate_scaling(200), ScalingAction::Spawn(2));
    assert_eq!(d.contexts(), &vec![0, 2]);
}

#[test]
fn huge_thresholds_do_not_overflow() {
    let o = PoolOptions {
        initial_pool_size: 3,
        scale_up_ratio: Ratio { numerator: u64::MAX, denominator: u64::MAX },
        scale_down_ratio: Ratio { numerator: u64::MAX, denominator: 1 },
        window_seconds: u64::MAX - 1,
    };
    let mut d = Dispatcher::new(o, 0).unwrap();
    d.delivered();
    assert_eq!(d.evaluate_scaling(u64::MAX), ScalingAction::Stop(2));
}
