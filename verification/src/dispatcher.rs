//! The dispatcher's bookkeeping: the ordered pool of worker contexts, the
//! round-robin cursor, and the controller that resizes the pool by the load
//! seen in each window.
//!
//! The dispatcher decides; its caller does the work. The caller accepts a
//! connection, asks for the [`Dispatcher::target`], pushes the request to
//! that context's inbox and reports how the push went. After each connection
//! it asks [`Dispatcher::evaluate_scaling`] whether a context is to be
//! spawned or stopped. Contexts are known to the dispatcher by number.

use vstd::arithmetic::div_mod::{
    lemma_div_is_ordered, lemma_fundamental_div_mod, lemma_fundamental_div_mod_converse,
    lemma_mod_bound,
};
use vstd::prelude::*;

verus! {

/// A threshold in requests per second per context, as a fraction.
#[derive(Clone, Copy, Debug)]
pub struct Ratio {
    pub numerator: u64,
    pub denominator: u64,
}

/// The options of the pool.
#[derive(Clone, Copy, Debug)]
pub struct PoolOptions {
    /// Number of contexts at startup.
    pub initial_pool_size: usize,
    /// Load above which a context is added.
    pub scale_up_ratio: Ratio,
    /// Load below which a context is removed.
    pub scale_down_ratio: Ratio,
    /// Length of the evaluation window.
    pub window_seconds: u64,
}

/// What the scaling controller asks its caller to do.
#[derive(Clone, Copy, Debug, PartialEq, Eq, Structural)]
pub enum ScalingAction {
    /// Nothing.
    Keep,
    /// Spawn a context with this number; it is the last of the pool.
    Spawn(u64),
    /// Send the stop message to the context with this number and drop its
    /// inbox handle; it has left the pool.
    Stop(u64),
}

/// The state of the dispatcher as plain values.
pub struct PoolView {
    /// The contexts in pool order.
    pub contexts: Seq<u64>,
    /// Position of the context that the next request goes to.
    pub cursor: int,
    /// Requests dispatched in the current window.
    pub requests: int,
    /// When the current window began.
    pub window_start: int,
    /// The number that the next spawned context gets.
    pub next_id: int,
}

/// Whether `requests` in a window of `window` seconds, spread over `contexts`
/// contexts, are more than `threshold` requests per second per context. An
/// empty pool is overloaded by any request.
pub open spec fn load_exceeds(requests: int, window: int, contexts: int, threshold: Ratio) -> bool {
    requests * threshold.denominator > threshold.numerator * window * contexts
}

/// Whether `requests` in a window of `window` seconds, spread over `contexts`
/// contexts, are fewer than `threshold` requests per second per context.
pub open spec fn load_below(requests: int, window: int, contexts: int, threshold: Ratio) -> bool {
    requests * threshold.denominator < threshold.numerator * window * contexts
}

/// The position after `cursor` in a pool of `len` contexts, wrapping to 0 at
/// the end.
pub open spec fn advance(cursor: int, len: int) -> int {
    if cursor + 1 >= len {
        0
    } else {
        cursor + 1
    }
}

/// The cursor after the last context, or the one at the cursor, has left a
/// pool that is left with `len` contexts.
pub open spec fn settle(cursor: int, len: int) -> int {
    if cursor >= len {
        0
    } else {
        cursor
    }
}

impl PoolOptions {
    /// Whether the thresholds are fractions and the window has a length.
    pub open spec fn valid(&self) -> bool {
        &&& self.scale_up_ratio.denominator > 0
        &&& self.scale_down_ratio.denominator > 0
        &&& self.window_seconds > 0
    }

    /// Ten contexts; one more above 5 requests per second per context, one
    /// fewer below 0.2; windows of 60 seconds.
    pub fn standard() -> (options: Self)
        ensures
            options.valid(),
            options.initial_pool_size == 10,
            options.scale_up_ratio == (Ratio { numerator: 5, denominator: 1 }),
            options.scale_down_ratio == (Ratio { numerator: 1, denominator: 5 }),
            options.window_seconds == 60,
    {
        PoolOptions {
            initial_pool_size: 10,
            scale_up_ratio: Ratio { numerator: 5, denominator: 1 },
            scale_down_ratio: Ratio { numerator: 1, denominator: 5 },
            window_seconds: 60,
        }
    }

    /// Whether the options are valid.
    pub fn is_valid(&self) -> (b: bool)
        ensures
            b == self.valid(),
    {
        self.scale_up_ratio.denominator > 0 && self.scale_down_ratio.denominator > 0
            && self.window_seconds > 0
    }
}

impl PoolView {
    /// The invariant of the state: the cursor points into the pool, or is 0
    /// in an empty pool; no context is in the pool twice; every number in use
    /// is below the next one to be given out.
    pub open spec fn wf(self) -> bool {
        &&& 0 <= self.cursor
        &&& self.cursor < self.contexts.len() || self.cursor == 0
        &&& 0 <= self.requests <= u64::MAX
        &&& 0 <= self.window_start <= u64::MAX
        &&& 0 <= self.next_id <= u64::MAX
        &&& forall|i: int| 0 <= i < self.contexts.len() ==> #[trigger] self.contexts[i] < self.next_id
        &&& forall|i: int, j: int|
            0 <= i < j < self.contexts.len() ==> #[trigger] self.contexts[i] != #[trigger] self.contexts[j]
    }

    /// The context that the next request goes to; `None` in an empty pool.
    pub open spec fn target(self) -> Option<u64> {
        if self.contexts.len() > 0 {
            Some(self.contexts[self.cursor])
        } else {
            None
        }
    }

    /// The state after a request has been pushed to the target: the cursor
    /// has moved on and the request is counted.
    pub open spec fn after_delivery(self) -> PoolView {
        PoolView {
            cursor: advance(self.cursor, self.contexts.len() as int),
            requests: if self.requests < u64::MAX {
                self.requests + 1
            } else {
                self.requests
            },
            ..self
        }
    }

    /// The state after the push to the target has failed: the target has
    /// left the pool and the cursor points to the context that followed it.
    pub open spec fn after_failure(self) -> PoolView {
        if self.contexts.len() == 0 {
            self
        } else {
            PoolView {
                contexts: self.contexts.remove(self.cursor),
                cursor: settle(self.cursor, self.contexts.len() - 1),
                ..self
            }
        }
    }

    /// Whether the current window is over at time `now`.
    pub open spec fn window_over(self, options: PoolOptions, now: int) -> bool {
        now - self.window_start > options.window_seconds
    }

    /// What the load of the window that is over asks for: a new context where
    /// the load is above the upper threshold, as long as numbers are left;
    /// else the end of the last context where it is below the lower one.
    pub open spec fn decision(self, options: PoolOptions) -> ScalingAction {
        let window = options.window_seconds as int;
        let size = self.contexts.len() as int;
        if load_exceeds(self.requests, window, size, options.scale_up_ratio) {
            if self.next_id < u64::MAX {
                ScalingAction::Spawn(self.next_id as u64)
            } else {
                ScalingAction::Keep
            }
        } else if load_below(self.requests, window, size, options.scale_down_ratio) {
            ScalingAction::Stop(self.contexts.last())
        } else {
            ScalingAction::Keep
        }
    }

    /// What the controller asks for at time `now`.
    pub open spec fn action(self, options: PoolOptions, now: int) -> ScalingAction {
        if self.window_over(options, now) {
            self.decision(options)
        } else {
            ScalingAction::Keep
        }
    }

    /// The state after the controller has looked at the load at time `now`.
    /// Inside a window nothing changes. After it the pool has grown or shrunk
    /// as [`PoolView::decision`] says, the count is 0 and a new window has
    /// begun.
    pub open spec fn after_evaluation(self, options: PoolOptions, now: int) -> PoolView {
        if !self.window_over(options, now) {
            self
        } else {
            let fresh = PoolView { requests: 0, window_start: now, ..self };
            match self.decision(options) {
                ScalingAction::Keep => fresh,
                ScalingAction::Spawn(id) => PoolView {
                    contexts: self.contexts.push(id),
                    next_id: self.next_id + 1,
                    ..fresh
                },
                ScalingAction::Stop(id) => PoolView {
                    contexts: self.contexts.drop_last(),
                    cursor: settle(self.cursor, self.contexts.len() - 1),
                    ..fresh
                },
            }
        }
    }

    /// The state after `count` requests in a row have been pushed with
    /// success.
    pub open spec fn after_deliveries(self, count: nat) -> PoolView
        decreases count,
    {
        if count == 0 {
            self
        } else {
            self.after_deliveries((count - 1) as nat).after_delivery()
        }
    }

    /// Number of requests, among the first `count` pushed in a row with
    /// success, that went to the context at `position`.
    pub open spec fn received(self, count: nat, position: int) -> nat
        decreases count,
    {
        if count == 0 {
            0
        } else {
            let before = self.received((count - 1) as nat, position);
            if self.after_deliveries((count - 1) as nat).cursor == position {
                before + 1
            } else {
                before
            }
        }
    }
}

/// The remainder of `x + 1` is the position after the remainder of `x`.
proof fn lemma_mod_successor(x: int, n: int)
    requires
        x >= 0,
        n > 0,
    ensures
        (x + 1) % n == advance(x % n, n),
{
    lemma_fundamental_div_mod(x, n);
    lemma_mod_bound(x, n);
    let q = x / n;
    let r = x % n;
    assert(n * q == q * n) by (nonlinear_arith);
    if r + 1 < n {
        lemma_fundamental_div_mod_converse(x + 1, n, q, r + 1);
    } else {
        assert((q + 1) * n == q * n + n) by (nonlinear_arith);
        lemma_fundamental_div_mod_converse(x + 1, n, q + 1, 0);
    }
}

/// Deliveries move the cursor round the pool and change nothing else but
/// the count.
pub proof fn lemma_after_deliveries(s: PoolView, count: nat)
    requires
        s.wf(),
    ensures
        s.after_deliveries(count).wf(),
        s.after_deliveries(count).contexts == s.contexts,
        s.after_deliveries(count).next_id == s.next_id,
        s.after_deliveries(count).window_start == s.window_start,
        s.contexts.len() > 0 ==> s.after_deliveries(count).cursor == (s.cursor + count) % (
        s.contexts.len() as int),
    decreases count,
{
    let n = s.contexts.len() as int;
    if count == 0 {
        if n > 0 {
            lemma_fundamental_div_mod_converse(s.cursor, n, 0, s.cursor);
        }
    } else {
        lemma_after_deliveries(s, (count - 1) as nat);
        if n > 0 {
            lemma_mod_successor(s.cursor + count - 1, n);
        }
    }
}

/// Number of deliveries that go elsewhere before the first one goes to the
/// context at `position`.
pub open spec fn turn_of(s: PoolView, position: int) -> int {
    if position >= s.cursor {
        position - s.cursor
    } else {
        position - s.cursor + s.contexts.len()
    }
}

/// The context at `position` has its first turn after `turn_of` deliveries
/// and then one in every round.
pub proof fn lemma_received(s: PoolView, count: nat, position: int)
    requires
        s.wf(),
        0 <= position < s.contexts.len(),
    ensures
        s.received(count, position) == (count + s.contexts.len() - 1 - turn_of(s, position)) / (
        s.contexts.len() as int),
    decreases count,
{
    let n = s.contexts.len() as int;
    let o = turn_of(s, position);
    let c = s.cursor;
    if count == 0 {
        lemma_fundamental_div_mod_converse(n - 1 - o, n, 0, n - 1 - o);
    } else {
        let m = count - 1;
        lemma_received(s, m as nat, position);
        lemma_after_deliveries(s, m as nat);
        let x = m + n - 1 - o;
        lemma_fundamental_div_mod(x, n);
        lemma_mod_bound(x, n);
        let q = x / n;
        let r = x % n;
        assert(n * q == q * n) by (nonlinear_arith);
        assert((q + 1) * n == q * n + n) by (nonlinear_arith);
        assert((q - 1) * n == q * n - n) by (nonlinear_arith);
        if r == n - 1 {
            lemma_fundamental_div_mod_converse(x + 1, n, q + 1, 0);
        } else {
            lemma_fundamental_div_mod_converse(x + 1, n, q, r + 1);
        }
        let t = r + 1 + o + c - n;
        if position >= c {
            if t >= 0 {
                lemma_fundamental_div_mod_converse(c + m, n, q, t);
            } else {
                lemma_fundamental_div_mod_converse(c + m, n, q - 1, t + n);
            }
        } else {
            if t >= n {
                lemma_fundamental_div_mod_converse(c + m, n, q + 1, t - n);
            } else {
                lemma_fundamental_div_mod_converse(c + m, n, q, t);
            }
        }
    }
}

/// Requests pushed in a row with success go round the pool in order: the
/// request after the first `count` goes to the context `count` places after
/// the cursor, counted cyclically.
pub proof fn law_round_robin_order(s: PoolView, count: nat)
    requires
        s.wf(),
        s.contexts.len() > 0,
    ensures
        s.after_deliveries(count).target() == Some(
            s.contexts[(s.cursor + count) % (s.contexts.len() as int)],
        ),
{
    lemma_after_deliveries(s, count);
}

/// Of `count` requests pushed in a row with success, each context of a pool
/// of `n` receives `count / n` rounded down or rounded up.
pub proof fn law_round_robin_fairness(s: PoolView, count: nat, position: int)
    requires
        s.wf(),
        0 <= position < s.contexts.len(),
    ensures
        count / s.contexts.len() <= s.received(count, position) <= (count + s.contexts.len() - 1) / (
        s.contexts.len() as int),
{
    let n = s.contexts.len() as int;
    lemma_received(s, count, position);
    lemma_div_is_ordered(count as int, count + n - 1 - turn_of(s, position), n);
    lemma_div_is_ordered(count + n - 1 - turn_of(s, position), count + n - 1, n);
}

/// The pool, the cursor and the counters of the dispatcher.
pub struct Dispatcher {
    options: PoolOptions,
    workers: Vec<u64>,
    worker_id: usize,
    request_counter: u64,
    start_time: u64,
    next_id: u64,
}

impl View for Dispatcher {
    type V = PoolView;

    closed spec fn view(&self) -> PoolView {
        PoolView {
            contexts: self.workers@,
            cursor: self.worker_id as int,
            requests: self.request_counter as int,
            window_start: self.start_time as int,
            next_id: self.next_id as int,
        }
    }
}

/// Whether `requests * denominator > numerator * window * contexts`.
fn exceeds(requests: u64, window: u64, contexts: usize, threshold: Ratio) -> (b: bool)
    ensures
        b == load_exceeds(requests as int, window as int, contexts as int, threshold),
{
    assert(requests * threshold.denominator <= 0xffff_ffff_ffff_ffff * 0xffff_ffff_ffff_ffff)
        by (nonlinear_arith)
        requires
            0 <= requests <= 0xffff_ffff_ffff_ffff,
            0 <= threshold.denominator <= 0xffff_ffff_ffff_ffff,
    ;
    assert(threshold.numerator * window <= 0xffff_ffff_ffff_ffff * 0xffff_ffff_ffff_ffff)
        by (nonlinear_arith)
        requires
            0 <= threshold.numerator <= 0xffff_ffff_ffff_ffff,
            0 <= window <= 0xffff_ffff_ffff_ffff,
    ;
    let left: u128 = (requests as u128) * (threshold.denominator as u128);
    let base: u128 = (threshold.numerator as u128) * (window as u128);
    match base.checked_mul(contexts as u128) {
        Some(right) => left > right,
        None => false,
    }
}

/// Whether `requests * denominator < numerator * window * contexts`.
fn falls_below(requests: u64, window: u64, contexts: usize, threshold: Ratio) -> (b: bool)
    ensures
        b == load_below(requests as int, window as int, contexts as int, threshold),
{
    assert(requests * threshold.denominator <= 0xffff_ffff_ffff_ffff * 0xffff_ffff_ffff_ffff)
        by (nonlinear_arith)
        requires
            0 <= requests <= 0xffff_ffff_ffff_ffff,
            0 <= threshold.denominator <= 0xffff_ffff_ffff_ffff,
    ;
    assert(threshold.numerator * window <= 0xffff_ffff_ffff_ffff * 0xffff_ffff_ffff_ffff)
        by (nonlinear_arith)
        requires
            0 <= threshold.numerator <= 0xffff_ffff_ffff_ffff,
            0 <= window <= 0xffff_ffff_ffff_ffff,
    ;
    let left: u128 = (requests as u128) * (threshold.denominator as u128);
    let base: u128 = (threshold.numerator as u128) * (window as u128);
    match base.checked_mul(contexts as u128) {
        Some(right) => left < right,
        None => true,
    }
}

impl Dispatcher {
    /// The options that the pool was made with.
    pub closed spec fn options(&self) -> PoolOptions {
        self.options
    }

    /// The representation invariant.
    pub closed spec fn wf(&self) -> bool {
        &&& self@.wf()
        &&& self.options.valid()
    }

    /// A pool of `options.initial_pool_size` contexts, numbered from 0, with
    /// the cursor at the first and a window that begins at `now`. `None` for
    /// options that are not valid.
    pub fn new(options: PoolOptions, now: u64) -> (r: Option<Self>)
        ensures
            r is Some <==> options.valid(),
            r matches Some(d) ==> {
                &&& d.wf()
                &&& d.options() == options
                &&& d@.contexts == Seq::new(options.initial_pool_size as nat, |i: int| i as u64)
                &&& d@.cursor == 0
                &&& d@.requests == 0
                &&& d@.window_start == now
                &&& d@.next_id == options.initial_pool_size
            },
    {
        if !options.is_valid() {
            return None;
        }
        let mut workers: Vec<u64> = Vec::new();
        let mut i: usize = 0;
        while i < options.initial_pool_size
            invariant
                i <= options.initial_pool_size,
                workers@ == Seq::new(i as nat, |k: int| k as u64),
            decreases options.initial_pool_size - i,
        {
            workers.push(i as u64);
            assert(workers@ =~= Seq::new((i + 1) as nat, |k: int| k as u64));
            i = i + 1;
        }
        Some(
            Dispatcher {
                options,
                workers,
                worker_id: 0,
                request_counter: 0,
                start_time: now,
                next_id: options.initial_pool_size as u64,
            },
        )
    }

    /// The contexts of the pool, in order.
    pub fn contexts(&self) -> (ids: &Vec<u64>)
        ensures
            ids@ == self@.contexts,
    {
        &self.workers
    }

    /// Position of the context that the next request goes to.
    pub fn cursor(&self) -> (position: usize)
        ensures
            position == self@.cursor,
    {
        self.worker_id
    }

    /// Requests dispatched in the current window.
    pub fn request_count(&self) -> (count: u64)
        ensures
            count == self@.requests,
    {
        self.request_counter
    }

    /// The context that the next request goes to; `None` in an empty pool.
    pub fn target(&self) -> (r: Option<u64>)
        requires
            self.wf(),
        ensures
            r == self@.target(),
    {
        if self.workers.len() > 0 {
            Some(self.workers[self.worker_id])
        } else {
            None
        }
    }

    /// Records that the request was pushed to the target: moves the cursor on
    /// and counts the request.
    pub fn delivered(&mut self)
        requires
            old(self).wf(),
        ensures
            final(self).wf(),
            final(self).options() == old(self).options(),
            final(self)@ == old(self)@.after_delivery(),
    {
        let len = self.workers.len();
        self.worker_id = if len == 0 || self.worker_id >= len - 1 {
            0
        } else {
            self.worker_id + 1
        };
        if self.request_counter < u64::MAX {
            self.request_counter = self.request_counter + 1;
        }
        assert(self@.contexts == old(self)@.contexts);
    }

    /// Records that the push to the target failed: removes the target from
    /// the pool and returns its number. The next target is the context that
    /// followed it.
    pub fn push_failed(&mut self) -> (removed: Option<u64>)
        requires
            old(self).wf(),
        ensures
            final(self).wf(),
            final(self).options() == old(self).options(),
            final(self)@ == old(self)@.after_failure(),
            removed == old(self)@.target(),
    {
        if self.workers.len() == 0 {
            return None;
        }
        let id = self.workers.remove(self.worker_id);
        if self.worker_id >= self.workers.len() {
            self.worker_id = 0;
        }
        Some(id)
    }

    /// Looks at the load once the window is over: adds a context to the end
    /// of the pool or removes the last one, as the thresholds say, and begins
    /// a new window with a count of 0.
    pub fn evaluate_scaling(&mut self, now: u64) -> (action: ScalingAction)
        requires
            old(self).wf(),
        ensures
            final(self).wf(),
            final(self).options() == old(self).options(),
            action == old(self)@.action(old(self).options(), now as int),
            final(self)@ == old(self)@.after_evaluation(old(self).options(), now as int),
    {
        if now <= self.start_time || now - self.start_time <= self.options.window_seconds {
            return ScalingAction::Keep;
        }
        let n_workers = self.workers.len();
        let requests = self.request_counter;
        let window = self.options.window_seconds;
        let mut action = ScalingAction::Keep;
        if exceeds(requests, window, n_workers, self.options.scale_up_ratio) {
            if self.next_id < u64::MAX {
                let id = self.next_id;
                self.workers.push(id);
                self.next_id = id + 1;
                action = ScalingAction::Spawn(id);
            }
        } else if falls_below(requests, window, n_workers, self.options.scale_down_ratio) {
            assert(n_workers > 0) by (nonlinear_arith)
                requires
                    load_below(
                        requests as int,
                        window as int,
                        n_workers as int,
                        self.options.scale_down_ratio,
                    ),
                    requests >= 0,
                    self.options.scale_down_ratio.denominator >= 0,
            ;
            let id = self.workers[n_workers - 1];
            self.workers.truncate(n_workers - 1);
            if self.worker_id >= self.workers.len() {
                self.worker_id = 0;
            }
            action = ScalingAction::Stop(id);
        }
        self.start_time = now;
        self.request_counter = 0;
        action
    }
}

} // verus!
