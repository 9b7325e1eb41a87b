//! The machine timer: the tick counter that its interrupt advances, the heartbeat
//! that every hundredth tick raises, and the compare value that arms the next
//! interrupt.
use vstd::prelude::*;

verus! {

/// Base address of the core-local interruptor.
pub const CLINT_BASE: usize = 0x0200_0000;

/// Address of the machine timer compare register.
pub const MTIMECMP_ADDR: usize = CLINT_BASE + 0x4000;

/// Address of the machine time register.
pub const MTIME_ADDR: usize = CLINT_BASE + 0x0bff8;

/// Machine time units between two timer interrupts.
pub const TIMER_INTERVAL: u64 = 100_000;

/// Ticks between two heartbeats.
pub const HEARTBEAT_INTERVAL: u64 = 100;

/// `a + b`, wrapping around at 2^64.
pub open spec fn wrapped_add(a: u64, b: u64) -> u64 {
    if a + b > u64::MAX {
        (a + b - u64::MAX - 1) as u64
    } else {
        (a + b) as u64
    }
}

/// Wrapping addition is addition modulo 2^64.
pub proof fn lemma_wrapped_add(a: u64, b: u64)
    ensures
        wrapped_add(a, b) == (a + b) % 0x1_0000_0000_0000_0000,
{
    if a + b > u64::MAX {
        vstd::arithmetic::div_mod::lemma_mod_add_multiples_vanish(
            (a + b - 0x1_0000_0000_0000_0000) as int,
            0x1_0000_0000_0000_0000,
        );
        vstd::arithmetic::div_mod::lemma_small_mod(
            (a + b - 0x1_0000_0000_0000_0000) as nat,
            0x1_0000_0000_0000_0000,
        );
    } else {
        vstd::arithmetic::div_mod::lemma_small_mod((a + b) as nat, 0x1_0000_0000_0000_0000);
    }
}

/// The compare value that raises the next timer interrupt one interval after `now`.
pub fn next_deadline(now: u64) -> (deadline: u64)
    ensures
        deadline == wrapped_add(now, TIMER_INTERVAL),
{
    now.wrapping_add(TIMER_INTERVAL)
}

/// The tick counter and the heartbeat flag.
pub struct TimerState {
    tick_count: u64,
    heartbeat_pending: bool,
}

impl TimerState {
    pub closed spec fn tick_count(self) -> u64 {
        self.tick_count
    }

    pub closed spec fn pending(self) -> bool {
        self.heartbeat_pending
    }

    /// No tick counted, no heartbeat pending.
    pub fn new() -> (state: Self)
        ensures
            state.tick_count() == 0,
            !state.pending(),
    {
        TimerState { tick_count: 0, heartbeat_pending: false }
    }
}

/// Resets the tick counter and clears the heartbeat.
pub fn init_timer(state: &mut TimerState)
    ensures
        final(state).tick_count() == 0,
        !final(state).pending(),
{
    state.tick_count = 0;
    state.heartbeat_pending = false;
}

/// Counts one timer interrupt: the counter advances by one, wrapping around, and a
/// heartbeat becomes pending when the new count is a multiple of the heartbeat
/// interval.
pub fn handle_timer_interrupt(state: &mut TimerState)
    ensures
        final(state).tick_count() == wrapped_add(old(state).tick_count(), 1),
        final(state).pending() == (old(state).pending() || final(state).tick_count()
            % HEARTBEAT_INTERVAL == 0),
{
    let tick_count = state.tick_count.wrapping_add(1);
    state.tick_count = tick_count;
    if tick_count % HEARTBEAT_INTERVAL == 0 {
        state.heartbeat_pending = true;
    }
}

/// The number of ticks counted.
pub fn ticks(state: &TimerState) -> (count: u64)
    ensures
        count == state.tick_count(),
{
    state.tick_count
}

/// Whole heartbeat intervals since the counter was reset.
pub fn uptime(state: &TimerState) -> (beats: u64)
    ensures
        beats == state.tick_count() / HEARTBEAT_INTERVAL,
{
    ticks(state) / HEARTBEAT_INTERVAL
}

/// Whether a heartbeat is pending.
pub fn heartbeat_pending(state: &TimerState) -> (pending: bool)
    ensures
        pending == state.pending(),
{
    state.heartbeat_pending
}

/// Takes the pending heartbeat: returns whether one was pending and clears it.
pub fn consume_heartbeat(state: &mut TimerState) -> (was_pending: bool)
    ensures
        was_pending == old(state).pending(),
        !final(state).pending(),
        final(state).tick_count() == old(state).tick_count(),
{
    let was_pending = state.heartbeat_pending;
    state.heartbeat_pending = false;
    was_pending
}

/// A wait for the tick counter to reach `target`.
pub struct TickWait {
    pub target: u64,
}

/// Starts a wait of `count` ticks from the tick count `now`: the target wraps around
/// like the counter.
pub fn wait_for_ticks(now: u64, count: u64) -> (wait: TickWait)
    ensures
        wait.target == wrapped_add(now, count),
{
    TickWait { target: now.wrapping_add(count) }
}

impl TickWait {
    /// Whether the wait is over at tick count `now`.
    pub fn is_done(&self, now: u64) -> (done: bool)
        ensures
            done == (now >= self.target),
    {
        now >= self.target
    }
}

/// Once a heartbeat is pending it stays pending through further ticks until it is
/// taken, and the heartbeat becomes pending on every tick whose count is a multiple
/// of the heartbeat interval.
pub proof fn lemma_heartbeat_sticks(before: TimerState, after: TimerState)
    requires
        after.tick_count() == wrapped_add(before.tick_count(), 1),
        after.pending() == (before.pending() || after.tick_count() % HEARTBEAT_INTERVAL == 0),
    ensures
        before.pending() ==> after.pending(),
        after.tick_count() % HEARTBEAT_INTERVAL == 0 ==> after.pending(),
        !before.pending() && after.tick_count() % HEARTBEAT_INTERVAL != 0 ==> !after.pending(),
{
}

} // verus!
