//! The dedicated server's own decisions: its settings, the per-connection
//! packet rate limit, its health counters and score, and the console's key
//! handling and status texts. The terminal, the network and the clock's
//! readings stay with the caller.
use vstd::prelude::*;
use std::time::{Duration, Instant};
use crate::text::{decimal, push_decimal};

verus! {

/// The settings of a server.
#[derive(Debug, Clone)]
pub struct ServerConfig {
    /// Seconds without a packet after which a connection is dropped.
    pub connection_timeout_secs: u64,
    /// The most packets a connection may send in one second.
    pub max_packets_per_second: usize,
}

impl Default for ServerConfig {
    fn default() -> (r: Self)
        ensures
            r.connection_timeout_secs == 60,
            r.max_packets_per_second == 60,
    {
        Self { connection_timeout_secs: 60, max_packets_per_second: 60 }
    }
}

#[verifier::external_type_specification]
#[verifier::external_body]
pub struct ExInstant(Instant);

/// Calls `Instant::now`: a reading of the monotonic clock. Nothing is stated
/// of it: it depends on when the call is made.
#[verifier::external_body]
fn instant_now() -> Instant {
    Instant::now()
}

/// Calls `Instant::duration_since`: the time from `earlier` to `later`, which
/// std gives as zero when `earlier` is the later one. Nothing is stated of it:
/// the readings are opaque here.
#[verifier::external_body]
fn time_between(later: &Instant, earlier: &Instant) -> Duration {
    later.duration_since(*earlier)
}

/// Calls `Duration::as_nanos`: the whole nanoseconds of `d`. Nothing is
/// stated of it: a duration is opaque here.
#[verifier::external_body]
fn whole_nanos(d: &Duration) -> u128 {
    d.as_nanos()
}

/// The nanoseconds in the window of a rate limiter: one second.
pub open spec fn window_nanos() -> u128 {
    1_000_000_000
}

/// The packet count and the answer of a rate limiter that allows `max`
/// packets a window, after one more packet: `reset` when a new window began.
pub open spec fn rate_step(count: usize, max: usize, reset: bool) -> (usize, bool) {
    let c = if reset {
        0
    } else {
        count
    };
    if c >= max {
        (c, false)
    } else {
        ((c + 1) as usize, true)
    }
}

/// Counts the packets of a connection in windows of one second and refuses
/// those over the limit of the current window.
pub struct RateLimiter {
    window_nanos: u128,
    max_packets: usize,
    window_start: Instant,
    packet_count: usize,
}

impl RateLimiter {
    /// The packets counted in the current window.
    pub closed spec fn count(&self) -> usize {
        self.packet_count
    }

    /// The most packets allowed in a window.
    pub closed spec fn limit(&self) -> usize {
        self.max_packets
    }

    /// The length of a window in nanoseconds.
    pub closed spec fn window(&self) -> u128 {
        self.window_nanos
    }

    /// When the current window started.
    pub closed spec fn window_start(&self) -> Instant {
        self.window_start
    }

    /// A limiter of `max_packets_per_second`, its first window starting now.
    pub fn new(max_packets_per_second: usize) -> (r: Self)
        ensures
            r.count() == 0,
            r.limit() == max_packets_per_second,
            r.window() == window_nanos(),
    {
        Self {
            window_nanos: 1_000_000_000,
            max_packets: max_packets_per_second,
            window_start: instant_now(),
            packet_count: 0,
        }
    }

    /// Counts one packet at time `now`, `elapsed_nanos` after the start of the
    /// current window: a new window starts at `now` once the last one is over;
    /// returns whether the packet is within the limit.
    pub fn check_and_update_at(&mut self, now: Instant, elapsed_nanos: u128) -> (r: bool)
        ensures
            (final(self).count(), r) == rate_step(
                old(self).count(),
                old(self).limit(),
                elapsed_nanos >= old(self).window(),
            ),
            final(self).limit() == old(self).limit(),
            final(self).window() == old(self).window(),
            elapsed_nanos >= old(self).window() ==> final(self).window_start() == now,
            elapsed_nanos < old(self).window() ==> final(self).window_start() == old(self).window_start(),
    {
        if elapsed_nanos >= self.window_nanos {
            self.window_start = now;
            self.packet_count = 0;
        }
        if self.packet_count >= self.max_packets {
            return false;
        }
        self.packet_count = self.packet_count + 1;
        true
    }

    /// Counts one packet now; returns whether it is within the limit. Whether
    /// a new window began, at the reading of the clock this call takes, depends
    /// on the clock; without one the window keeps its start.
    pub fn check_and_update(&mut self) -> (r: bool)
        ensures
            ((final(self).count(), r) == rate_step(old(self).count(), old(self).limit(), false)
                && final(self).window_start() == old(self).window_start()) || (final(self).count(), r)
                == rate_step(old(self).count(), old(self).limit(), true),
            final(self).limit() == old(self).limit(),
            final(self).window() == old(self).window(),
    {
        let now = instant_now();
        let elapsed = time_between(&now, &self.window_start);
        let nanos = whole_nanos(&elapsed);
        self.check_and_update_at(now, nanos)
    }
}

/// The packets counted after `k` packets in one window of a limiter that
/// allows `max` a window.
pub open spec fn count_after(max: usize, k: nat) -> usize
    decreases k,
{
    if k == 0 {
        0
    } else {
        rate_step(count_after(max, (k - 1) as nat), max, false).0
    }
}

/// The answer to packet `k` (from 0) of one window of a limiter that allows
/// `max` a window.
pub open spec fn answer_to(max: usize, k: nat) -> bool {
    rate_step(count_after(max, k), max, false).1
}

/// In one window, starting from no packet, the first `max` packets are
/// accepted and every later one is refused; the count stops at `max`.
pub proof fn lemma_first_packets_accepted(max: usize, k: nat)
    ensures
        count_after(max, k) == if k < max {
            k
        } else {
            max as nat
        },
        answer_to(max, k) == (k < max),
    decreases k,
{
    if k > 0 {
        lemma_first_packets_accepted(max, (k - 1) as nat);
    }
}

/// A limiter never counts past its limit once within it: a packet over the
/// limit is refused and leaves the count as it is.
pub proof fn lemma_rate_step_bounded(count: usize, max: usize, reset: bool)
    requires
        count <= max,
    ensures
        rate_step(count, max, reset).0 <= max,
        rate_step(count, max, reset).1 <==> rate_step(count, max, reset).0 == (if reset {
            0
        } else {
            count
        }) + 1,
{
}

/// Counters of the server's activity since it started.
pub struct ServerMetrics {
    /// Total time spent in guard cycles, in nanoseconds.
    pub guard_cycle_cumul_ns: u64,
    /// Number of guard cycles run.
    pub guard_cycle_count: u64,
    /// Packets received over all connections.
    pub packets_received: u64,
    /// Packets refused by the rate limiters.
    pub packets_rejected: u64,
    /// Connections accepted.
    pub total_connections: u64,
}

/// `a + b` wrapped around the 64-bit range, as the counters count.
pub open spec fn wrapped_add(a: u64, b: u64) -> u64 {
    ((a + b) % 0x1_0000_0000_0000_0000) as u64
}

impl ServerMetrics {
    pub fn new() -> (r: Self)
        ensures
            r.guard_cycle_cumul_ns == 0,
            r.guard_cycle_count == 0,
            r.packets_received == 0,
            r.packets_rejected == 0,
            r.total_connections == 0,
    {
        Self {
            guard_cycle_cumul_ns: 0,
            guard_cycle_count: 0,
            packets_received: 0,
            packets_rejected: 0,
            total_connections: 0,
        }
    }

    /// Counts one guard cycle that took `duration_ns` nanoseconds.
    pub fn record_guard_cycle(&mut self, duration_ns: u64)
        ensures
            final(self).guard_cycle_cumul_ns == wrapped_add(old(self).guard_cycle_cumul_ns, duration_ns),
            final(self).guard_cycle_count == wrapped_add(old(self).guard_cycle_count, 1),
            final(self).packets_received == old(self).packets_received,
            final(self).packets_rejected == old(self).packets_rejected,
            final(self).total_connections == old(self).total_connections,
    {
        self.guard_cycle_cumul_ns = self.guard_cycle_cumul_ns.wrapping_add(duration_ns);
        self.guard_cycle_count = self.guard_cycle_count.wrapping_add(1);
    }

    pub fn record_packet_received(&mut self)
        ensures
            final(self).packets_received == wrapped_add(old(self).packets_received, 1),
            final(self).guard_cycle_cumul_ns == old(self).guard_cycle_cumul_ns,
            final(self).guard_cycle_count == old(self).guard_cycle_count,
            final(self).packets_rejected == old(self).packets_rejected,
            final(self).total_connections == old(self).total_connections,
    {
        self.packets_received = self.packets_received.wrapping_add(1);
    }

    pub fn record_packet_rejected(&mut self)
        ensures
            final(self).packets_rejected == wrapped_add(old(self).packets_rejected, 1),
            final(self).guard_cycle_cumul_ns == old(self).guard_cycle_cumul_ns,
            final(self).guard_cycle_count == old(self).guard_cycle_count,
            final(self).packets_received == old(self).packets_received,
            final(self).total_connections == old(self).total_connections,
    {
        self.packets_rejected = self.packets_rejected.wrapping_add(1);
    }

    pub fn record_connection(&mut self)
        ensures
            final(self).total_connections == wrapped_add(old(self).total_connections, 1),
            final(self).guard_cycle_cumul_ns == old(self).guard_cycle_cumul_ns,
            final(self).guard_cycle_count == old(self).guard_cycle_count,
            final(self).packets_received == old(self).packets_received,
            final(self).packets_rejected == old(self).packets_rejected,
    {
        self.total_connections = self.total_connections.wrapping_add(1);
    }
}

/// The colour the console shows a health score in.
#[derive(Debug, Clone, Copy, PartialEq, Eq, Structural)]
pub enum HealthColor {
    Green,
    Yellow,
    Red,
}

/// Green from 15, yellow from 10, red below.
pub fn health_color(score: u8) -> (r: HealthColor)
    ensures
        r == if score >= 15 {
            HealthColor::Green
        } else if score >= 10 {
            HealthColor::Yellow
        } else {
            HealthColor::Red
        },
{
    if score >= 15 {
        HealthColor::Green
    } else if score >= 10 {
        HealthColor::Yellow
    } else {
        HealthColor::Red
    }
}

/// `n` times the character `c`.
pub open spec fn repeated(c: char, n: nat) -> Seq<char> {
    Seq::new(n, |i: int| c)
}

/// The health bar of score `score` out of 20: one full block per two points,
/// light shade up to ten blocks, then the score.
pub open spec fn health_bar_text(score: u8) -> Seq<char> {
    let filled = (score / 2) as nat;
    let empty = if filled <= 10 {
        (10 - filled) as nat
    } else {
        0
    };
    repeated('█', filled) + repeated('░', empty) + seq![' '] + decimal(score as nat) + seq!['/', '2', '0']
}

/// Appends `n` times the text `piece`, which is the single character `c`.
fn push_repeated(s: &mut String, piece: &str, n: usize)
    requires
        piece@ == seq![piece@[0]],
    ensures
        final(s)@ == old(s)@ + repeated(piece@[0], n as nat),
{
    let mut i: usize = 0;
    while i < n
        invariant
            i <= n,
            piece@ == seq![piece@[0]],
            s@ == old(s)@ + repeated(piece@[0], i as nat),
        decreases n - i,
    {
        s.append(piece);
        proof {
            assert(s@ =~= old(s)@ + repeated(piece@[0], (i + 1) as nat));
        }
        i = i + 1;
    }
}

/// The health bar shown for `score`.
pub fn health_bar(score: u8) -> (r: String)
    ensures
        r@ == health_bar_text(score),
{
    let filled: usize = (score / 2) as usize;
    let empty: usize = 10usize.saturating_sub(filled);
    let mut s = String::new();
    let full = "█";
    let light = "░";
    proof {
        reveal_strlit("█");
        reveal_strlit("░");
        assert(full@ =~= seq!['█']);
        assert(light@ =~= seq!['░']);
    }
    push_repeated(&mut s, full, filled);
    push_repeated(&mut s, light, empty);
    s.append(" ");
    push_decimal(&mut s, score as u64);
    s.append("/20");
    proof {
        reveal_strlit(" ");
        reveal_strlit("/20");
        assert(s@ =~= health_bar_text(score));
    }
    s
}

/// The score lost for refused packets: half a point each, five at most.
pub open spec fn rejected_penalty(rejected: u64) -> int {
    let half = rejected / 2;
    if half <= 5 {
        half as int
    } else {
        5
    }
}

/// The score lost for a large world: three points per hundred thousand
/// chunks beyond the first hundred thousand, three at most.
pub open spec fn world_penalty(chunk_count: usize) -> int {
    if chunk_count > 100_000 {
        let p = (3 * (chunk_count - 100_000)) / 100_000;
        if p <= 3 {
            p
        } else {
            3
        }
    } else {
        0
    }
}

/// Takes `p` points from `h`, stopping at zero.
pub open spec fn minus(h: int, p: int) -> int {
    if p <= h {
        h - p
    } else {
        0
    }
}

/// The health score out of 20: it loses `guard_penalty` for slow guard
/// cycles, then the refused-packet and world-size penalties.
pub open spec fn health_score_of(guard_penalty: u8, rejected: u64, chunk_count: usize) -> int {
    minus(minus(minus(20, guard_penalty as int), rejected_penalty(rejected)), world_penalty(chunk_count))
}

/// The health score out of 20. The penalty for slow guard cycles, worked out
/// from their average length, is given by the caller.
pub fn health_score(guard_penalty: u8, rejected: u64, chunk_count: usize) -> (r: u8)
    ensures
        r == health_score_of(guard_penalty, rejected, chunk_count),
        r <= 20,
{
    let mut health: u8 = 20u8.saturating_sub(guard_penalty);
    let half = rejected / 2;
    let rej: u8 = if half <= 5 {
        half as u8
    } else {
        5
    };
    health = health.saturating_sub(rej);
    if chunk_count > 100_000 {
        let extra: u128 = (chunk_count - 100_000) as u128;
        let p: u128 = (3 * extra) / 100_000;
        let world: u8 = if p <= 3 {
            p as u8
        } else {
            3
        };
        health = health.saturating_sub(world);
    }
    if health > 20 {
        health = 20;
    }
    health
}

/// The counters of the server as last read.
#[derive(Debug, Clone, Copy, PartialEq, Eq, Structural)]
pub struct MetricsSnapshot {
    pub packets_received: u64,
    pub packets_rejected: u64,
    pub guard_cycle_count: u64,
    pub guard_cycle_cumul_ns: u64,
    pub total_connections: u64,
}

/// What changed between two readings of the counters.
#[derive(Debug, Clone, Copy, PartialEq, Eq, Structural)]
pub struct MetricsDelta {
    /// Packets received since the last reading.
    pub packets_received: u64,
    /// Packets refused since the last reading.
    pub packets_rejected: u64,
    /// The average length of the guard cycles run since the last reading, in
    /// nanoseconds, when any ran.
    pub guard_cycle_avg_ns: Option<u64>,
}

/// `a - b`, stopping at zero.
pub open spec fn sat_sub(a: u64, b: u64) -> u64 {
    if b <= a {
        (a - b) as u64
    } else {
        0
    }
}

/// The previous reading of the counters, against which the next is compared.
#[derive(Debug, Clone, Copy, PartialEq, Eq, Structural)]
pub struct MetricsTracker {
    pub prev_packets_received: u64,
    pub prev_packets_rejected: u64,
    pub prev_guard_count: u64,
    pub prev_guard_cumul_ns: u64,
}

impl MetricsTracker {
    pub fn new() -> (r: Self)
        ensures
            r.prev_packets_received == 0,
            r.prev_packets_rejected == 0,
            r.prev_guard_count == 0,
            r.prev_guard_cumul_ns == 0,
    {
        Self { prev_packets_received: 0, prev_packets_rejected: 0, prev_guard_count: 0, prev_guard_cumul_ns: 0 }
    }

    /// Compares reading `snap` with the previous one, which it then replaces.
    pub fn advance(&mut self, snap: MetricsSnapshot) -> (r: MetricsDelta)
        requires
            snap.guard_cycle_count > old(self).prev_guard_count ==> snap.guard_cycle_cumul_ns
                >= old(self).prev_guard_cumul_ns,
        ensures
            r.packets_received == sat_sub(snap.packets_received, old(self).prev_packets_received),
            r.packets_rejected == sat_sub(snap.packets_rejected, old(self).prev_packets_rejected),
            r.guard_cycle_avg_ns == if snap.guard_cycle_count > old(self).prev_guard_count {
                Some(
                    ((snap.guard_cycle_cumul_ns - old(self).prev_guard_cumul_ns) / (snap.guard_cycle_count
                        - old(self).prev_guard_count)) as u64,
                )
            } else {
                None::<u64>
            },
            final(self).prev_packets_received == snap.packets_received,
            final(self).prev_packets_rejected == snap.packets_rejected,
            final(self).prev_guard_count == snap.guard_cycle_count,
            final(self).prev_guard_cumul_ns == snap.guard_cycle_cumul_ns,
    {
        let received = snap.packets_received.saturating_sub(self.prev_packets_received);
        let rejected = snap.packets_rejected.saturating_sub(self.prev_packets_rejected);
        let avg = if snap.guard_cycle_count > self.prev_guard_count {
            Some(
                (snap.guard_cycle_cumul_ns - self.prev_guard_cumul_ns) / (snap.guard_cycle_count
                    - self.prev_guard_count),
            )
        } else {
            None
        };
        self.prev_packets_received = snap.packets_received;
        self.prev_packets_rejected = snap.packets_rejected;
        self.prev_guard_count = snap.guard_cycle_count;
        self.prev_guard_cumul_ns = snap.guard_cycle_cumul_ns;
        MetricsDelta { packets_received: received, packets_rejected: rejected, guard_cycle_avg_ns: avg }
    }
}

/// A request the console makes of the server.
#[derive(Debug, Clone, PartialEq, Eq)]
pub enum TuiCommand {
    Shutdown,
    Save,
    Kick(u64),
    Log(String),
}

/// The key of a key press, as far as the console tells keys apart.
#[derive(Debug, Clone, Copy, PartialEq, Eq, Structural)]
pub enum TuiKeyCode {
    Char(char),
    Up,
    Down,
    Other,
}

/// A key press: the key and whether Control was held.
#[derive(Debug, Clone, Copy, PartialEq, Eq, Structural)]
pub struct TuiKey {
    pub code: TuiKeyCode,
    pub control: bool,
}

/// The state of the console view: the log scroll and the player selected.
pub struct TuiApp {
    pub scroll: u16,
    pub selected_player_idx: usize,
}

/// The request a key press makes, given the selected player and the ids of
/// the players listed.
pub open spec fn key_command(key: TuiKey, selected: usize, player_ids: Seq<u64>) -> Option<TuiCommand> {
    match key.code {
        TuiKeyCode::Char(c) => if c == 'q' || c == 'Q' {
            Some(TuiCommand::Shutdown)
        } else if c == 's' && key.control {
            Some(TuiCommand::Save)
        } else if c == 'k' || c == 'K' {
            if selected < player_ids.len() {
                Some(TuiCommand::Kick(player_ids[selected as int]))
            } else {
                None
            }
        } else {
            None
        },
        _ => None,
    }
}

/// The player selected after a key press.
pub open spec fn key_selection(key: TuiKey, selected: usize) -> usize {
    match key.code {
        TuiKeyCode::Up => if selected > 0 {
            (selected - 1) as usize
        } else {
            0
        },
        TuiKeyCode::Down => if selected < usize::MAX {
            (selected + 1) as usize
        } else {
            usize::MAX
        },
        _ => selected,
    }
}

impl TuiApp {
    pub fn new() -> (r: Self)
        ensures
            r.scroll == 0,
            r.selected_player_idx == 0,
    {
        Self { scroll: 0, selected_player_idx: 0 }
    }

    /// Handles a key press: Q quits, Control-S saves, K kicks the selected
    /// player, the arrows move the selection.
    pub fn handle_input(key: TuiKey, app: &mut Self, player_ids: &[u64]) -> (r: Option<TuiCommand>)
        ensures
            r == key_command(key, old(app).selected_player_idx, player_ids@),
            final(app).selected_player_idx == key_selection(key, old(app).selected_player_idx),
            final(app).scroll == old(app).scroll,
    {
        match key.code {
            TuiKeyCode::Char(c) => {
                if c == 'q' || c == 'Q' {
                    Some(TuiCommand::Shutdown)
                } else if c == 's' && key.control {
                    Some(TuiCommand::Save)
                } else if c == 'k' || c == 'K' {
                    let idx = app.selected_player_idx;
                    if idx < player_ids.len() {
                        Some(TuiCommand::Kick(player_ids[idx]))
                    } else {
                        None
                    }
                } else {
                    None
                }
            },
            TuiKeyCode::Up => {
                app.selected_player_idx = app.selected_player_idx.saturating_sub(1);
                None
            },
            TuiKeyCode::Down => {
                app.selected_player_idx = app.selected_player_idx.saturating_add(1);
                None
            },
            TuiKeyCode::Other => None,
        }
    }
}

/// `n` in decimal, with a leading zero below ten.
pub open spec fn two_digits(n: nat) -> Seq<char> {
    if n < 10 {
        seq!['0'] + decimal(n)
    } else {
        decimal(n)
    }
}

/// A time of `secs` seconds as hours, minutes and seconds.
pub open spec fn uptime_text(secs: u64) -> Seq<char> {
    two_digits((secs / 3600) as nat) + seq![':'] + two_digits((secs / 60 % 60) as nat) + seq![':']
        + two_digits((secs % 60) as nat)
}

/// Appends `n` in decimal, with a leading zero below ten.
fn push_two_digits(s: &mut String, n: u64)
    ensures
        final(s)@ == old(s)@ + two_digits(n as nat),
{
    if n < 10 {
        s.append("0");
        proof {
            reveal_strlit("0");
        }
    }
    push_decimal(s, n);
    proof {
        assert(final(s)@ =~= old(s)@ + two_digits(n as nat));
    }
}

/// The server's uptime of `secs` seconds, as `hh:mm:ss`.
pub fn uptime(secs: u64) -> (r: String)
    ensures
        r@ == uptime_text(secs),
{
    let mut s = String::new();
    push_two_digits(&mut s, secs / 3600);
    s.append(":");
    push_two_digits(&mut s, secs / 60 % 60);
    s.append(":");
    push_two_digits(&mut s, secs % 60);
    proof {
        reveal_strlit(":");
        assert(s@ =~= uptime_text(secs));
    }
    s
}

/// The status line at the top of the console.
pub open spec fn status_line_text(
    up_secs: u64,
    health_score: u8,
    connected: usize,
    seed: u32,
    chunk_count: usize,
    modified_count: usize,
) -> Seq<char> {
    " Ascendustry  |  up "@ + uptime_text(up_secs) + "  |  "@ + health_bar_text(health_score) + "  |  "@
        + decimal(connected as nat) + " connectés  |  seed: "@ + decimal(seed as nat) + "  |  chunks: "@
        + decimal(chunk_count as nat) + "  modifs: "@ + decimal(modified_count as nat)
}

/// The status line at the top of the console: uptime, health, players,
/// seed and world size.
pub fn status_line(
    up_secs: u64,
    health_score: u8,
    connected: usize,
    seed: u32,
    chunk_count: usize,
    modified_count: usize,
) -> (r: String)
    ensures
        r@ == status_line_text(up_secs, health_score, connected, seed, chunk_count, modified_count),
{
    let mut s = String::from_str(" Ascendustry  |  up ");
    let up = uptime(up_secs);
    s.append(up.as_str());
    s.append("  |  ");
    let bar = health_bar(health_score);
    s.append(bar.as_str());
    s.append("  |  ");
    push_decimal(&mut s, connected as u64);
    s.append(" connectés  |  seed: ");
    push_decimal(&mut s, seed as u64);
    s.append("  |  chunks: ");
    push_decimal(&mut s, chunk_count as u64);
    s.append("  modifs: ");
    push_decimal(&mut s, modified_count as u64);
    proof {
        assert(s@ =~= status_line_text(up_secs, health_score, connected, seed, chunk_count, modified_count));
    }
    s
}

/// The line of player `username` in the console's list, marked when selected.
pub fn player_line(index: usize, selected: usize, username: &str) -> (r: String)
    ensures
        r@ == (if index == selected {
            "► "@
        } else {
            "  "@
        }) + username@,
{
    let mut s = if index == selected {
        String::from_str("► ")
    } else {
        String::from_str("  ")
    };
    s.append(username);
    s
}

} // verus!
