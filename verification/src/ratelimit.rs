//! A fixed-window rate limiter, one window per client address: within a
//! window a client may pass at most `capacity` times; when the window has
//! run out, the next call starts a new one. Clock readings are whole
//! nanoseconds on the monotonic clock, counted from when the limiter was
//! made.

use std::collections::HashMap;
use std::time::Instant;

use vstd::prelude::*;

use crate::os::{monotonic_origin, nanos_since};

verus! {

broadcast use vstd::std_specs::hash::group_hash_axioms;

/// A client address, IPv4 or IPv6, as a number.
#[derive(Debug, Clone, Copy, PartialEq, Eq, Structural)]
pub enum ClientIp {
    V4(u32),
    V6(u128),
}

impl ClientIp {
    /// The IPv4 address `a.b.c.d`.
    pub fn v4(a: u8, b: u8, c: u8, d: u8) -> (ip: ClientIp)
        ensures
            ip == ClientIp::V4(
                ((a as u32) * 0x100_0000 + (b as u32) * 0x1_0000 + (c as u32) * 0x100 + d as u32) as u32,
            ),
    {
        ClientIp::V4((a as u32) * 0x100_0000 + (b as u32) * 0x1_0000 + (c as u32) * 0x100 + d as u32)
    }
}

/// The window of one client: when it started and how many calls passed in
/// it.
pub type Bucket = (u64, u32);

/// The time from `start` to `now`, or zero when the clock went back.
pub open spec fn elapsed(start: u64, now: u64) -> nat {
    if now >= start {
        (now - start) as nat
    } else {
        0
    }
}

/// Whether a window that started at `start` has run out at `now`.
pub open spec fn window_over(start: u64, now: u64, window: u128) -> bool {
    elapsed(start, now) >= window
}

/// One call by a client whose window is `b` (none yet when `None`): the
/// client's window afterwards and whether the call passes. A client with no
/// window gets an empty one starting now. A window that has run out is
/// replaced by a new one holding this call, which passes. In a running
/// window the call passes and is counted while fewer than `capacity` have
/// passed, and is refused otherwise.
pub open spec fn check_step(b: Option<Bucket>, now: u64, capacity: u32, window: u128) -> (Bucket, bool) {
    let (start, count) = match b {
        Some(bucket) => bucket,
        None => (now, 0u32),
    };
    if window_over(start, now, window) {
        ((now, 1u32), true)
    } else if count >= capacity {
        ((start, count), false)
    } else {
        ((start, (count + 1) as u32), true)
    }
}

/// The windows of `m` that have not run out at `now`.
pub open spec fn drop_stale(m: Map<ClientIp, Bucket>, now: u64, window: u128) -> Map<ClientIp, Bucket> {
    Map::new(
        |ip: ClientIp| m.contains_key(ip) && !window_over(m[ip].0, now, window),
        |ip: ClientIp| m[ip],
    )
}

/// How many windows the limiter may hold before it drops those that ran out.
pub const MAX_CLIENT_WINDOWS: usize = 4096;

/// The rate limiter: at most `capacity` calls per client per `window`.
pub struct RateLimiter {
    capacity: u32,
    window: u128,
    v4: HashMap<u32, Bucket>,
    v6: HashMap<u128, Bucket>,
    clients: Vec<ClientIp>,
    origin: Instant,
}

/// The windows of `m0` left after dropping those that ran out at `now`
/// among the clients listed at positions `i..` of `c0`.
pub open spec fn stale_dropped_from(
    m0: Map<ClientIp, Bucket>,
    c0: Seq<ClientIp>,
    i: int,
    now: u64,
    window: u128,
) -> Map<ClientIp, Bucket> {
    Map::new(
        |ip: ClientIp|
            m0.contains_key(ip) && (!window_over(m0[ip].0, now, window) || exists|p: int|
                i <= p < c0.len() && c0[p] == ip),
        |ip: ClientIp| m0[ip],
    )
}

/// The windows that a call at `now` finds: all of them, or, when the
/// limiter holds more than `MAX_CLIENT_WINDOWS`, those that have not run out.
pub open spec fn windows_seen(
    m: Map<ClientIp, Bucket>,
    count: nat,
    now: u64,
    window: u128,
) -> Map<ClientIp, Bucket> {
    if count > MAX_CLIENT_WINDOWS {
        drop_stale(m, now, window)
    } else {
        m
    }
}

/// A call by client `ip` at `now` on a limiter whose windows are `m`
/// (`count` of them): the windows afterwards and whether the call passes.
pub open spec fn call_outcome(
    m: Map<ClientIp, Bucket>,
    count: nat,
    ip: ClientIp,
    now: u64,
    capacity: u32,
    window: u128,
) -> (Map<ClientIp, Bucket>, bool) {
    let seen = windows_seen(m, count, now, window);
    let (b, ok) = check_step(window_of(seen, ip), now, capacity, window);
    (seen.insert(ip, b), ok)
}

/// The window of `ip` in `m`, if any.
pub open spec fn window_of(m: Map<ClientIp, Bucket>, ip: ClientIp) -> Option<Bucket> {
    if m.contains_key(ip) {
        Some(m[ip])
    } else {
        None
    }
}

impl RateLimiter {
    /// The windows of all clients.
    pub closed spec fn windows(&self) -> Map<ClientIp, Bucket> {
        Map::new(
            |ip: ClientIp|
                match ip {
                    ClientIp::V4(a) => self.v4@.contains_key(a),
                    ClientIp::V6(a) => self.v6@.contains_key(a),
                },
            |ip: ClientIp|
                match ip {
                    ClientIp::V4(a) => self.v4@[a],
                    ClientIp::V6(a) => self.v6@[a],
                },
        )
    }

    /// How many calls a client may make per window.
    pub closed spec fn spec_capacity(&self) -> u32 {
        self.capacity
    }

    /// The length of a window in nanoseconds.
    pub closed spec fn window_nanos(&self) -> u128 {
        self.window
    }

    /// Whether the limiter is sound: `clients` lists each client with a
    /// window exactly once.
    pub closed spec fn wf(&self) -> bool {
        &&& self.clients@.no_duplicates()
        &&& forall|ip: ClientIp| #[trigger] self.windows().contains_key(ip) <==> self.clients@.contains(ip)
    }

    /// How many windows the limiter holds.
    pub closed spec fn window_count(&self) -> nat {
        self.clients@.len()
    }

    /// The window of `ip`, if it has one.
    fn get_window(&self, ip: ClientIp) -> (r: Option<Bucket>)
        ensures
            r == (if self.windows().contains_key(ip) {
                Some(self.windows()[ip])
            } else {
                None::<Bucket>
            }),
    {
        match ip {
            ClientIp::V4(a) => match self.v4.get(&a) {
                Some(b) => Some(*b),
                None => None,
            },
            ClientIp::V6(a) => match self.v6.get(&a) {
                Some(b) => Some(*b),
                None => None,
            },
        }
    }

    /// Sets the window of `ip` (the list of clients is left to the caller).
    fn put_window(&mut self, ip: ClientIp, b: Bucket)
        ensures
            final(self).windows() == old(self).windows().insert(ip, b),
            final(self).clients == old(self).clients,
            final(self).capacity == old(self).capacity,
            final(self).window == old(self).window,
    {
        match ip {
            ClientIp::V4(a) => {
                self.v4.insert(a, b);
            },
            ClientIp::V6(a) => {
                self.v6.insert(a, b);
            },
        }
        assert(self.windows() =~= old(self).windows().insert(ip, b));
    }

    /// Drops the window of `ip` (the list of clients is left to the caller).
    fn take_window(&mut self, ip: ClientIp)
        ensures
            final(self).windows() == old(self).windows().remove(ip),
            final(self).clients == old(self).clients,
            final(self).capacity == old(self).capacity,
            final(self).window == old(self).window,
    {
        match ip {
            ClientIp::V4(a) => {
                self.v4.remove(&a);
            },
            ClientIp::V6(a) => {
                self.v6.remove(&a);
            },
        }
        assert(self.windows() =~= old(self).windows().remove(ip));
    }

    /// Drops every window that has run out at `now`.
    fn drop_stale_windows(&mut self, now: u64)
        requires
            old(self).wf(),
        ensures
            final(self).wf(),
            final(self).windows() == drop_stale(old(self).windows(), now, old(self).window),
            final(self).capacity == old(self).capacity,
            final(self).window == old(self).window,
    {
        let ghost m0 = self.windows();
        let ghost c0 = self.clients@;
        let mut kept: Vec<ClientIp> = Vec::new();
        let mut i: usize = 0;
        proof {
            assert(stale_dropped_from(m0, c0, 0, now, self.window) =~= m0) by {
                assert forall|ip: ClientIp| m0.contains_key(ip) implies exists|p: int|
                    0 <= p < c0.len() && c0[p] == ip by {
                    assert(self.windows().contains_key(ip));
                    assert(c0.contains(ip));
                }
            }
        }
        while i < self.clients.len()
            invariant
                i <= c0.len(),
                self.clients@ == c0,
                c0.no_duplicates(),
                forall|ip: ClientIp| #[trigger] m0.contains_key(ip) <==> c0.contains(ip),
                self.window == old(self).window,
                self.capacity == old(self).capacity,
                self.windows() == stale_dropped_from(m0, c0, i as int, now, self.window),
                kept@.no_duplicates(),
                forall|ip: ClientIp|
                    #[trigger] kept@.contains(ip) <==> (exists|p: int| 0 <= p < i && c0[p] == ip)
                        && !window_over(m0[ip].0, now, self.window),
            decreases c0.len() - i,
        {
            let ip = self.clients[i];
            let ghost before = self.windows();
            assert(m0.contains_key(ip)) by {
                assert(c0.contains(ip));
            }
            let b = self.get_window(ip);
            assert(before.contains_key(ip) && before[ip] == m0[ip]) by {
                assert(exists|p: int| i <= p < c0.len() && c0[p] == ip);
            }
            let start = match b {
                Some(w) => w.0,
                None => now,
            };
            let gone: u128 = if now >= start { (now - start) as u128 } else { 0 };
            if gone >= self.window {
                self.take_window(ip);
                proof {
                    assert(self.windows() =~= stale_dropped_from(m0, c0, i + 1, now, self.window)) by {
                        assert forall|x: ClientIp| #[trigger] self.windows().contains_key(x) <==> stale_dropped_from(m0, c0, i + 1, now, self.window).contains_key(x) by {
                            if exists|p: int| i <= p < c0.len() && c0[p] == x {
                                let p = choose|p: int| i <= p < c0.len() && c0[p] == x;
                                if p == i {
                                } else {
                                    assert(i + 1 <= p);
                                }
                            }
                            if exists|p: int| i + 1 <= p < c0.len() && c0[p] == x {
                                let p = choose|p: int| i + 1 <= p < c0.len() && c0[p] == x;
                                assert(i <= p);
                                assert(p != i);
                            }
                        }
                    }
                }
            } else {
                let ghost kb = kept@;
                assert(!kb.contains(ip)) by {
                    if kb.contains(ip) {
                        let p = choose|p: int| 0 <= p < i && c0[p] == ip;
                    }
                }
                kept.push(ip);
                proof {
                    assert forall|x: ClientIp| #[trigger] kept@.contains(x) <==> (exists|p: int| 0 <= p < i + 1 && c0[p] == x)
                        && !window_over(m0[x].0, now, self.window) by {
                        if kept@.contains(x) {
                            let w = choose|w: int| 0 <= w < kept@.len() && kept@[w] == x;
                            if w < kb.len() {
                                assert(kb.contains(x));
                            }
                        }
                        if (exists|p: int| 0 <= p < i + 1 && c0[p] == x) && !window_over(m0[x].0, now, self.window) {
                            let p = choose|p: int| 0 <= p < i + 1 && c0[p] == x;
                            if p < i {
                                assert(kb.contains(x));
                                let w = choose|w: int| 0 <= w < kb.len() && kb[w] == x;
                                assert(kept@[w] == x);
                            } else {
                                assert(kept@[kb.len() as int] == x);
                            }
                        }
                    }
                    assert(self.windows() =~= stale_dropped_from(m0, c0, i + 1, now, self.window)) by {
                        assert forall|x: ClientIp| #[trigger] self.windows().contains_key(x) <==> stale_dropped_from(m0, c0, i + 1, now, self.window).contains_key(x) by {
                            if exists|p: int| i <= p < c0.len() && c0[p] == x {
                                let p = choose|p: int| i <= p < c0.len() && c0[p] == x;
                                if p == i {
                                } else {
                                    assert(i + 1 <= p);
                                }
                            }
                            if exists|p: int| i + 1 <= p < c0.len() && c0[p] == x {
                                let p = choose|p: int| i + 1 <= p < c0.len() && c0[p] == x;
                                assert(i <= p);
                            }
                        }
                    }
                }
            }
            i = i + 1;
        }
        self.clients = kept;
        proof {
            assert(self.windows() =~= drop_stale(m0, now, self.window));
            assert forall|ip: ClientIp| #[trigger] self.windows().contains_key(ip) <==> self.clients@.contains(ip) by {
                if self.windows().contains_key(ip) {
                    assert(c0.contains(ip));
                    let p = choose|p: int| 0 <= p < c0.len() && c0[p] == ip;
                }
            }
        }
    }

    /// One call by client `ip` at clock reading `now`; whether it passes.
    /// When the limiter holds more than `MAX_CLIENT_WINDOWS` windows, those
    /// that have run out are dropped first. Then the client's window is
    /// looked up (an empty one starting now when it has none): a window
    /// that has run out is replaced by a new one holding this call, which
    /// passes; in a running window the call passes and is counted while
    /// fewer than `capacity` calls have passed, and is refused otherwise.
    pub fn check_at(&mut self, ip: ClientIp, now: u64) -> (pass: bool)
        requires
            old(self).wf(),
        ensures
            final(self).wf(),
            final(self).spec_capacity() == old(self).spec_capacity(),
            final(self).window_nanos() == old(self).window_nanos(),
            (final(self).windows(), pass) == call_outcome(
                old(self).windows(),
                old(self).window_count(),
                ip,
                now,
                old(self).spec_capacity(),
                old(self).window_nanos(),
            ),
    {
        if self.clients.len() > MAX_CLIENT_WINDOWS {
            self.drop_stale_windows(now);
        }
        let ghost mid_clients = self.clients@;
        let ghost mid_windows = self.windows();
        let cur = self.get_window(ip);
        let (start, count) = match cur {
            Some(b) => b,
            None => (now, 0u32),
        };
        let gone: u128 = if now >= start { (now - start) as u128 } else { 0 };
        let (next, pass) = if gone >= self.window {
            ((now, 1u32), true)
        } else if count >= self.capacity {
            ((start, count), false)
        } else {
            ((start, count + 1), true)
        };
        if cur.is_none() {
            let ghost cs = self.clients@;
            assert(!cs.contains(ip));
            self.clients.push(ip);
            proof {
                assert forall|a: int, b: int| 0 <= a < self.clients@.len() && 0 <= b < self.clients@.len() && a != b implies self.clients@[a] != self.clients@[b] by {
                    if a < cs.len() && b < cs.len() {
                    } else if a < cs.len() {
                        assert(cs.contains(cs[a]));
                    } else {
                        assert(cs.contains(cs[b]));
                    }
                }
            }
        }
        let ghost cs2 = self.clients@;
        self.put_window(ip, next);
        proof {
            assert forall|x: ClientIp| #[trigger] self.windows().contains_key(x) <==> self.clients@.contains(x) by {
                assert(mid_windows.contains_key(x) <==> mid_clients.contains(x));
                if cur.is_some() {
                    assert(cs2 == mid_clients);
                } else {
                    assert(cs2 == mid_clients.push(ip));
                    if x == ip {
                        assert(cs2[cs2.len() - 1] == ip);
                    } else {
                        if cs2.contains(x) {
                            let w = choose|w: int| 0 <= w < cs2.len() && cs2[w] == x;
                            assert(mid_clients[w] == x);
                        }
                        if mid_clients.contains(x) {
                            let w = choose|w: int| 0 <= w < mid_clients.len() && mid_clients[w] == x;
                            assert(cs2[w] == x);
                        }
                    }
                }
            }
        }
        pass
    }

    /// One call by client `ip`, timed by the monotonic clock (nanoseconds
    /// since the limiter was made); whether it passes (see `check_at`, which
    /// gets the clock reading).
    pub fn check(&mut self, ip: ClientIp) -> (pass: bool)
        requires
            old(self).wf(),
        ensures
            final(self).wf(),
            final(self).spec_capacity() == old(self).spec_capacity(),
            final(self).window_nanos() == old(self).window_nanos(),
            exists|now: u64|
                (final(self).windows(), pass) == #[trigger] call_outcome(
                    old(self).windows(),
                    old(self).window_count(),
                    ip,
                    now,
                    old(self).spec_capacity(),
                    old(self).window_nanos(),
                ),
    {
        let now = nanos_since(&self.origin);
        self.check_at(ip, now)
    }

    /// A limiter letting each client through `capacity` times per window of
    /// `window_nanos` nanoseconds, with no window yet; its clock starts now.
    pub fn new(capacity: u32, window_nanos: u128) -> (r: RateLimiter)
        ensures
            r.wf(),
            r.spec_capacity() == capacity,
            r.window_nanos() == window_nanos,
            r.windows() == Map::<ClientIp, Bucket>::empty(),
    {
        let r = RateLimiter {
            capacity,
            window: window_nanos,
            v4: HashMap::new(),
            v6: HashMap::new(),
            clients: Vec::new(),
            origin: monotonic_origin(),
        };
        assert(r.windows() =~= Map::<ClientIp, Bucket>::empty());
        r
    }
}

/// Within a running window a client passes exactly while fewer than
/// `capacity` of its calls have passed, each pass counting one more call;
/// once `capacity` have passed, further calls are refused and change
/// nothing until the window runs out.
pub proof fn law_capacity_per_window(start: u64, count: u32, now: u64, capacity: u32, window: u128)
    requires
        !window_over(start, now, window),
    ensures
        check_step(Some((start, count)), now, capacity, window).1 <==> count < capacity,
        count < capacity ==> check_step(Some((start, count)), now, capacity, window).0 == (
        start,
        (count + 1) as u32,
        ),
        count >= capacity ==> check_step(Some((start, count)), now, capacity, window).0 == (
        start,
        count,
        ),
{
}

/// When its window has run out, a client's call passes and opens a new
/// window starting now that holds this one call.
pub proof fn law_window_renews(b: Bucket, now: u64, capacity: u32, window: u128)
    requires
        window_over(b.0, now, window),
    ensures
        check_step(Some(b), now, capacity, window) == ((now, 1u32), true),
{
}

/// Clients are counted apart: a call by one client leaves every other
/// client's window as it was (when there are too many windows, those that
/// have run out are dropped, and nothing else).
pub proof fn law_clients_independent(
    m: Map<ClientIp, Bucket>,
    count: nat,
    ip: ClientIp,
    other: ClientIp,
    now: u64,
    capacity: u32,
    window: u128,
)
    requires
        other != ip,
    ensures
        count <= MAX_CLIENT_WINDOWS ==> window_of(call_outcome(m, count, ip, now, capacity, window).0, other)
            == window_of(m, other),
        count > MAX_CLIENT_WINDOWS ==> window_of(call_outcome(m, count, ip, now, capacity, window).0, other)
            == window_of(drop_stale(m, now, window), other),
        m.contains_key(other) && !window_over(m[other].0, now, window) ==> window_of(
            call_outcome(m, count, ip, now, capacity, window).0,
            other,
        ) == Some(m[other]),
{
}

/// No window ever counts more than `capacity` calls (or one, for a
/// capacity of zero): if that holds of every window before a call, it holds
/// after.
pub proof fn law_counts_stay_within_capacity(
    m: Map<ClientIp, Bucket>,
    count: nat,
    ip: ClientIp,
    now: u64,
    capacity: u32,
    window: u128,
)
    requires
        forall|x: ClientIp| #[trigger] m.contains_key(x) ==> m[x].1 <= capacity || m[x].1 <= 1,
    ensures
        forall|x: ClientIp|
            #[trigger] call_outcome(m, count, ip, now, capacity, window).0.contains_key(x) ==> call_outcome(
                m,
                count,
                ip,
                now,
                capacity,
                window,
            ).0[x].1 <= capacity || call_outcome(m, count, ip, now, capacity, window).0[x].1 <= 1,
{
    let seen = windows_seen(m, count, now, window);
    assert forall|x: ClientIp| #[trigger] seen.contains_key(x) implies seen[x].1 <= capacity
        || seen[x].1 <= 1 by {
        assert(m.contains_key(x));
    }
}

/// How many of the calls at clock readings `times` pass, one after the
/// other, for a client whose window is `b` before the first.
pub open spec fn passes(b: Option<Bucket>, times: Seq<u64>, capacity: u32, window: u128) -> nat
    decreases times.len(),
{
    if times.len() == 0 {
        0
    } else {
        let (next, ok) = check_step(b, times[0], capacity, window);
        (if ok { 1nat } else { 0nat }) + passes(Some(next), times.drop_first(), capacity, window)
    }
}

/// Within a window that started at `start` with `count` calls counted,
/// calls made before it runs out pass at most `capacity - count` more times
/// (none once `count` has reached `capacity`).
proof fn lemma_passes_in_window(
    start: u64,
    count: u32,
    times: Seq<u64>,
    capacity: u32,
    window: u128,
)
    requires
        forall|i: int| 0 <= i < times.len() ==> !window_over(start, #[trigger] times[i], window),
    ensures
        passes(Some((start, count)), times, capacity, window) <= if count <= capacity {
            capacity - count
        } else {
            0
        },
    decreases times.len(),
{
    if times.len() > 0 {
        let rest = times.drop_first();
        assert forall|i: int| 0 <= i < rest.len() implies !window_over(start, #[trigger] rest[i], window) by {
            assert(rest[i] == times[i + 1]);
        }
        assert(!window_over(start, times[0], window));
        if count < capacity {
            lemma_passes_in_window(start, (count + 1) as u32, rest, capacity, window);
        } else {
            lemma_passes_in_window(start, count, rest, capacity, window);
        }
    }
}

/// A client gets at most `capacity` passes per window: of the calls a
/// client with no window makes, from its first call on and before the
/// window that call opens runs out (a window longer than zero), at most
/// `capacity` pass.
pub proof fn law_at_most_capacity_per_window(times: Seq<u64>, capacity: u32, window: u128)
    requires
        window > 0,
        times.len() > 0,
        forall|i: int| 0 <= i < times.len() ==> !window_over(times[0], #[trigger] times[i], window),
    ensures
        passes(None, times, capacity, window) <= capacity,
{
    let t0 = times[0];
    assert(check_step(None, t0, capacity, window) == check_step(Some((t0, 0u32)), t0, capacity, window));
    assert(passes(None, times, capacity, window) == passes(Some((t0, 0u32)), times, capacity, window));
    lemma_passes_in_window(t0, 0, times, capacity, window);
}

/// A client gets at most `capacity` passes per window (one, for a capacity
/// of zero, when the window is opened by renewal), whichever window it is:
/// of the calls from the one that opens a window (the client had none, or
/// its last one had run out) until that window runs out, at most
/// `max(capacity, 1)` pass.
pub proof fn law_at_most_capacity_any_window(
    b: Option<Bucket>,
    times: Seq<u64>,
    capacity: u32,
    window: u128,
)
    requires
        window > 0,
        times.len() > 0,
        b matches Some(w) ==> window_over(w.0, times[0], window),
        forall|i: int| 0 <= i < times.len() ==> !window_over(times[0], #[trigger] times[i], window),
    ensures
        passes(b, times, capacity, window) <= if capacity >= 1 { capacity as nat } else { 1nat },
{
    let t0 = times[0];
    let rest = times.drop_first();
    assert forall|i: int| 0 <= i < rest.len() implies !window_over(t0, #[trigger] rest[i], window) by {
        assert(rest[i] == times[i + 1]);
    }
    match b {
        None => {
            law_at_most_capacity_per_window(times, capacity, window);
        },
        Some(w) => {
            assert(check_step(b, t0, capacity, window) == ((t0, 1u32), true));
            lemma_passes_in_window(t0, 1, rest, capacity, window);
        },
    }
}

/// How many of the calls that client `ip` makes at clock readings `times`,
/// one after the other, pass a limiter whose windows are `m`, when the
/// limiter holds `counts[i]` windows before the `i`-th call.
pub open spec fn limiter_passes(
    m: Map<ClientIp, Bucket>,
    counts: Seq<nat>,
    ip: ClientIp,
    times: Seq<u64>,
    capacity: u32,
    window: u128,
) -> nat
    decreases times.len(),
{
    if times.len() == 0 || counts.len() == 0 {
        0
    } else {
        let (next, ok) = call_outcome(m, counts[0], ip, times[0], capacity, window);
        (if ok { 1nat } else { 0nat }) + limiter_passes(
            next,
            counts.drop_first(),
            ip,
            times.drop_first(),
            capacity,
            window,
        )
    }
}

/// While a client's window is running, the limiter answers its calls as
/// that window alone decides: the window is never dropped.
proof fn lemma_running_window_decides(
    m: Map<ClientIp, Bucket>,
    counts: Seq<nat>,
    ip: ClientIp,
    times: Seq<u64>,
    capacity: u32,
    window: u128,
    start: u64,
    count: u32,
)
    requires
        counts.len() == times.len(),
        window_of(m, ip) == Some((start, count)),
        forall|i: int| 0 <= i < times.len() ==> !window_over(start, #[trigger] times[i], window),
    ensures
        limiter_passes(m, counts, ip, times, capacity, window) == passes(
            Some((start, count)),
            times,
            capacity,
            window,
        ),
    decreases times.len(),
{
    if times.len() > 0 {
        let t0 = times[0];
        assert(!window_over(start, t0, window));
        let seen = windows_seen(m, counts[0], t0, window);
        assert(window_of(seen, ip) == Some((start, count)));
        let (b, ok) = check_step(Some((start, count)), t0, capacity, window);
        let next = seen.insert(ip, b);
        assert(window_of(next, ip) == Some(b));
        let rest = times.drop_first();
        assert forall|i: int| 0 <= i < rest.len() implies !window_over(b.0, #[trigger] rest[i], window) by {
            assert(rest[i] == times[i + 1]);
        }
        lemma_running_window_decides(next, counts.drop_first(), ip, rest, capacity, window, b.0, b.1);
    }
}

/// At most `capacity` requests per window per client, then refusals, over
/// the limiter as a whole: of the calls one client makes from the one that
/// opens a window (the client has none, or its last one has run out) until
/// that window runs out, at most `capacity` pass (one, for a capacity of
/// zero), however many windows the limiter holds along the way.
pub proof fn law_limiter_capacity_per_window(
    m: Map<ClientIp, Bucket>,
    counts: Seq<nat>,
    ip: ClientIp,
    times: Seq<u64>,
    capacity: u32,
    window: u128,
)
    requires
        window > 0,
        times.len() > 0,
        counts.len() == times.len(),
        window_of(m, ip) matches Some(w) ==> window_over(w.0, times[0], window),
        forall|i: int| 0 <= i < times.len() ==> !window_over(times[0], #[trigger] times[i], window),
    ensures
        limiter_passes(m, counts, ip, times, capacity, window) <= if capacity >= 1 {
            capacity as nat
        } else {
            1nat
        },
{
    let t0 = times[0];
    let seen = windows_seen(m, counts[0], t0, window);
    let b0 = window_of(seen, ip);
    let (b1, ok) = check_step(b0, t0, capacity, window);
    let next = seen.insert(ip, b1);
    assert(b1.0 == t0);
    assert(window_of(next, ip) == Some(b1));
    let rest = times.drop_first();
    assert forall|i: int| 0 <= i < rest.len() implies !window_over(t0, #[trigger] rest[i], window) by {
        assert(rest[i] == times[i + 1]);
    }
    lemma_running_window_decides(next, counts.drop_first(), ip, rest, capacity, window, b1.0, b1.1);
    assert(limiter_passes(m, counts, ip, times, capacity, window) == passes(b0, times, capacity, window));
    law_at_most_capacity_any_window(b0, times, capacity, window);
}

} // verus!
