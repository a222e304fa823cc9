//! Degradation is not a fall. The path to the server can rot - loss high
//! enough that no probe gets through - while the tunnel itself keeps
//! carrying. A reconnect does not mend a path, and it drops every
//! connection of the Mac at once, so a tunnel the peer still answers
//! through is left alone instead.
//!
//! Two pieces of evidence say the peer answers: the age of the handshake,
//! which is a full round trip and so cannot be faked by loss, and bytes
//! still coming in. Neither counts while the tunnel is young: raising one
//! is a handshake, and the answer to it lands in rx, so a flow cut at
//! birth would look alive by both. Too young, and only traffic through
//! the tunnel decides - which is what the checks do anyway.
//!
//! Patience with a degraded tunnel is a setting. When it runs out, one
//! reconnect - not the row of them a dead tunnel gets - and if that does
//! not help, the next wait is twice as long.
//!
//! A time is a number of nanoseconds since some fixed start.

use vstd::prelude::*;

verus! {

/// A second, in nanoseconds.
pub const SECOND: u128 = 1_000_000_000;

pub const MINUTE: u128 = 60 * SECOND;

/// No length of time is longer than this.
pub const LONGEST: u128 = 18_446_744_073_709_551_615_999_999_999;

/// Younger than this, and the tunnel says nothing about itself.
pub const YOUNG: u128 = 30 * SECOND;

/// A handshake no older than this proves the peer answered us just now:
/// the rekey interval fits into the window with room to spare.
pub const HANDSHAKE_FRESH: u64 = 180;

/// Reconnects that did not help grow the patience up to this many times
/// the setting.
pub const GROWTH: u128 = 8;

/// How long a degraded tunnel is left alone unless the settings say so.
pub const GRACE: u128 = 3 * MINUTE;

/// What says that the peer answers through a tunnel of this age.
pub open spec fn evidence(age: u128, handshake: Option<u64>, rx_grew: bool) -> bool {
    age >= YOUNG && rx_grew && (handshake matches Some(s) && s <= HANDSHAKE_FRESH)
}

/// Whether the tunnel itself says it still carries, while the probes
/// through it find nothing: `age` since the interface came up, `handshake`
/// seconds since the last handshake with the peer, and whether its bytes
/// are still coming.
pub fn carrying(age: u128, handshake: Option<u64>, rx_grew: bool) -> (r: bool)
    ensures
        r == evidence(age, handshake, rx_grew),
{
    age >= YOUNG && rx_grew && match handshake {
        Some(s) => s <= HANDSHAKE_FRESH,
        None => false,
    }
}

/// From `then` to `now`; nothing when that is still to come.
pub open spec fn since(then: u128, now: u128) -> u128 {
    if now >= then {
        (now - then) as u128
    } else {
        0
    }
}

/// `since`, computed.
pub fn elapsed(then: u128, now: u128) -> (r: u128)
    ensures
        r == since(then, now),
{
    if now >= then {
        now - then
    } else {
        0
    }
}

/// From the later of the two times to `now`.
pub open spec fn undisturbed(up_at: u128, disturbed_at: u128, now: u128) -> u128 {
    since(
        if up_at >= disturbed_at {
            up_at
        } else {
            disturbed_at
        },
        now,
    )
}

/// How long the tunnel has been carrying undisturbed: the interface came
/// up at `up_at`, and a wake or a new network at `disturbed_at` makes it
/// as young as a freshly raised one - what it carried before them says
/// nothing about the path there is now.
pub fn age(up_at: u128, disturbed_at: u128, now: u128) -> (r: u128)
    ensures
        r == undisturbed(up_at, disturbed_at, now),
        r <= since(up_at, now),
        r <= since(disturbed_at, now),
{
    if up_at >= disturbed_at {
        elapsed(up_at, now)
    } else {
        elapsed(disturbed_at, now)
    }
}

/// What is done with a tunnel whose probes found nothing.
#[derive(Clone, Copy, Debug, PartialEq, Eq, Structural)]
pub enum Verdict {
    /// Nothing says it carries: the usual repair.
    Down,
    /// Left alone, degraded for this long.
    Left(u128),
    /// Out of patience: one reconnect.
    Restart,
}

/// The patience with a tunnel that carries while the probes fail.
#[derive(Clone, Copy, Debug)]
pub struct Degradation {
    /// The setting: zero is patience without end.
    pub grace: u128,
    /// The patience now, grown by reconnects that did not help.
    pub patience: u128,
    /// When the probes began to fail.
    pub since: Option<u128>,
}

impl Degradation {
    /// The patience has grown from the setting, and not past eight of it.
    pub open spec fn wf(self) -> bool {
        self.grace <= self.patience <= self.grace * GROWTH
    }

    /// When the probes began to fail, with one that fails now.
    pub open spec fn began(self, now: u128) -> u128 {
        match self.since {
            Some(t) => t,
            None => now,
        }
    }

    /// What a failure comes to.
    pub open spec fn verdict(self, now: u128, carrying: bool) -> Verdict {
        if !carrying {
            Verdict::Down
        } else if self.patience == 0 || since(self.began(now), now) < self.patience {
            Verdict::Left(since(self.began(now), now))
        } else {
            Verdict::Restart
        }
    }

    /// After a failure that came to this.
    pub open spec fn after(self, verdict: Verdict, now: u128) -> Degradation {
        Degradation {
            since: if verdict is Left {
                Some(self.began(now))
            } else {
                None
            },
            ..self
        }
    }

    /// The patience whole, and no failure.
    pub open spec fn whole(self) -> Degradation {
        Degradation { patience: self.grace, since: None, ..self }
    }

    pub fn new(grace: u128) -> (r: Self)
        ensures
            r == (Degradation { grace, patience: grace, since: None }),
            r.wf(),
    {
        Degradation { grace, patience: grace, since: None }
    }

    /// How long the tunnel is left alone this time round.
    pub fn patience(&self) -> (r: u128)
        ensures
            r == self.patience,
    {
        self.patience
    }

    /// The probes found nothing; `carrying` is what the tunnel says of
    /// itself. While it is left alone the clock runs; the grown patience
    /// survives either way.
    pub fn failed(&mut self, now: u128, carrying: bool) -> (r: Verdict)
        ensures
            r == old(self).verdict(now, carrying),
            *final(self) == old(self).after(r, now),
    {
        if !carrying {
            self.since = None;
            return Verdict::Down;
        }
        let began = match self.since {
            Some(t) => t,
            None => now,
        };
        self.since = Some(began);
        let age = elapsed(began, now);
        if self.patience == 0 || age < self.patience {
            return Verdict::Left(age);
        }
        self.since = None;
        Verdict::Restart
    }

    /// The tunnel answers again: the patience is whole once more.
    pub fn passed(&mut self)
        ensures
            *final(self) == old(self).whole(),
    {
        self.since = None;
        self.patience = self.grace;
    }

    /// The patience after a reconnect that did not help.
    pub open spec fn grown(self) -> u128 {
        if self.patience * 2 <= self.grace * GROWTH {
            (self.patience * 2) as u128
        } else {
            (self.grace * GROWTH) as u128
        }
    }

    /// After so many reconnects that did not help.
    pub open spec fn hardened(self, n: nat) -> Degradation
        decreases n,
    {
        if n == 0 {
            self
        } else {
            let d = self.hardened((n - 1) as nat);
            Degradation { patience: d.grown(), ..d }
        }
    }

    /// The one reconnect did not help: the next wait is twice as long.
    pub fn harder(&mut self)
        requires
            old(self).patience * 2 <= LONGEST,
            old(self).grace * GROWTH <= LONGEST,
        ensures
            *final(self) == (Degradation { patience: old(self).grown(), ..*old(self) }),
            old(self).wf() ==> final(self).wf(),
    {
        let twice: u128 = self.patience * 2;
        let most: u128 = self.grace * GROWTH;
        self.patience = if twice <= most {
            twice
        } else {
            most
        };
    }
}

/// A tunnel that says it carries is never taken for one that is down, and
/// one that says nothing always is.
pub proof fn lemma_only_silence_is_down(d: Degradation, now: u128, carrying: bool)
    ensures
        d.verdict(now, carrying) is Down <==> !carrying,
{
}

/// Patience without end never runs out, and reconnects do not end it.
pub proof fn lemma_zero_grace_never_runs_out(d: Degradation, now: u128)
    requires
        d.wf(),
        d.grace == 0,
    ensures
        d.verdict(now, true) is Left,
        d.grown() == 0,
{
}

/// A reconnect is forced only when the probes have failed for the whole of
/// the patience, which is never less than the setting.
pub proof fn lemma_restart_waits_out_the_grace(d: Degradation, now: u128)
    requires
        d.wf(),
        d.verdict(now, true) is Restart,
    ensures
        since(d.began(now), now) >= d.patience,
        since(d.began(now), now) >= d.grace,
        d.grace > 0,
        d.since is Some,
{
}

/// After a reconnect that did not help the next wait is twice as long, up
/// to eight times the setting, and never shorter.
pub proof fn lemma_next_wait_is_twice_as_long(d: Degradation)
    requires
        d.wf(),
        d.grace * GROWTH <= LONGEST,
    ensures
        d.grown() == if 2 * d.patience <= 8 * d.grace {
            2 * d.patience
        } else {
            8 * d.grace
        },
        d.grown() >= d.patience,
{
}

/// How many times the setting the patience is after so many reconnects
/// that did not help.
pub open spec fn doublings(n: nat) -> nat {
    if vstd::arithmetic::power2::pow2(n) <= GROWTH {
        vstd::arithmetic::power2::pow2(n)
    } else {
        GROWTH as nat
    }
}

/// The patience doubles with every reconnect that did not help, up to
/// eight times the setting.
pub proof fn lemma_patience_doubles(d: Degradation, n: nat)
    requires
        d.patience == d.grace,
        d.grace * GROWTH * 2 <= LONGEST,
    ensures
        d.hardened(n).grace == d.grace,
        d.hardened(n).patience == d.grace * doublings(n),
    decreases n,
{
    vstd::arithmetic::power2::lemma2_to64();
    let (g, k) = (d.grace as int, doublings(n) as int);
    if n == 0 {
        assert(g * k == g) by (nonlinear_arith)
            requires
                k == 1,
        ;
    } else {
        lemma_patience_doubles(d, (n - 1) as nat);
        vstd::arithmetic::power2::lemma_pow2_unfold(n);
        let j = doublings((n - 1) as nat) as int;
        assert(k == if 2 * j <= 8 {
            2 * j
        } else {
            8
        });
        if n > 4 {
            vstd::arithmetic::power2::lemma_pow2_strictly_increases(3, (n - 1) as nat);
        }
        assert(j == 1 || j == 2 || j == 4 || j == 8);
        assert(g * k == if 2 * (g * j) <= 8 * g {
            2 * (g * j)
        } else {
            8 * g
        }) by (nonlinear_arith)
            requires
                j == 1 || j == 2 || j == 4 || j == 8,
                k == (if 2 * j <= 8 {
                    2 * j
                } else {
                    8
                }),
                g >= 0,
        ;
    }
}

/// A tunnel says that it carries when it has been up undisturbed for half a
/// minute, its bytes still come, and its last handshake is three minutes old
/// at most: each of the three is needed.
pub proof fn lemma_what_carrying_takes(
    up_at: u128,
    disturbed_at: u128,
    now: u128,
    handshake: Option<u64>,
    rx_grew: bool,
)
    ensures
        evidence(undisturbed(up_at, disturbed_at, now), handshake, rx_grew) <==> {
            &&& now >= up_at + 30_000_000_000
            &&& now >= disturbed_at + 30_000_000_000
            &&& rx_grew
            &&& handshake is Some
            &&& handshake->0 <= 180
        },
{
}

/// A failure comes to a repair when the tunnel is silent; else to a
/// reconnect once the failures, counted from the first, have gone on for
/// the whole patience, and before that the tunnel is left alone. A zero
/// patience has no end.
pub proof fn lemma_what_a_failure_comes_to(d: Degradation, now: u128, carrying: bool)
    ensures
        ({
            let first = match d.since {
                Some(t) => t,
                None => now,
            };
            let v = d.verdict(now, carrying);
            let r = d.after(v, now);
            &&& v is Down <==> !carrying
            &&& v is Restart <==> carrying && d.patience != 0 && now >= first + d.patience
            &&& v matches Verdict::Left(t) ==> t == if now >= first {
                now - first
            } else {
                0
            }
            &&& r.since == if v is Left {
                Some(first)
            } else {
                None
            }
            &&& r.grace == d.grace
            &&& r.patience == d.patience
        }),
{
}

/// The patience doubles up to eight times the setting, and is the setting
/// again as soon as the tunnel answers.
pub proof fn lemma_patience_grows_and_is_restored(d: Degradation)
    requires
        d.grace * 8 <= LONGEST,
        d.patience * 2 <= LONGEST,
    ensures
        d.grown() == if d.patience * 2 <= d.grace * 8 {
            d.patience * 2
        } else {
            d.grace * 8
        },
        d.whole().patience == d.grace,
        d.whole().grace == d.grace,
        d.whole().since is None,
        SECOND == 1_000_000_000,
        MINUTE == 60_000_000_000,
        GRACE == 180_000_000_000,
{
}

} // verus!
