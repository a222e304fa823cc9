//! The journal: timestamped event lines, "<unix microseconds> <event>".
//! Repeats of one kind of event are counted, not written, for a while
//! after the first: a network change fails hundreds of queries at once.

use vstd::prelude::*;
use vstd::string::*;

use crate::degraded::SECOND;
use crate::text::{same, show};

verus! {

/// Repeats of one kind of event are counted for this long after the first.
pub const BURST: u128 = 10 * SECOND;

/// A burst: its kind, its end, and the repeats counted in it.
#[derive(Debug)]
pub struct Burst {
    pub kind: String,
    pub until: u128,
    pub repeats: u64,
}

/// A burst as a mathematical value.
pub struct Run {
    pub kind: Seq<char>,
    pub until: u128,
    pub repeats: u64,
}

impl Burst {
    pub open spec fn view(&self) -> Run {
        Run { kind: self.kind@, until: self.until, repeats: self.repeats }
    }
}

/// Where the burst of a kind stands; past the end without one.
pub open spec fn place(runs: Seq<Run>, kind: Seq<char>) -> int
    decreases runs.len(),
{
    if runs.len() == 0 {
        0
    } else if runs[0].kind == kind {
        0
    } else {
        1 + place(runs.skip(1), kind)
    }
}

pub open spec fn repeated(kind: Seq<char>, n: u64) -> Seq<char> {
    kind + " repeated "@ + crate::text::decimal(n as nat) + " more times within 10s"@
}

/// The line of the repeats of a burst that is over, if there were any.
pub open spec fn summary(r: Run) -> Seq<Seq<char>> {
    if r.repeats > 0 {
        seq![repeated(r.kind, r.repeats)]
    } else {
        seq![]
    }
}

/// The bursts after an event of a kind.
pub open spec fn after_event(runs: Seq<Run>, kind: Seq<char>, now: u128) -> Seq<Run> {
    let at = place(runs, kind);
    let fresh = Run { kind, until: (now + BURST) as u128, repeats: 0 };
    if at >= runs.len() {
        runs.push(fresh)
    } else if now < runs[at].until {
        runs.update(at, Run { repeats: (runs[at].repeats + 1) as u64, ..runs[at] })
    } else {
        runs.update(at, fresh)
    }
}

/// What an event of a kind writes: nothing within a burst of its kind;
/// else the count of the burst that is over, and itself.
pub open spec fn event_lines(
    runs: Seq<Run>,
    kind: Seq<char>,
    event: Seq<char>,
    now: u128,
) -> Seq<Seq<char>> {
    let at = place(runs, kind);
    if at >= runs.len() {
        seq![event]
    } else if now < runs[at].until {
        seq![]
    } else {
        summary(runs[at]).push(event)
    }
}

/// The bursts that go on.
pub open spec fn going(runs: Seq<Run>, now: u128) -> Seq<Run>
    decreases runs.len(),
{
    if runs.len() == 0 {
        seq![]
    } else if now >= runs.last().until {
        going(runs.drop_last(), now)
    } else {
        going(runs.drop_last(), now).push(runs.last())
    }
}

/// The counts of the bursts that are over.
pub open spec fn summaries(runs: Seq<Run>, now: u128) -> Seq<Seq<char>>
    decreases runs.len(),
{
    if runs.len() == 0 {
        seq![]
    } else if now >= runs.last().until {
        summaries(runs.drop_last(), now) + summary(runs.last())
    } else {
        summaries(runs.drop_last(), now)
    }
}

#[derive(Debug)]
pub struct Journal {
    pub bursts: Vec<Burst>,
}

fn repeated_line(kind: &str, n: u64) -> (r: String)
    ensures
        r@ == repeated(kind@, n),
{
    let mut s = kind.to_owned();
    s.append(" repeated ");
    s.append(show(n as u128).as_str());
    s.append(" more times within 10s");
    s
}

impl Journal {
    pub open spec fn view(&self) -> Seq<Run> {
        self.bursts@.map_values(|b: Burst| b@)
    }

    pub fn new() -> (r: Self)
        ensures
            r@ == Seq::<Run>::empty(),
    {
        let r = Journal { bursts: Vec::new() };
        proof {
            assert(r@ =~= seq![]);
        }
        r
    }

    fn find(&self, kind: &str) -> (r: usize)
        ensures
            r == place(self@, kind@),
            r <= self@.len(),
    {
        let mut i: usize = 0;
        proof {
            assert(self@.skip(0) =~= self@);
        }
        while i < self.bursts.len()
            invariant
                i <= self.bursts@.len(),
                place(self@, kind@) == i + place(self@.skip(i as int), kind@),
            decreases self.bursts@.len() - i,
        {
            proof {
                assert(self@.skip(i as int)[0] == self.bursts@[i as int]@);
                assert(self@.skip(i as int).skip(1) =~= self@.skip(i + 1));
            }
            if same(self.bursts[i].kind.as_str(), kind) {
                return i;
            }
            i += 1;
        }
        i
    }

    /// Writes the event when it starts a burst of its kind, else counts it.
    /// Returns the lines to write.
    pub fn burst(&mut self, kind: &str, event: &str, now: u128) -> (r: Vec<String>)
        requires
            now + BURST <= u128::MAX,
            forall|i: int| 0 <= i < old(self)@.len() ==> (#[trigger] old(self)@[i]).repeats < u64::MAX,
        ensures
            final(self)@ == after_event(old(self)@, kind@, now),
            crate::text::seen(r@) == event_lines(old(self)@, kind@, event@, now),
    {
        let mut lines: Vec<String> = Vec::new();
        let i = self.find(kind);
        let ghost before = self@;
        if i < self.bursts.len() {
            proof {
                assert(before[i as int] == self.bursts@[i as int]@);
            }
            if now < self.bursts[i].until {
                let b = Burst {
                    kind: self.bursts[i].kind.clone(),
                    until: self.bursts[i].until,
                    repeats: self.bursts[i].repeats + 1,
                };
                self.bursts.set(i, b);
                proof {
                    assert(self@ =~= after_event(before, kind@, now));
                    assert(crate::text::seen(lines@) =~= seq![]);
                }
                return lines;
            }
            if self.bursts[i].repeats > 0 {
                lines.push(repeated_line(kind, self.bursts[i].repeats));
            }
            proof {
                assert(before[i as int].kind == kind@) by {
                    lemma_place(before, kind@);
                }
                assert(crate::text::seen(lines@) =~= summary(before[i as int]));
            }
            self.bursts.set(i, Burst { kind: kind.to_owned(), until: now + BURST, repeats: 0 });
        } else {
            self.bursts.push(Burst { kind: kind.to_owned(), until: now + BURST, repeats: 0 });
            proof {
                assert(crate::text::seen(lines@) =~= seq![]);
            }
        }
        let s = event.to_owned();
        proof {
            crate::text::lemma_seen_push(lines@, s);
        }
        lines.push(s);
        proof {
            assert(self@ =~= after_event(before, kind@, now));
            assert(crate::text::seen(lines@) =~= event_lines(before, kind@, event@, now));
        }
        lines
    }

    /// Writes the counts of the bursts that are over. Returns the lines.
    pub fn flush(&mut self, now: u128) -> (r: Vec<String>)
        ensures
            final(self)@ == going(old(self)@, now),
            crate::text::seen(r@) == summaries(old(self)@, now),
    {
        let ghost all = self@;
        let mut left: Vec<Burst> = Vec::new();
        let mut lines: Vec<String> = Vec::new();
        let mut i: usize = 0;
        proof {
            assert(all.take(0) =~= seq![]);
            assert(left@.map_values(|b: Burst| b@) =~= seq![]);
            assert(crate::text::seen(lines@) =~= seq![]);
        }
        while i < self.bursts.len()
            invariant
                i <= self.bursts@.len(),
                all == self@,
                left@.map_values(|b: Burst| b@) == going(all.take(i as int), now),
                crate::text::seen(lines@) == summaries(all.take(i as int), now),
            decreases self.bursts@.len() - i,
        {
            proof {
                assert(all.take(i + 1).drop_last() =~= all.take(i as int));
                assert(all.take(i + 1).last() == self.bursts@[i as int]@);
            }
            let b = &self.bursts[i];
            let ghost had = lines@;
            let ghost kept = left@;
            if now >= b.until {
                if b.repeats > 0 {
                    lines.push(repeated_line(b.kind.as_str(), b.repeats));
                }
                proof {
                    assert(crate::text::seen(lines@) =~= crate::text::seen(had) + summary(b@));
                }
            } else {
                left.push(Burst { kind: b.kind.clone(), until: b.until, repeats: b.repeats });
                proof {
                    assert(left@.map_values(|b: Burst| b@) =~= kept.map_values(
                        |b: Burst| b@,
                    ).push(b@));
                }
            }
            i += 1;
        }
        proof {
            assert(all.take(i as int) =~= all);
        }
        self.bursts = left;
        lines
    }
}

proof fn lemma_place(runs: Seq<Run>, kind: Seq<char>)
    ensures
        0 <= place(runs, kind) <= runs.len(),
        place(runs, kind) < runs.len() ==> runs[place(runs, kind)].kind == kind,
    decreases runs.len(),
{
    if runs.len() > 0 && runs[0].kind != kind {
        lemma_place(runs.skip(1), kind);
    }
}

/// A line of the journal: when, and what.
pub fn stamped(micros: u128, event: &str) -> (r: String)
    ensures
        r@ == crate::text::decimal(micros as nat) + " "@ + event@,
{
    let mut s = show(micros);
    s.append(" ");
    s.append(event);
    s
}

/// An event is written or counted, never lost: within a burst the count
/// goes up by one; otherwise the event itself is the last line written.
pub proof fn lemma_no_event_is_lost(
    runs: Seq<Run>,
    kind: Seq<char>,
    event: Seq<char>,
    now: u128,
)
    requires
        forall|i: int| 0 <= i < runs.len() ==> (#[trigger] runs[i]).repeats < u64::MAX,
    ensures
        ({
            let at = place(runs, kind);
            let lines = event_lines(runs, kind, event, now);
            let after = after_event(runs, kind, now);
            if lines.len() == 0 {
                at < runs.len() && after[at].repeats == runs[at].repeats + 1
            } else {
                lines.last() == event && after[at].repeats == 0
            }
        }),
{
    lemma_place(runs, kind);
    let at = place(runs, kind);
    if at < runs.len() && now >= runs[at].until {
        let l = summary(runs[at]).push(event);
        assert(l.last() == event);
    }
}

proof fn lemma_place_is(runs: Seq<Run>, kind: Seq<char>, i: int)
    requires
        0 <= i <= runs.len(),
        forall|j: int| 0 <= j < i ==> (#[trigger] runs[j]).kind != kind,
        i < runs.len() ==> runs[i].kind == kind,
    ensures
        place(runs, kind) == i,
    decreases i,
{
    if i > 0 {
        let r = runs.skip(1);
        assert forall|j: int| 0 <= j < i - 1 implies (#[trigger] r[j]).kind != kind by {
            assert(r[j] == runs[j + 1]);
        }
        assert(runs[0].kind != kind);
        lemma_place_is(r, kind, i - 1);
    }
}

/// The first event of a kind is written and begins a burst of ten seconds.
pub proof fn lemma_a_burst_begins(runs: Seq<Run>, kind: Seq<char>, event: Seq<char>, now: u128)
    requires
        now + 10_000_000_000 <= u128::MAX,
        forall|j: int| 0 <= j < runs.len() ==> (#[trigger] runs[j]).kind != kind,
    ensures
        event_lines(runs, kind, event, now) == seq![event],
        after_event(runs, kind, now) == runs.push(
            Run { kind, until: (now + 10_000_000_000) as u128, repeats: 0 },
        ),
{
    lemma_place_is(runs, kind, runs.len() as int);
}

/// Within a burst of its kind an event is counted and not written; after
/// its end the count is written, if anything was counted, then the event,
/// and a new burst begins. Bursts of other kinds stay as they are.
pub proof fn lemma_a_burst_goes_on(
    runs: Seq<Run>,
    i: int,
    event: Seq<char>,
    now: u128,
)
    requires
        now + 10_000_000_000 <= u128::MAX,
        0 <= i < runs.len(),
        runs[i].repeats < u64::MAX,
        forall|j: int| 0 <= j < i ==> (#[trigger] runs[j]).kind != runs[i].kind,
    ensures
        ({
            let k = runs[i].kind;
            let n = runs[i].repeats;
            &&& now < runs[i].until ==> {
                &&& event_lines(runs, k, event, now) == Seq::<Seq<char>>::empty()
                &&& after_event(runs, k, now) == runs.update(
                    i,
                    Run { kind: k, until: runs[i].until, repeats: (n + 1) as u64 },
                )
            }
            &&& now >= runs[i].until ==> {
                &&& event_lines(runs, k, event, now) == if n > 0 {
                    seq![
                        k + " repeated "@ + crate::text::decimal(n as nat)
                            + " more times within 10s"@,
                        event,
                    ]
                } else {
                    seq![event]
                }
                &&& after_event(runs, k, now) == runs.update(
                    i,
                    Run { kind: k, until: (now + 10_000_000_000) as u128, repeats: 0 },
                )
            }
        }),
{
    lemma_place_is(runs, runs[i].kind, i);
    assert(Seq::<Seq<char>>::empty().push(event) =~= seq![event]);
    assert(seq![repeated(runs[i].kind, runs[i].repeats)].push(event) =~= seq![
        repeated(runs[i].kind, runs[i].repeats),
        event,
    ]);
}

/// A flush takes away the bursts that are over and leaves the others; the
/// counts of those that counted anything are written, in order.
pub proof fn lemma_what_a_flush_does(runs: Seq<Run>, now: u128)
    ensures
        going(runs, now) == runs.filter(|r: Run| now < r.until),
        summaries(runs, now) == runs.filter(
            |r: Run| r.until <= now && r.repeats > 0,
        ).map_values(
            |r: Run|
                r.kind + " repeated "@ + crate::text::decimal(r.repeats as nat)
                    + " more times within 10s"@,
        ),
    decreases runs.len(),
{
    reveal(Seq::filter);
    let p = |r: Run| r.until <= now && r.repeats > 0;
    let f = |r: Run|
        r.kind + " repeated "@ + crate::text::decimal(r.repeats as nat)
            + " more times within 10s"@;
    if runs.len() > 0 {
        lemma_what_a_flush_does(runs.drop_last(), now);
    }
    assert(going(runs, now) =~= runs.filter(|r: Run| now < r.until));
    assert(summaries(runs, now) =~= runs.filter(p).map_values(f));
}

} // verus!
