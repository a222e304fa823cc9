use mac_gate::degraded::{
    age, carrying, Degradation, Verdict, GRACE, GROWTH, MINUTE, SECOND, YOUNG,
};

const HOUR: u128 = 60 * MINUTE;
const START: u128 = 1000 * HOUR;
/// A tunnel that is not fresh is checked this often.
const STEP: u128 = 30 * SECOND;
/// A reconnect, its confirmation, and the wait that lets the new
/// tunnel out of the young window before it is checked again.
const AFTER_RESTART: u128 = 40 * SECOND;

#[test]
fn both_pieces_of_evidence_are_needed() {
    let up = 10 * MINUTE;
    assert!(carrying(up, Some(179), true));
    // A handshake that old is not an answer any more.
    assert!(!carrying(up, Some(181), true));
    // Nothing comes back, whatever the handshake says.
    assert!(!carrying(up, Some(10), false));
    // The peer has never answered at all.
    assert!(!carrying(up, None, true));
}

#[test]
fn a_young_tunnel_says_nothing_about_itself() {
    // Raising a tunnel is a handshake, and the answer to it lands in
    // rx: a flow cut at birth looks alive by both.
    assert!(!carrying(29 * SECOND, Some(0), true));
    assert!(carrying(YOUNG, Some(0), true));
}

#[test]
fn a_woken_tunnel_is_young_again() {
    let now = START;
    let up = now - HOUR;
    // Undisturbed for an hour: the handshake and the bytes are
    // evidence.
    assert!(carrying(age(up, up, now), Some(10), true));
    // Woken, or moved to another network, five seconds ago: they are
    // not, and only traffic through the tunnel decides again.
    let disturbed = now - 5 * SECOND;
    assert!(!carrying(age(up, disturbed, now), Some(10), true));
    // The young window passes, and the tunnel speaks for itself again.
    let disturbed = now - YOUNG;
    assert!(carrying(age(up, disturbed, now), Some(10), true));
}

#[test]
fn a_tunnel_that_says_nothing_is_down_at_once() {
    let now = START;
    let mut d = Degradation::new(GRACE);
    for i in 0..10 {
        assert_eq!(d.failed(now + STEP * i, false), Verdict::Down);
    }
    assert_eq!(d.patience(), GRACE);
}

#[test]
fn a_long_degradation_costs_units_of_reconnects() {
    // A rotten path under a tunnel long up, hour after hour: every
    // check finds the handshakes coming and rx growing, and no probe
    // gets through. Without the patience below, each of those checks
    // would cost a reconnect, and every session of the Mac with it.
    let start = START;
    let end = start + 85 * MINUTE;
    let mut d = Degradation::new(GRACE);
    let mut at = start;
    let mut restarts = 0;
    let mut waits = Vec::new();
    while at < end {
        match d.failed(at, true) {
            Verdict::Left(_) => at += STEP,
            Verdict::Restart => {
                restarts += 1;
                waits.push(d.patience() / SECOND);
                // The path is still rotten, so it did not help.
                d.harder();
                at += AFTER_RESTART;
            }
            Verdict::Down => unreachable!("the tunnel carries"),
        }
    }
    assert_eq!(restarts, 5);
    assert_eq!(waits, vec![180, 360, 720, 1440, 1440]);
}

#[test]
fn a_tunnel_that_answers_again_gets_its_patience_back() {
    let now = START;
    let mut d = Degradation::new(GRACE);
    assert_eq!(d.failed(now, true), Verdict::Left(0));
    assert_eq!(d.failed(now + GRACE, true), Verdict::Restart);
    d.harder();
    assert_eq!(d.patience(), GRACE * 2);
    d.passed();
    assert_eq!(d.patience(), GRACE);
    // The clock starts anew as well: the whole grace is there to spend.
    let later = now + HOUR;
    assert_eq!(d.failed(later, true), Verdict::Left(0));
    assert_eq!(d.failed(later + STEP, true), Verdict::Left(STEP));
    assert_eq!(d.failed(later + GRACE, true), Verdict::Restart);
}

#[test]
fn patience_grows_eightfold_and_no_further() {
    let mut d = Degradation::new(GRACE);
    for _ in 0..10 {
        d.harder();
    }
    assert_eq!(d.patience(), GRACE * GROWTH);
}

#[test]
fn zero_grace_never_runs_out() {
    let now = START;
    let mut d = Degradation::new(0);
    assert_eq!(d.failed(now, true), Verdict::Left(0));
    let day = 24 * HOUR;
    assert_eq!(d.failed(now + day, true), Verdict::Left(day));
    d.harder();
    assert_eq!(d.patience(), 0);
}
