use cardsharp::schedule::{
    Grade, ReviewSession, SessionPhase, StateChange, UNIT, card_is_due, clamp_retention,
    review_outcome,
};

#[test]
fn grades_are_ordinals() {
    assert_eq!(Grade::Again.number(), 1);
    assert_eq!(Grade::Hard.number(), 2);
    assert_eq!(Grade::Good.number(), 3);
    assert_eq!(Grade::Easy.number(), 4);
    assert!(!Grade::Again.is_passing());
    assert!(Grade::Hard.is_passing());
    assert!(Grade::Good.is_passing());
    assert!(Grade::Easy.is_passing());
}

#[test]
fn retention_is_clamped() {
    assert_eq!(clamp_retention(-3), 0);
    assert_eq!(clamp_retention(0), 0);
    assert_eq!(clamp_retention(9000), 9000);
    assert_eq!(clamp_retention(10000), UNIT);
    assert_eq!(clamp_retention(20000), UNIT);
}

#[test]
fn due_decision() {
    // Never-reviewed cards are always due.
    assert!(card_is_due(None, 9000));
    assert!(card_is_due(None, 0));
    // A card whose predicted recall meets the target is skipped.
    assert!(!card_is_due(Some(9000), 9000));
    assert!(!card_is_due(Some(9999), 9000));
    assert!(card_is_due(Some(8999), 9000));
    // With the target at zero no recall estimate falls below it, so every
    // previously reviewed card is skipped.
    assert!(!card_is_due(Some(0), 0));
    // With the target at one whole, every imperfect recall is presented.
    assert!(card_is_due(Some(9999), UNIT));
}

#[test]
fn outcome_policy() {
    // First review seeds from the grade, whatever it is.
    assert_eq!(review_outcome(false, Grade::Again), StateChange::Seed(Grade::Again));
    assert_eq!(review_outcome(false, Grade::Good), StateChange::Seed(Grade::Good));
    // A known card updates on a passing grade.
    assert_eq!(review_outcome(true, Grade::Hard), StateChange::Update(Grade::Hard));
    assert_eq!(review_outcome(true, Grade::Easy), StateChange::Update(Grade::Easy));
    // A pure miss never mutates the stored memory state.
    assert_eq!(review_outcome(true, Grade::Again), StateChange::Keep);
}

#[test]
fn session_presents_only_due_cards() {
    // Two cards: the first was just reviewed (recall high), the second is
    // new. Target retention 0.9.
    let mut s = ReviewSession::new(9000, 2);
    assert_eq!(s.phase, SessionPhase::Scanning);

    // Card 0 meets the target: skipped, never presented this pass.
    assert!(!s.consider(Some(9500)));
    assert_eq!(s.phase, SessionPhase::Scanning);
    assert_eq!(s.current, 1);

    // Card 1 has no record: always presented.
    assert!(s.consider(None));
    assert_eq!(s.phase, SessionPhase::Presenting);

    // Grade Good on a first review: seed.
    let change = s.grade(false, Grade::Good);
    assert_eq!(change, StateChange::Seed(Grade::Good));
    assert_eq!(s.phase, SessionPhase::Recording);

    s.recorded();
    assert_eq!(s.phase, SessionPhase::Scanning);
    assert_eq!(s.current, 2);
    assert_eq!(s.reviewed_this_pass, 1);

    // The pass reviewed one card, so another pass starts.
    assert!(s.end_pass());
    assert_eq!(s.current, 0);
    assert_eq!(s.reviewed_this_pass, 0);

    // Second pass: both cards now meet the target; the pass reviews
    // nothing and the session ends.
    assert!(!s.consider(Some(9500)));
    assert!(!s.consider(Some(9900)));
    assert!(!s.end_pass());
    assert!(s.done());
    assert_eq!(s.phase, SessionPhase::Done);
}

#[test]
fn session_abort_ends_immediately() {
    let mut s = ReviewSession::new(9000, 1);
    assert!(s.consider(None));
    s.abort();
    assert!(s.done());
}

#[test]
fn session_clamps_raw_retention() {
    let s = ReviewSession::new(123456, 0);
    assert_eq!(s.retention, UNIT);
    let s = ReviewSession::new(-7, 0);
    assert_eq!(s.retention, 0);
}
