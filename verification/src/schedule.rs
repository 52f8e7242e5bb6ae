//! The review orchestrator's decisions: which card is due, what a grade
//! does to the stored record, and when the session's pass loop stops.
//!
//! Recall probabilities and the target retention are handled in permyriad
//! (ten-thousandths), so the decisions are exact integer comparisons; the
//! caller turns its probability estimates into permyriad before asking.

use vstd::prelude::*;

verus! {

/// A review grade. Grades are totally ordered, Again < Hard < Good < Easy,
/// and only the ordinal value enters any formula.
#[derive(Debug, Copy, Clone, PartialEq, Eq, Structural)]
pub enum Grade {
    Again,
    Hard,
    Good,
    Easy,
}

impl Grade {
    /// The grade's ordinal value, 1 through 4.
    pub open spec fn spec_number(self) -> u8 {
        match self {
            Grade::Again => 1,
            Grade::Hard => 2,
            Grade::Good => 3,
            Grade::Easy => 4,
        }
    }

    /// The grade's ordinal value, 1 through 4.
    pub fn number(self) -> (n: u8)
        ensures
            n == self.spec_number(),
            1 <= n <= 4,
    {
        match self {
            Grade::Again => 1,
            Grade::Hard => 2,
            Grade::Good => 3,
            Grade::Easy => 4,
        }
    }

    /// Whether the grade counts as a pass: every grade above Again.
    pub fn is_passing(self) -> (b: bool)
        ensures
            b == !(self is Again),
    {
        match self {
            Grade::Again => false,
            _ => true,
        }
    }
}

/// One whole, expressed in permyriad: probabilities live in `[0, UNIT]`.
pub const UNIT: u32 = 10000;

/// A raw target retention forced into `[0, UNIT]`: out-of-range targets
/// are recovered by clamping, never rejected.
pub open spec fn spec_clamp_retention(raw: i64) -> u32 {
    if raw < 0 {
        0
    } else if raw > 10000 {
        10000
    } else {
        raw as u32
    }
}

/// Clamps a raw permyriad retention target into `[0, UNIT]`.
pub fn clamp_retention(raw: i64) -> (r: u32)
    ensures
        r == spec_clamp_retention(raw),
        r <= UNIT,
{
    if raw < 0 {
        0
    } else if raw > 10000 {
        10000
    } else {
        raw as u32
    }
}

/// Whether a card is due: it has never been reviewed, or its predicted
/// recall (in permyriad) has fallen below the target retention.
pub open spec fn spec_is_due(recall: Option<u32>, retention: u32) -> bool {
    match recall {
        Option::None => true,
        Option::Some(p) => p < retention,
    }
}

/// Decides whether a card is due for review this pass.
pub fn card_is_due(recall: Option<u32>, retention: u32) -> (b: bool)
    ensures
        b == spec_is_due(recall, retention),
{
    match recall {
        Option::None => true,
        Option::Some(p) => p < retention,
    }
}

/// A card whose predicted recall still meets the target retention is never
/// due, whatever the rest of the session looks like.
pub proof fn lemma_due_skip(recall: u32, retention: u32)
    ensures
        recall >= retention ==> !spec_is_due(Some(recall), retention),
{
}

/// What a review outcome does to the card's stored record.
#[derive(Debug, Copy, Clone, PartialEq, Eq, Structural)]
pub enum StateChange {
    /// First review: seed a fresh memory state from the grade's table entry.
    Seed(Grade),
    /// Passing review of a known card: replace the state through the memory
    /// model's update.
    Update(Grade),
    /// A miss (Again) on a known card: record the review, but keep the
    /// memory state untouched. A pure miss never mutates memory state.
    Keep,
}

/// The policy for a graded review: a first review seeds from the grade; a
/// known card updates on a passing grade and keeps its state on Again.
pub fn review_outcome(has_record: bool, grade: Grade) -> (c: StateChange)
    ensures
        !has_record ==> c == StateChange::Seed(grade),
        has_record && grade is Again ==> c == StateChange::Keep,
        has_record && !(grade is Again) ==> c == StateChange::Update(grade),
{
    if !has_record {
        StateChange::Seed(grade)
    } else {
        match grade {
            Grade::Again => StateChange::Keep,
            _ => StateChange::Update(grade),
        }
    }
}

/// Where a review session stands.
#[derive(Debug, Copy, Clone, PartialEq, Eq, Structural)]
pub enum SessionPhase {
    /// Walking the card list, deciding which card is due.
    Scanning,
    /// A due card is on screen, awaiting a grade or an abort.
    Presenting,
    /// A grade came in; the store write is owed.
    Recording,
    /// A full pass reviewed nothing, or the user aborted.
    Done,
}

/// One review session over a fixed list of located cards. The session
/// sweeps the list in passes and stops after the first pass that reviews
/// nothing, or on an abort. The caller performs the outside work: it
/// estimates recall, shows cards, and writes the store; this machine makes
/// every decision.
pub struct ReviewSession {
    /// Target retention in permyriad, already clamped into `[0, UNIT]`.
    pub retention: u32,
    /// The index of the card under consideration.
    pub current: usize,
    /// How many cards the session's list holds.
    pub n_cards: usize,
    /// How many cards have been reviewed in the current pass.
    pub reviewed_this_pass: usize,
    /// Where the session stands.
    pub phase: SessionPhase,
}

impl ReviewSession {
    /// The session's invariant.
    pub open spec fn wf(self) -> bool {
        &&& self.retention <= 10000
        &&& self.current <= self.n_cards
        &&& self.reviewed_this_pass <= self.current
        &&& (self.phase is Presenting || self.phase is Recording ==> self.current < self.n_cards)
    }

    /// Opens a session over `n_cards` cards with a raw permyriad retention
    /// target, which is clamped into range.
    pub fn new(raw_retention: i64, n_cards: usize) -> (s: ReviewSession)
        ensures
            s.wf(),
            s.retention == spec_clamp_retention(raw_retention),
            s.current == 0,
            s.n_cards == n_cards,
            s.reviewed_this_pass == 0,
            s.phase is Scanning,
    {
        ReviewSession {
            retention: clamp_retention(raw_retention),
            current: 0,
            n_cards,
            reviewed_this_pass: 0,
            phase: SessionPhase::Scanning,
        }
    }

    /// Considers the current card, given its predicted recall (`None` for a
    /// card never reviewed). A due card is presented; a card whose recall
    /// meets the target is skipped and never presented this pass.
    pub fn consider(&mut self, recall: Option<u32>) -> (present: bool)
        requires
            old(self).wf(),
            old(self).phase is Scanning,
            old(self).current < old(self).n_cards,
        ensures
            final(self).wf(),
            present == spec_is_due(recall, old(self).retention),
            final(self).retention == old(self).retention,
            final(self).n_cards == old(self).n_cards,
            final(self).reviewed_this_pass == old(self).reviewed_this_pass,
            present ==> final(self).phase is Presenting && final(self).current == old(
                self).current,
            !present ==> final(self).phase is Scanning && final(self).current == old(
                self).current + 1,
    {
        if card_is_due(recall, self.retention) {
            self.phase = SessionPhase::Presenting;
            true
        } else {
            self.current = self.current + 1;
            false
        }
    }

    /// Takes the grade for the presented card and says how the stored
    /// record must change: seeded on a first review, replaced on a passing
    /// grade, and kept untouched on a miss.
    pub fn grade(&mut self, has_record: bool, grade: Grade) -> (c: StateChange)
        requires
            old(self).wf(),
            old(self).phase is Presenting,
        ensures
            final(self).wf(),
            final(self).phase is Recording,
            final(self).retention == old(self).retention,
            final(self).current == old(self).current,
            final(self).n_cards == old(self).n_cards,
            final(self).reviewed_this_pass == old(self).reviewed_this_pass,
            !has_record ==> c == StateChange::Seed(grade),
            has_record && grade is Again ==> c == StateChange::Keep,
            has_record && !(grade is Again) ==> c == StateChange::Update(grade),
    {
        self.phase = SessionPhase::Recording;
        review_outcome(has_record, grade)
    }

    /// The store write went through: the review is counted and the scan
    /// moves to the next card.
    pub fn recorded(&mut self)
        requires
            old(self).wf(),
            old(self).phase is Recording,
        ensures
            final(self).wf(),
            final(self).phase is Scanning,
            final(self).retention == old(self).retention,
            final(self).n_cards == old(self).n_cards,
            final(self).current == old(self).current + 1,
            final(self).reviewed_this_pass == old(self).reviewed_this_pass + 1,
    {
        self.reviewed_this_pass = self.reviewed_this_pass + 1;
        self.current = self.current + 1;
        self.phase = SessionPhase::Scanning;
    }

    /// An abort ends the whole session at once; recorded reviews stay
    /// recorded, the card on screen is discarded.
    pub fn abort(&mut self)
        requires
            old(self).wf(),
        ensures
            final(self).wf(),
            final(self).phase is Done,
            final(self).retention == old(self).retention,
            final(self).n_cards == old(self).n_cards,
    {
        self.phase = SessionPhase::Done;
        self.current = 0;
        self.reviewed_this_pass = 0;
    }

    /// The pass swept the whole list. A pass that reviewed nothing ends the
    /// session (the loop's termination predicate); otherwise the next pass
    /// starts at the top of the list.
    pub fn end_pass(&mut self) -> (again: bool)
        requires
            old(self).wf(),
            old(self).phase is Scanning,
            old(self).current == old(self).n_cards,
        ensures
            final(self).wf(),
            final(self).retention == old(self).retention,
            final(self).n_cards == old(self).n_cards,
            again == (old(self).reviewed_this_pass > 0),
            again ==> final(self).phase is Scanning && final(self).current == 0 && final(
                self).reviewed_this_pass == 0,
            !again ==> final(self).phase is Done,
    {
        if self.reviewed_this_pass > 0 {
            self.reviewed_this_pass = 0;
            self.current = 0;
            true
        } else {
            self.phase = SessionPhase::Done;
            false
        }
    }

    /// Whether the session is over.
    pub fn done(&self) -> (b: bool)
        ensures
            b == (self.phase is Done),
    {
        match self.phase {
            SessionPhase::Done => true,
            _ => false,
        }
    }
}

} // verus!
