//! Decisions over fetched match summaries: which summaries to skip, when
//! paging must stop, when a failure is recorded against an agent, when the
//! logic version bumps, and how a downloaded replay turns into a ledger
//! match.

use vstd::prelude::*;

use crate::agent::Agent;
use crate::rating::Outcome;
use crate::stats::{lemma_wf_same_tables, match_view, Match, Stats};

verus! {

/// Identity of one submitted program: its token, display name and version.
pub struct CodeInfo {
    pub id: String,
    pub entity: String,
    pub version: u32,
}

/// One side of a match summary: the (possibly absent) code identity, the
/// owning user, the reported score and the (possibly absent) end state.
pub struct SideInfo {
    pub code: Option<CodeInfo>,
    pub user: String,
    pub score: i16,
    pub end_state: Option<String>,
}

/// The judging state of a summary, as reported by the platform.
#[derive(Clone, Copy, PartialEq, Eq, Structural, Debug)]
pub enum MatchState {
    Queued,
    Judging,
    JudgingFailed,
    Finalized,
}

/// One fetched match summary.
pub struct MatchSummary {
    pub id: u32,
    pub logic_version: Option<u16>,
    pub state: MatchState,
    pub side0: SideInfo,
    pub side1: SideInfo,
}

/// What the paging loop does after one summary: go on to the next
/// summary, stop fetching altogether, or download this match's replay.
#[derive(Clone, Copy, PartialEq, Eq, Structural, Debug)]
pub enum SummaryStep {
    Next,
    Stop,
    NeedReplay,
}

/// How a summary is classified against the ledger, in the order the
/// checks are made.
#[derive(Clone, Copy, PartialEq, Eq, Structural, Debug)]
pub enum SummaryClass {
    /// Still queued or judging: remember it in the awaiting watermark.
    Pending,
    /// Judging failed: skip.
    Failed,
    /// No logic version: skip.
    NoVersion,
    /// Older logic version: everything after it is stale, stop.
    OldVersion,
    /// Already known and older than the awaiting watermark: stop.
    SeenOld,
    /// Already known: skip.
    SeenNew,
    /// A side has no code identity: skip.
    NoCode,
    /// Tied score or a side did not end well: skip, recording a failure
    /// against a unilaterally failing side.
    Invalid,
    /// A finalized, valid match: its replay decides the roles.
    Ready,
}

impl SideInfo {
    /// The side ended in the state that means successful completion.
    pub open spec fn spec_ok(self) -> bool {
        &&& self.end_state is Some
        &&& self.end_state->0@ == "OK"@
    }

    /// Tests the end state of the side.
    pub fn end_ok(&self) -> (b: bool)
        ensures
            b == self.spec_ok(),
    {
        match &self.end_state {
            Some(e) => {
                let oks: String = "OK".to_owned();
                *e == oks
            },
            None => false,
        }
    }
}

/// The classification of a summary against a ledger and the awaiting
/// watermark, following exactly the order of the checks.
pub open spec fn classify(pre: Stats, s: MatchSummary, awaiting: u32) -> SummaryClass {
    if s.state is Judging || s.state is Queued {
        SummaryClass::Pending
    } else if s.state is JudgingFailed {
        SummaryClass::Failed
    } else if s.logic_version is None {
        SummaryClass::NoVersion
    } else if s.logic_version->0 < pre.logic_version {
        SummaryClass::OldVersion
    } else if pre.spec_has_match(s.id) {
        if s.id < awaiting {
            SummaryClass::SeenOld
        } else {
            SummaryClass::SeenNew
        }
    } else if s.side0.code is None || s.side1.code is None {
        SummaryClass::NoCode
    } else if s.side0.score == s.side1.score || !s.side0.spec_ok() || !s.side1.spec_ok() {
        SummaryClass::Invalid
    } else {
        SummaryClass::Ready
    }
}

/// A unilateral failure of side zero: it did not end well while the other
/// side did, and its code identity is known.
pub open spec fn side0_failed(s: MatchSummary) -> bool {
    &&& !s.side0.spec_ok()
    &&& s.side1.spec_ok()
    &&& s.side0.code is Some
}

/// A unilateral failure of side one.
pub open spec fn side1_failed(s: MatchSummary) -> bool {
    &&& !s.side1.spec_ok()
    &&& s.side0.spec_ok()
    &&& s.side1.code is Some
}

impl Stats {
    /// Applies one fetched summary to the ledger and says how the paging
    /// loop goes on. A pending summary lowers the awaiting watermark; an
    /// invalid one records a failure against a unilaterally failing side
    /// whose agent is registered; a summary of a newer logic version
    /// clears the ledger and installs that version; a ready summary asks
    /// for its replay and changes nothing yet.
    pub fn apply_summary(&mut self, s: &MatchSummary, awaiting: u32) -> (step: SummaryStep)
        requires
            old(self).wf(),
        ensures
            final(self).wf(),
            step == (match classify(*old(self), *s, awaiting) {
                SummaryClass::Pending => SummaryStep::Next,
                SummaryClass::Failed => SummaryStep::Next,
                SummaryClass::NoVersion => SummaryStep::Next,
                SummaryClass::OldVersion => SummaryStep::Stop,
                SummaryClass::SeenOld => SummaryStep::Stop,
                SummaryClass::SeenNew => SummaryStep::Next,
                SummaryClass::NoCode => SummaryStep::Next,
                SummaryClass::Invalid => SummaryStep::Next,
                SummaryClass::Ready => SummaryStep::NeedReplay,
            }),
            (classify(*old(self), *s, awaiting) is Pending) ==> *final(self) == (Stats {
                awaiting: s.id,
                ..*old(self)
            }),
            ((classify(*old(self), *s, awaiting) is Failed) || (classify(
                *old(self),
                *s,
                awaiting,
            ) is NoVersion) || (classify(*old(self), *s, awaiting) is OldVersion) || (classify(
                *old(self),
                *s,
                awaiting,
            ) is SeenOld) || (classify(*old(self), *s, awaiting) is SeenNew) || (classify(
                *old(self),
                *s,
                awaiting,
            ) is NoCode)) ==> *final(self) == *old(self),
            (classify(*old(self), *s, awaiting) is Invalid) ==> ({
                &&& final(self).matches == old(self).matches
                &&& final(self).logic_version == old(self).logic_version
                &&& final(self).awaiting == old(self).awaiting
                &&& final(self).n_agents() == old(self).n_agents()
                &&& forall|j: int|
                    0 <= j < old(self).n_agents() ==> final(self).token(j) == old(self).token(j)
                &&& forall|j: int|
                    0 <= j < old(self).n_agents() ==> ((#[trigger] final(self).agent(j)).failure
                        == old(self).agent(j).failure || final(self).agent(
                        j,
                    ).failure@.to_set() == old(self).agent(j).failure@.to_set().insert(s.id))
                &&& forall|j: int|
                    0 <= j < old(self).n_agents() ==> (#[trigger] final(self).agent(
                        j,
                    )).failure@.to_set() != old(self).agent(j).failure@.to_set() ==> (
                    side0_failed(*s) && final(self).token(j) == s.side0.code->0.id@) || (
                    side1_failed(*s) && final(self).token(j) == s.side1.code->0.id@)
                &&& side0_failed(*s) && old(self).spec_has_token(s.side0.code->0.id@)
                    ==> final(self).agent(
                    old(self).spec_token_index(s.side0.code->0.id@),
                ).failure@.to_set() == old(self).agent(
                    old(self).spec_token_index(s.side0.code->0.id@),
                ).failure@.to_set().insert(s.id)
                &&& side1_failed(*s) && old(self).spec_has_token(s.side1.code->0.id@)
                    ==> final(self).agent(
                    old(self).spec_token_index(s.side1.code->0.id@),
                ).failure@.to_set() == old(self).agent(
                    old(self).spec_token_index(s.side1.code->0.id@),
                ).failure@.to_set().insert(s.id)
                &&& forall|j: int|
                    0 <= j < old(self).n_agents() ==> {
                        let a = #[trigger] final(self).agent(j);
                        let b = old(self).agent(j);
                        &&& a.user == b.user
                        &&& a.name == b.name
                        &&& a.version == b.version
                        &&& a.rollman_elo == b.rollman_elo
                        &&& a.ghost_elo == b.ghost_elo
                        &&& a.rollman_count == b.rollman_count
                        &&& a.ghost_count == b.ghost_count
                        &&& a.rollman_time == b.rollman_time
                        &&& a.ghost_time == b.ghost_time
                        &&& a.rollman_history == b.rollman_history
                        &&& a.ghost_history == b.ghost_history
                        &&& a.pair_counts == b.pair_counts
                    }
            }),
            (classify(*old(self), *s, awaiting) is Ready) ==> ({
                &&& !final(self).spec_has_match(s.id)
                &&& (s.logic_version->0 == old(self).logic_version ==> *final(self) == *old(
                    self,
                ))
                &&& (s.logic_version->0 > old(self).logic_version ==> {
                    &&& final(self).matches@.len() == 0
                    &&& final(self).logic_version == s.logic_version->0
                    &&& final(self).awaiting == 0
                    &&& final(self).n_agents() == old(self).n_agents()
                    &&& forall|j: int|
                        0 <= j < old(self).n_agents() ==> final(self).token(j) == old(
                            self,
                        ).token(j)
                    &&& forall|j: int|
                        0 <= j < old(self).n_agents() ==> (#[trigger] final(self).agent(
                            j,
                        )).identity_eq(old(self).agent(j))
                    &&& forall|j: int|
                        0 <= j < old(self).n_agents() ==> (#[trigger] final(self).agent(
                            j,
                        )).is_reset()
                })
            }),
    {
        match s.state {
            MatchState::Judging | MatchState::Queued => {
                self.awaiting = s.id;
                proof {
                    lemma_wf_same_tables(*old(self), *self);
                }
                return SummaryStep::Next;
            },
            MatchState::JudgingFailed => {
                return SummaryStep::Next;
            },
            MatchState::Finalized => {},
        }
        let lv = match s.logic_version {
            Some(lv) => lv,
            None => {
                return SummaryStep::Next;
            },
        };
        if lv < self.logic_version {
            return SummaryStep::Stop;
        }
        if self.contains_match(s.id) {
            if s.id < awaiting {
                return SummaryStep::Stop;
            }
            return SummaryStep::Next;
        }
        let (c0, c1) = match (&s.side0.code, &s.side1.code) {
            (Some(c0), Some(c1)) => (c0, c1),
            _ => {
                return SummaryStep::Next;
            },
        };
        let ok0 = s.side0.end_ok();
        let ok1 = s.side1.end_ok();
        if s.side0.score == s.side1.score || !ok0 || !ok1 {
            if !ok0 && ok1 {
                if let Some(i) = self.find_agent(&c0.id) {
                    self.record_failure_at(i, s.id);
                }
            }
            if !ok1 && ok0 {
                if let Some(i) = self.find_agent(&c1.id) {
                    self.record_failure_at(i, s.id);
                }
            }
            return SummaryStep::Next;
        }
        if lv > self.logic_version {
            self.clear();
            let ghost midc = *self;
            self.logic_version = lv;
            proof {
                lemma_wf_same_tables(midc, *self);
                assert forall|j: int|
                    0 <= j < self.n_agents() implies (#[trigger] self.agent(j)) == midc.agent(j)
                        && self.token(j) == midc.token(j) by {}
                assert forall|j: int|
                    0 <= j < self.n_agents() implies (#[trigger] self.agent(j)).identity_eq(
                    old(self).agent(j),
                ) && self.agent(j).is_reset() by {
                    assert(midc.agent(j).identity_eq(old(self).agent(j)));
                    assert(midc.agent(j).is_reset());
                }
            }
        }
        SummaryStep::NeedReplay
    }

    /// Every counter of the agent carrying token `t`, if one does, has
    /// room for one more match.
    pub open spec fn agent_headroom(self, t: Seq<char>) -> bool {
        self.spec_has_token(t) ==> {
            let a = self.agent(self.spec_token_index(t));
            &&& a.rollman_count < usize::MAX
            &&& a.ghost_count < usize::MAX
            &&& forall|k: int|
                0 <= k < a.pair_counts@.len() ==> (#[trigger] a.pair_counts@[k]).1 < u32::MAX
        }
    }

    /// Turns a downloaded replay into a ledger match. The replay's final
    /// score pair is authoritative: the side whose reported score equals
    /// its first component played rollman, the other played ghost; any
    /// other combination is invalid and ingests nothing. Both agents are
    /// registered if they are new, and the match is ingested through
    /// `add_match`.
    pub fn ingest_replay<F: Fn(u32, u32, Outcome, u32, usize) -> (u32, u32)>(
        &mut self,
        s: &MatchSummary,
        replay_score: (i16, i16),
        elo_fn: &F,
    ) -> (ok: bool)
        requires
            old(self).wf(),
            forall|args: (u32, u32, Outcome, u32, usize)| #[trigger] elo_fn.requires(args),
            s.side0.code is Some,
            s.side1.code is Some,
            s.side0.score != s.side1.score,
            !old(self).spec_has_match(s.id),
            old(self).agent_headroom(s.side0.code->0.id@),
            old(self).agent_headroom(s.side1.code->0.id@),
        ensures
            final(self).wf(),
            ok == {
                ||| (s.side0.score == replay_score.0 && s.side1.score == replay_score.1)
                ||| (s.side1.score == replay_score.0 && s.side0.score == replay_score.1)
            },
            !ok ==> *final(self) == *old(self),
            ok ==> ({
                let rt = if s.side0.score == replay_score.0 {
                    s.side0.code->0.id@
                } else {
                    s.side1.code->0.id@
                };
                let gt = if s.side0.score == replay_score.0 {
                    s.side1.code->0.id@
                } else {
                    s.side0.code->0.id@
                };
                &&& final(self).spec_has_match(s.id)
                &&& final(self).matches@.len() == old(self).matches@.len() + 1
                &&& final(self).match_set() == old(self).match_set().insert(
                    (s.id, (rt, gt, replay_score.0, replay_score.1)),
                )
                &&& final(self).logic_version == old(self).logic_version
                &&& final(self).awaiting == old(self).awaiting
                &&& final(self).spec_has_token(s.side0.code->0.id@)
                &&& final(self).spec_has_token(s.side1.code->0.id@)
                &&& old(self).n_agents() <= final(self).n_agents() <= old(self).n_agents() + 2
                &&& forall|j: int|
                    0 <= j < old(self).n_agents() ==> final(self).token(j) == old(self).token(j)
                &&& forall|j: int|
                    0 <= j < old(self).n_agents() ==> (#[trigger] final(self).agent(
                        j,
                    )).identity_eq(old(self).agent(j))
            }),
    {
        let (rs, gs) = replay_score;
        let orient0 = s.side0.score == rs && s.side1.score == gs;
        let orient1 = s.side1.score == rs && s.side0.score == gs;
        if !orient0 && !orient1 {
            return false;
        }
        let c0 = match &s.side0.code {
            Some(c) => c,
            None => {
                proof {
                    assert(false);
                }
                return false;
            },
        };
        let c1 = match &s.side1.code {
            Some(c) => c,
            None => {
                proof {
                    assert(false);
                }
                return false;
            },
        };
        let ghost pre = *self;
        self.ensure_agent(&c0.id, s.side0.user.clone(), c0.entity.clone(), c0.version);
        let ghost mid1 = *self;
        self.ensure_agent(&c1.id, s.side1.user.clone(), c1.entity.clone(), c1.version);
        let ghost mid2 = *self;
        let m = if orient0 {
            Match {
                rollman_token: c0.id.clone(),
                ghost_token: c1.id.clone(),
                rollman_score: rs,
                ghost_score: gs,
            }
        } else {
            Match {
                rollman_token: c1.id.clone(),
                ghost_token: c0.id.clone(),
                rollman_score: rs,
                ghost_score: gs,
            }
        };
        proof {
            assert(mid2.spec_has_token(c0.id@)) by {
                if !mid1.spec_has_token(c0.id@) {
                    assert(false);
                }
                let j = choose|j: int| 0 <= j < mid1.n_agents() && mid1.token(j) == c0.id@;
                assert(mid2.token(j) == c0.id@);
            }
            assert(mid2.spec_has_token(c1.id@));
            assert(!mid2.spec_has_match(s.id)) by {
                if mid2.spec_has_match(s.id) {
                    let k = choose|k: int|
                        0 <= k < mid2.matches@.len() && (#[trigger] mid2.matches@[k]).0 == s.id;
                    assert(pre.matches@[k].0 == s.id);
                }
            }
            // headroom carries over: a fresh agent has zero counts, an old
            // one is unchanged and covered by the requires
            let ri = mid2.spec_token_index(m.rollman_token@);
            let gi = mid2.spec_token_index(m.ghost_token@);
            assert(0 <= ri < mid2.n_agents() && mid2.token(ri) == m.rollman_token@);
            assert(0 <= gi < mid2.n_agents() && mid2.token(gi) == m.ghost_token@);
            assert forall|i: int|
                0 <= i < mid2.n_agents() && (mid2.token(i) == c0.id@ || mid2.token(i)
                    == c1.id@) implies ((#[trigger] mid2.agent(i)).rollman_count < usize::MAX
                && mid2.agent(i).ghost_count < usize::MAX && (forall|k: int|
                0 <= k < mid2.agent(i).pair_counts@.len() ==> (#[trigger] mid2.agent(
                    i,
                ).pair_counts@[k]).1 < u32::MAX)) by {
                if i < pre.n_agents() {
                    assert(mid1.agents@[i] == pre.agents@[i]);
                    assert(mid2.agents@[i] == mid1.agents@[i]);
                    assert(pre.token(i) == mid2.token(i));
                    assert(pre.spec_has_token(pre.token(i)));
                    let pi = pre.spec_token_index(pre.token(i));
                    assert(0 <= pi < pre.n_agents() && pre.token(pi) == pre.token(i));
                    assert(pi == i);
                    assert(pre.agent(i).rollman_count < usize::MAX);
                    assert(pre.agent(i).ghost_count < usize::MAX);
                    assert(mid2.agent(i) == pre.agent(i));
                } else if i < mid1.n_agents() {
                    assert(mid1.agent(i).is_reset());
                    assert(mid2.agents@[i] == mid1.agents@[i]);
                } else {
                    assert(mid2.agent(i).is_reset());
                }
            }
            assert(mid2.can_ingest(s.id, m));
        }
        self.add_match(s.id, m, elo_fn);
        proof {
            assert(mid2.ingested(*self, s.id, m));
            assert forall|j: int|
                0 <= j < pre.n_agents() implies final(self).token(j) == pre.token(j) && (
            #[trigger] final(self).agent(j)).identity_eq(pre.agent(j)) by {
                assert(self.token(j) == mid2.token(j));
                assert(self.agent(j).identity_eq(mid2.agent(j)));
                assert(mid2.token(j) == mid1.token(j));
                assert(mid2.agent(j) == mid1.agent(j));
                assert(mid1.token(j) == pre.token(j));
                assert(mid1.agent(j) == pre.agent(j));
            }
            assert(final(self).match_set() == mid2.match_set().insert((s.id, match_view(m))));
            assert(mid2.match_set() == pre.match_set());
            assert(final(self).spec_has_match(s.id)) by {
                crate::reload::lemma_has_match_iff_in_set(*self, s.id);
                assert(self.match_set().contains((s.id, match_view(m))));
            }
        }
        true
    }

    /// Inserts a match id into one agent's failure record.
    fn record_failure_at(&mut self, i: usize, id: u32)
        requires
            old(self).wf(),
            i < old(self).n_agents(),
        ensures
            final(self).wf(),
            final(self).matches == old(self).matches,
            final(self).logic_version == old(self).logic_version,
            final(self).awaiting == old(self).awaiting,
            final(self).n_agents() == old(self).n_agents(),
            forall|j: int|
                0 <= j < old(self).n_agents() ==> final(self).token(j) == old(self).token(j),
            forall|j: int|
                0 <= j < old(self).n_agents() && j != i ==> final(self).agent(j) == old(
                    self,
                ).agent(j),
            final(self).agent(i as int).failure@.to_set() == old(self).agent(
                i as int,
            ).failure@.to_set().insert(id),
            final(self).agent(i as int) == (Agent {
                failure: final(self).agent(i as int).failure,
                ..old(self).agent(i as int)
            }),
    {
        let ghost pre = *self;
        proof {
            assert(pre.agent(i as int).wf());
        }
        crate::agent::insert_failure(&mut self.agents[i].1.failure, id);
        proof {
            assert forall|p: int, q: int|
                0 <= p < q < self.n_agents() implies self.token(p) != self.token(q) by {
                assert(pre.token(p) != pre.token(q));
            }
            assert forall|k: int|
                0 <= k < self.matches@.len() implies self.spec_has_token(
                (#[trigger] self.matches@[k]).1.rollman_token@,
            ) && self.spec_has_token(self.matches@[k].1.ghost_token@) by {
                assert(pre.spec_has_token(pre.matches@[k].1.rollman_token@));
                assert(pre.spec_has_token(pre.matches@[k].1.ghost_token@));
                let j1 = choose|j: int|
                    0 <= j < pre.n_agents() && pre.token(j) == pre.matches@[k].1.rollman_token@;
                assert(self.token(j1) == self.matches@[k].1.rollman_token@);
                let j2 = choose|j: int|
                    0 <= j < pre.n_agents() && pre.token(j) == pre.matches@[k].1.ghost_token@;
                assert(self.token(j2) == self.matches@[k].1.ghost_token@);
            }
            assert forall|i2: int, k: int|
                0 <= i2 < self.n_agents() && 0 <= k < self.agent(i2).rollman_history@.len() implies (
            #[trigger] self.agent(i2).rollman_history@[k]).opp < self.n_agents() by {
                assert((#[trigger] pre.agent(i2).rollman_history@[k]).opp < pre.n_agents());
            }
            assert forall|i2: int, k: int|
                0 <= i2 < self.n_agents() && 0 <= k < self.agent(i2).ghost_history@.len() implies (
            #[trigger] self.agent(i2).ghost_history@[k]).opp < self.n_agents() by {
                assert((#[trigger] pre.agent(i2).ghost_history@[k]).opp < pre.n_agents());
            }
            assert forall|i2: int, k: int|
                0 <= i2 < self.n_agents() && 0 <= k < self.agent(i2).pair_counts@.len() implies (
            #[trigger] self.agent(i2).pair_counts@[k]).0 < self.n_agents() by {
                assert((#[trigger] pre.agent(i2).pair_counts@[k]).0 < pre.n_agents());
            }
            assert forall|i2: int, k1: int, k2: int|
                0 <= i2 < self.n_agents() && 0 <= k1 < k2 < self.agent(
                    i2,
                ).pair_counts@.len() implies (#[trigger] self.agent(i2).pair_counts@[k1]).0 != (
            #[trigger] self.agent(i2).pair_counts@[k2]).0 by {
                assert((#[trigger] pre.agent(i2).pair_counts@[k1]).0 != (
                #[trigger] pre.agent(i2).pair_counts@[k2]).0);
            }
            assert forall|i2: int| 0 <= i2 < self.n_agents() implies (#[trigger] self.agent(
                i2,
            )).wf() by {
                assert(pre.agent(i2).wf());
            }
        }
    }
}

} // verus!
