//! The match ledger: all known finalized matches, the registered agents,
//! and the derived per-agent indices.

use vstd::prelude::*;

use crate::agent::{Agent, HistEntry};
use crate::rating::{Outcome, outcome_of};
use crate::constants::ELO_BASE_BITS;

verus! {

/// One finalized match: the two agents' tokens and each side's final score
/// in its own role's metric.
#[derive(Clone)]
pub struct Match {
    pub rollman_token: String,
    pub ghost_token: String,
    pub rollman_score: i16,
    pub ghost_score: i16,
}

/// The ledger. `agents` is an append-only table; an agent is identified by
/// its token (the first tuple component) and addressed by its index.
/// `matches` is kept strictly sorted by match id. Matches of different
/// logic versions are never mixed: a version bump clears the ledger.
/// `awaiting` is the id of the oldest match still awaiting judgment.
pub struct Stats {
    pub agents: Vec<(String, Agent)>,
    pub matches: Vec<(u32, Match)>,
    pub logic_version: u16,
    pub awaiting: u32,
}

/// The smaller of a recency watermark and a match id.
pub open spec fn min_time(t: u32, id: u32) -> u32 {
    if t <= id {
        t
    } else {
        id
    }
}

/// The view of a match as plain values: both tokens and both scores.
pub open spec fn match_view(m: Match) -> (Seq<char>, Seq<char>, i16, i16) {
    (m.rollman_token@, m.ghost_token@, m.rollman_score, m.ghost_score)
}

/// The matches of a ledger slice as a set of plain values.
pub open spec fn pairs_set(ms: Seq<(u32, Match)>) -> Set<
    (u32, (Seq<char>, Seq<char>, i16, i16)),
> {
    ms.map_values(|p: (u32, Match)| (p.0, match_view(p.1))).to_set()
}

/// All fields equal except possibly the ghost-role rating.
pub open spec fn eq_but_ghost_elo(a: Agent, b: Agent) -> bool {
    &&& a.user == b.user
    &&& a.name == b.name
    &&& a.version == b.version
    &&& a.rollman_elo == b.rollman_elo
    &&& a.rollman_count == b.rollman_count
    &&& a.ghost_count == b.ghost_count
    &&& a.rollman_time == b.rollman_time
    &&& a.ghost_time == b.ghost_time
    &&& a.failure == b.failure
    &&& a.rollman_history == b.rollman_history
    &&& a.ghost_history == b.ghost_history
    &&& a.pair_counts == b.pair_counts
}

/// All fields equal except possibly the rollman-role rating.
pub open spec fn eq_but_rollman_elo(a: Agent, b: Agent) -> bool {
    &&& a.user == b.user
    &&& a.name == b.name
    &&& a.version == b.version
    &&& a.ghost_elo == b.ghost_elo
    &&& a.rollman_count == b.rollman_count
    &&& a.ghost_count == b.ghost_count
    &&& a.rollman_time == b.rollman_time
    &&& a.ghost_time == b.ghost_time
    &&& a.failure == b.failure
    &&& a.rollman_history == b.rollman_history
    &&& a.ghost_history == b.ghost_history
    &&& a.pair_counts == b.pair_counts
}

/// The rollman-side statistics of two agents agree.
pub open spec fn rollman_struct_eq(a: Agent, b: Agent) -> bool {
    &&& a.rollman_count == b.rollman_count
    &&& a.rollman_time == b.rollman_time
    &&& a.rollman_history@ == b.rollman_history@
    &&& a.pair_counts@ == b.pair_counts@
}

/// The ghost-side statistics of two agents agree.
pub open spec fn ghost_struct_eq(a: Agent, b: Agent) -> bool {
    &&& a.ghost_count == b.ghost_count
    &&& a.ghost_time == b.ghost_time
    &&& a.ghost_history@ == b.ghost_history@
}

/// Agent `j` appears as an opponent in the rollman history of the agent
/// at index `r`: its ghost rating takes part in the cross-comparisons of
/// a match that `r` plays as rollman.
pub open spec fn rollman_hist_opp(s: Stats, r: int, j: int) -> bool {
    exists|k: int|
        0 <= k < s.agent(r).rollman_history@.len() && (#[trigger] s.agent(
            r,
        ).rollman_history@[k]).opp == j
}

/// Agent `j` appears as an opponent in the ghost history of the agent at
/// index `g`.
pub open spec fn ghost_hist_opp(s: Stats, g: int, j: int) -> bool {
    exists|k: int|
        0 <= k < s.agent(g).ghost_history@.len() && (#[trigger] s.agent(g).ghost_history@[k]).opp
            == j
}

/// Among the first `upto` entries of a history, how many have an opponent
/// other than `cur`: the number of cross-comparisons one ingestion makes
/// against that history (direct rematches contribute none).
pub open spec fn cmp_count(hist: Seq<HistEntry>, cur: int, upto: int) -> nat
    decreases upto,
{
    if upto <= 0 {
        0
    } else {
        cmp_count(hist, cur, upto - 1) + if (hist[upto - 1].opp as int) == cur {
            0nat
        } else {
            1nat
        }
    }
}

/// All agents' ghost-role rating bits, by table index.
pub open spec fn ghost_elos_of(agents: Seq<(String, Agent)>) -> Seq<u32> {
    Seq::new(agents.len(), |j: int| agents[j].1.ghost_elo)
}

/// All agents' rollman-role rating bits, by table index.
pub open spec fn rollman_elos_of(agents: Seq<(String, Agent)>) -> Seq<u32> {
    Seq::new(agents.len(), |j: int| agents[j].1.rollman_elo)
}

/// One cross-comparison pass replayed at the specification level: walking
/// the first `upto` history entries in order, each entry whose opponent
/// differs from `cur` takes the next pair of the `chain` as the rating
/// model's output and installs it at `cur` and at that opponent; direct
/// rematches are skipped.
pub open spec fn fold_pass(
    elos: Seq<u32>,
    hist: Seq<HistEntry>,
    cur: int,
    chain: Seq<(u32, u32)>,
    upto: int,
) -> Seq<u32>
    decreases upto,
{
    if upto <= 0 {
        elos
    } else {
        let prev = fold_pass(elos, hist, cur, chain, upto - 1);
        if (hist[upto - 1].opp as int) == cur {
            prev
        } else {
            let step = chain[cmp_count(hist, cur, upto - 1) as int];
            prev.update(cur, step.0).update(hist[upto - 1].opp as int, step.1)
        }
    }
}

/// The chain is a step-by-step record of the rating model: its entry for
/// each compared history entry is a possible output of `f` on the two
/// ratings as they stand at that step, the outcome of the two scores, the
/// anchor, and the sample size.
pub open spec fn valid_pass<F: Fn(u32, u32, Outcome, u32, usize) -> (u32, u32)>(
    f: F,
    elos: Seq<u32>,
    hist: Seq<HistEntry>,
    cur: int,
    score: i16,
    anchor: u32,
    sample: usize,
    chain: Seq<(u32, u32)>,
) -> bool {
    &&& chain.len() == cmp_count(hist, cur, hist.len() as int)
    &&& forall|k: int|
        0 <= k < hist.len() && ((#[trigger] hist[k]).opp as int) != cur ==> {
            let prev = fold_pass(elos, hist, cur, chain, k);
            call_ensures(
                f,
                (
                    prev[cur],
                    prev[hist[k].opp as int],
                    crate::rating::spec_outcome(score as int, hist[k].opp_score as int),
                    anchor,
                    sample,
                ),
                chain[cmp_count(hist, cur, k) as int],
            )
        }
}

/// The complete rating effect of ingesting `m`: the ghost ratings of the
/// whole table are the fold of a valid chain over the rollman's prior
/// history (current ghost against each differing prior ghost, anchored at
/// the rollman's rating on entry, sample size the number of comparisons),
/// and symmetrically the rollman ratings over the ghost's prior history,
/// anchored at the ghost's rating on entry.
pub open spec fn rating_model_applied<F: Fn(u32, u32, Outcome, u32, usize) -> (u32, u32)>(
    pre: Stats,
    post: Stats,
    m: Match,
    f: F,
    chain1: Seq<(u32, u32)>,
    chain2: Seq<(u32, u32)>,
) -> bool {
    let r = pre.spec_token_index(m.rollman_token@);
    let g = pre.spec_token_index(m.ghost_token@);
    let hist1 = pre.agent(r).rollman_history@;
    let hist2 = pre.agent(g).ghost_history@;
    &&& valid_pass(
        f,
        ghost_elos_of(pre.agents@),
        hist1,
        g,
        m.ghost_score,
        pre.agent(r).rollman_elo,
        cmp_count(hist1, g, hist1.len() as int) as usize,
        chain1,
    )
    &&& ghost_elos_of(post.agents@) == fold_pass(
        ghost_elos_of(pre.agents@),
        hist1,
        g,
        chain1,
        hist1.len() as int,
    )
    &&& valid_pass(
        f,
        rollman_elos_of(pre.agents@),
        hist2,
        r,
        m.rollman_score,
        pre.agent(g).ghost_elo,
        cmp_count(hist2, r, hist2.len() as int) as usize,
        chain2,
    )
    &&& rollman_elos_of(post.agents@) == fold_pass(
        rollman_elos_of(pre.agents@),
        hist2,
        r,
        chain2,
        hist2.len() as int,
    )
}

/// Ingesting `m` makes no cross-comparison at all: every prior match of
/// either participant is a direct rematch of this same pair.
pub open spec fn no_comparisons(pre: Stats, m: Match) -> bool {
    let r = pre.spec_token_index(m.rollman_token@);
    let g = pre.spec_token_index(m.ghost_token@);
    &&& cmp_count(pre.agent(r).rollman_history@, g, pre.agent(r).rollman_history@.len() as int)
        == 0
    &&& cmp_count(pre.agent(g).ghost_history@, r, pre.agent(g).ghost_history@.len() as int) == 0
}

/// The rating bits are a possible output of the rating model.
pub open spec fn elo_output<F: Fn(u32, u32, Outcome, u32, usize) -> (u32, u32)>(
    f: F,
    bits: u32,
) -> bool {
    exists|args: (u32, u32, Outcome, u32, usize), out: (u32, u32)|
        #[trigger] call_ensures(f, args, out) && (out.0 == bits || out.1 == bits)
}

/// The fold of a pass reads the chain only below the pass's comparison
/// count: extending the chain does not change it.
pub proof fn lemma_fold_pass_prefix(
    elos: Seq<u32>,
    hist: Seq<HistEntry>,
    cur: int,
    c1: Seq<(u32, u32)>,
    c2: Seq<(u32, u32)>,
    upto: int,
)
    requires
        forall|i: int| 0 <= i < cmp_count(hist, cur, upto) ==> c1[i] == c2[i],
    ensures
        fold_pass(elos, hist, cur, c1, upto) == fold_pass(elos, hist, cur, c2, upto),
    decreases upto,
{
    if upto > 0 {
        lemma_fold_pass_prefix(elos, hist, cur, c1, c2, upto - 1);
    }
}

/// The comparison count grows with the prefix length.
pub proof fn lemma_cmp_count_mono(hist: Seq<HistEntry>, cur: int, a: int, b: int)
    requires
        a <= b,
    ensures
        cmp_count(hist, cur, a) <= cmp_count(hist, cur, b),
    decreases b - a,
{
    if b > a {
        lemma_cmp_count_mono(hist, cur, a, b - 1);
    }
}

/// A pass with nothing to compare moves no rating.
pub proof fn lemma_fold_pass_skip_all(
    elos: Seq<u32>,
    hist: Seq<HistEntry>,
    cur: int,
    chain: Seq<(u32, u32)>,
    upto: int,
)
    requires
        cmp_count(hist, cur, upto) == 0,
    ensures
        fold_pass(elos, hist, cur, chain, upto) == elos,
    decreases upto,
{
    if upto > 0 {
        lemma_fold_pass_skip_all(elos, hist, cur, chain, upto - 1);
    }
}

/// The pairwise-occurrence list `new` is `old` with the count for ghost
/// index `g` raised by one (or started at one).
pub open spec fn pair_bumped(pre: Seq<(usize, u32)>, post: Seq<(usize, u32)>, g: usize) -> bool {
    if exists|k: int| 0 <= k < pre.len() && (#[trigger] pre[k]).0 == g {
        let k = choose|k: int| 0 <= k < pre.len() && (#[trigger] pre[k]).0 == g;
        post == pre.update(k, (g, (pre[k].1 + 1) as u32))
    } else {
        post == pre.push((g, 1u32))
    }
}

/// A ledger with the agent table of a well-formed ledger and no matches
/// at all is itself well-formed.
pub proof fn lemma_wf_empty_matches(pre: Stats, post: Stats)
    requires
        pre.wf(),
        post.agents == pre.agents,
        post.matches@.len() == 0,
    ensures
        post.wf(),
{
    assert forall|i: int, j: int|
        0 <= i < j < post.n_agents() implies post.token(i) != post.token(j) by {
        assert(pre.token(i) != pre.token(j));
    }
    assert forall|i: int, k: int|
        0 <= i < post.n_agents() && 0 <= k < post.agent(i).rollman_history@.len() implies (
    #[trigger] post.agent(i).rollman_history@[k]).opp < post.n_agents() by {
        assert((#[trigger] pre.agent(i).rollman_history@[k]).opp < pre.n_agents());
    }
    assert forall|i: int, k: int|
        0 <= i < post.n_agents() && 0 <= k < post.agent(i).ghost_history@.len() implies (
    #[trigger] post.agent(i).ghost_history@[k]).opp < post.n_agents() by {
        assert((#[trigger] pre.agent(i).ghost_history@[k]).opp < pre.n_agents());
    }
    assert forall|i: int, k: int|
        0 <= i < post.n_agents() && 0 <= k < post.agent(i).pair_counts@.len() implies (
    #[trigger] post.agent(i).pair_counts@[k]).0 < post.n_agents() by {
        assert((#[trigger] pre.agent(i).pair_counts@[k]).0 < pre.n_agents());
    }
    assert forall|i: int, k1: int, k2: int|
        0 <= i < post.n_agents() && 0 <= k1 < k2 < post.agent(i).pair_counts@.len() implies (
    #[trigger] post.agent(i).pair_counts@[k1]).0 != (
    #[trigger] post.agent(i).pair_counts@[k2]).0 by {
        assert((#[trigger] pre.agent(i).pair_counts@[k1]).0 != (
        #[trigger] pre.agent(i).pair_counts@[k2]).0);
    }
    assert forall|i: int| 0 <= i < post.n_agents() implies (#[trigger] post.agent(i)).wf() by {
        assert(pre.agent(i).wf());
    }
}

/// A ledger with the agent table and match list of a well-formed ledger is
/// itself well-formed, whatever its version and watermark.
pub proof fn lemma_wf_same_tables(pre: Stats, post: Stats)
    requires
        pre.wf(),
        post.agents == pre.agents,
        post.matches == pre.matches,
    ensures
        post.wf(),
{
    assert forall|i: int, j: int|
        0 <= i < j < post.n_agents() implies post.token(i) != post.token(j) by {
        assert(pre.token(i) != pre.token(j));
    }
    assert forall|p: int, q: int|
        0 <= p < q < post.matches@.len() implies (#[trigger] post.matches@[p]).0 < (
    #[trigger] post.matches@[q]).0 by {
        assert((#[trigger] pre.matches@[p]).0 < (#[trigger] pre.matches@[q]).0);
    }
    assert forall|k: int|
        0 <= k < post.matches@.len() implies post.spec_has_token(
        (#[trigger] post.matches@[k]).1.rollman_token@,
    ) && post.spec_has_token(post.matches@[k].1.ghost_token@) by {
        assert(pre.spec_has_token((#[trigger] pre.matches@[k]).1.rollman_token@));
        assert(pre.spec_has_token(pre.matches@[k].1.ghost_token@));
        let j1 = choose|j: int|
            0 <= j < pre.n_agents() && pre.token(j) == pre.matches@[k].1.rollman_token@;
        assert(post.token(j1) == post.matches@[k].1.rollman_token@);
        let j2 = choose|j: int|
            0 <= j < pre.n_agents() && pre.token(j) == pre.matches@[k].1.ghost_token@;
        assert(post.token(j2) == post.matches@[k].1.ghost_token@);
    }
    assert forall|i: int, k: int|
        0 <= i < post.n_agents() && 0 <= k < post.agent(i).rollman_history@.len() implies (
    #[trigger] post.agent(i).rollman_history@[k]).opp < post.n_agents() by {
        assert((#[trigger] pre.agent(i).rollman_history@[k]).opp < pre.n_agents());
    }
    assert forall|i: int, k: int|
        0 <= i < post.n_agents() && 0 <= k < post.agent(i).ghost_history@.len() implies (
    #[trigger] post.agent(i).ghost_history@[k]).opp < post.n_agents() by {
        assert((#[trigger] pre.agent(i).ghost_history@[k]).opp < pre.n_agents());
    }
    assert forall|i: int, k: int|
        0 <= i < post.n_agents() && 0 <= k < post.agent(i).pair_counts@.len() implies (
    #[trigger] post.agent(i).pair_counts@[k]).0 < post.n_agents() by {
        assert((#[trigger] pre.agent(i).pair_counts@[k]).0 < pre.n_agents());
    }
    assert forall|i: int, k1: int, k2: int|
        0 <= i < post.n_agents() && 0 <= k1 < k2 < post.agent(i).pair_counts@.len() implies (
    #[trigger] post.agent(i).pair_counts@[k1]).0 != (
    #[trigger] post.agent(i).pair_counts@[k2]).0 by {
        assert((#[trigger] pre.agent(i).pair_counts@[k1]).0 != (
        #[trigger] pre.agent(i).pair_counts@[k2]).0);
    }
    assert forall|i: int| 0 <= i < post.n_agents() implies (#[trigger] post.agent(i)).wf() by {
        assert(pre.agent(i).wf());
    }
}

impl Default for Stats {
    /// An empty ledger: no agents, no matches, version zero.
    fn default() -> (s: Stats)
        ensures
            s.n_agents() == 0,
            s.matches@.len() == 0,
            s.logic_version == 0,
            s.awaiting == 0,
            s.wf(),
    {
        Stats { agents: Vec::new(), matches: Vec::new(), logic_version: 0, awaiting: 0 }
    }
}

impl Stats {
    /// Number of registered agents.
    pub open spec fn n_agents(self) -> int {
        self.agents@.len() as int
    }

    /// Token of the agent at index `i`.
    pub open spec fn token(self, i: int) -> Seq<char> {
        self.agents@[i].0@
    }

    /// The agent at index `i`.
    pub open spec fn agent(self, i: int) -> Agent {
        self.agents@[i].1
    }

    /// Some registered agent carries token `t`.
    pub open spec fn spec_has_token(self, t: Seq<char>) -> bool {
        exists|j: int| 0 <= j < self.n_agents() && self.token(j) == t
    }

    /// The index of the agent carrying token `t` (meaningful only when
    /// `spec_has_token(t)` holds; unique by `tokens_distinct`).
    pub open spec fn spec_token_index(self, t: Seq<char>) -> int {
        choose|j: int| 0 <= j < self.n_agents() && self.token(j) == t
    }

    /// The ledger holds a match with this id.
    pub open spec fn spec_has_match(self, id: u32) -> bool {
        exists|k: int| 0 <= k < self.matches@.len() && (#[trigger] self.matches@[k]).0 == id
    }

    /// Match ids are strictly increasing along the ledger.
    pub open spec fn matches_sorted(self) -> bool {
        forall|i: int, j: int|
            0 <= i < j < self.matches@.len() ==> (#[trigger] self.matches@[i]).0 < (
            #[trigger] self.matches@[j]).0
    }

    /// No two agents share a token.
    pub open spec fn tokens_distinct(self) -> bool {
        forall|i: int, j: int| 0 <= i < j < self.n_agents() ==> self.token(i) != self.token(j)
    }

    /// Both participants of every ledger match are registered.
    pub open spec fn participants_present(self) -> bool {
        forall|k: int|
            0 <= k < self.matches@.len() ==> self.spec_has_token(
                (#[trigger] self.matches@[k]).1.rollman_token@,
            ) && self.spec_has_token(self.matches@[k].1.ghost_token@)
    }

    /// Every history entry points to a registered agent.
    pub open spec fn hist_wf(self) -> bool {
        &&& forall|i: int, k: int|
            0 <= i < self.n_agents() && 0 <= k < self.agent(i).rollman_history@.len() ==> (
            #[trigger] self.agent(i).rollman_history@[k]).opp < self.n_agents()
        &&& forall|i: int, k: int|
            0 <= i < self.n_agents() && 0 <= k < self.agent(i).ghost_history@.len() ==> (
            #[trigger] self.agent(i).ghost_history@[k]).opp < self.n_agents()
    }

    /// Pairwise-count keys are distinct agent indices.
    pub open spec fn pairs_wf(self) -> bool {
        &&& forall|i: int, k: int|
            0 <= i < self.n_agents() && 0 <= k < self.agent(i).pair_counts@.len() ==> (
            #[trigger] self.agent(i).pair_counts@[k]).0 < self.n_agents()
        &&& forall|i: int, k1: int, k2: int|
            0 <= i < self.n_agents() && 0 <= k1 < k2 < self.agent(i).pair_counts@.len() ==> (
            #[trigger] self.agent(i).pair_counts@[k1]).0 != (
            #[trigger] self.agent(i).pair_counts@[k2]).0
    }

    /// Well-formedness of the whole ledger.
    pub open spec fn wf(self) -> bool {
        &&& self.matches_sorted()
        &&& self.tokens_distinct()
        &&& self.participants_present()
        &&& self.hist_wf()
        &&& self.pairs_wf()
        &&& forall|i: int| 0 <= i < self.n_agents() ==> (#[trigger] self.agent(i)).wf()
    }

    /// Looks an agent up by token.
    pub fn find_agent(&self, token: &String) -> (r: Option<usize>)
        ensures
            match r {
                Some(i) => 0 <= i < self.n_agents() && self.token(i as int) == token@,
                None => !self.spec_has_token(token@),
            },
    {
        let mut i: usize = 0;
        while i < self.agents.len()
            invariant
                0 <= i <= self.n_agents(),
                forall|j: int| 0 <= j < i ==> self.token(j) != token@,
            decreases self.n_agents() - i,
        {
            if self.agents[i].0 == *token {
                return Some(i);
            }
            i += 1;
        }
        None
    }

    /// Whether a match with this id is already in the ledger.
    pub fn contains_match(&self, id: u32) -> (b: bool)
        ensures
            b == self.spec_has_match(id),
    {
        let mut k: usize = 0;
        while k < self.matches.len()
            invariant
                0 <= k <= self.matches@.len(),
                forall|j: int| 0 <= j < k ==> (#[trigger] self.matches@[j]).0 != id,
            decreases self.matches@.len() - k,
        {
            if self.matches[k].0 == id {
                return true;
            }
            k += 1;
        }
        false
    }

    /// The id of the newest ledger match, or zero for an empty ledger.
    pub fn last_match_id(&self) -> (id: u32)
        ensures
            self.matches@.len() == 0 ==> id == 0,
            self.matches@.len() > 0 ==> id == self.matches@[self.matches@.len() - 1].0,
    {
        if self.matches.len() == 0 {
            0
        } else {
            self.matches[self.matches.len() - 1].0
        }
    }

    /// Registers the agent under `token` if no agent carries that token
    /// yet, and returns the index that carries it afterwards. An agent
    /// already present keeps all of its state; a fresh one starts at the
    /// base rating with empty history.
    pub fn ensure_agent(&mut self, token: &String, user: String, name: String, version: u32) -> (i:
        usize)
        requires
            old(self).wf(),
        ensures
            final(self).wf(),
            0 <= i < final(self).n_agents(),
            final(self).token(i as int) == token@,
            final(self).matches == old(self).matches,
            final(self).logic_version == old(self).logic_version,
            final(self).awaiting == old(self).awaiting,
            old(self).spec_has_token(token@) ==> *final(self) == *old(self),
            !old(self).spec_has_token(token@) ==> {
                &&& final(self).n_agents() == old(self).n_agents() + 1
                &&& i == old(self).n_agents()
                &&& final(self).agents@ =~= old(self).agents@.push(final(self).agents@[i as int])
                &&& final(self).token(i as int) == token@
                &&& final(self).agent(i as int).is_fresh(user@, name@, version)
                &&& final(self).agent(i as int).is_reset()
            },
    {
        match self.find_agent(token) {
            Some(i) => i,
            None => {
                let i = self.agents.len();
                let a = Agent::new(user, name, version);
                self.agents.push((token.clone(), a));
                proof {
                    assert forall|k: int|
                        0 <= k < self.matches@.len() implies self.spec_has_token(
                        (#[trigger] self.matches@[k]).1.rollman_token@,
                    ) && self.spec_has_token(self.matches@[k].1.ghost_token@) by {
                        assert(old(self).spec_has_token(old(self).matches@[k].1.rollman_token@));
                        let j1 = choose|j: int|
                            0 <= j < old(self).n_agents() && old(self).token(j)
                                == old(self).matches@[k].1.rollman_token@;
                        assert(self.token(j1) == self.matches@[k].1.rollman_token@);
                        let j2 = choose|j: int|
                            0 <= j < old(self).n_agents() && old(self).token(j)
                                == old(self).matches@[k].1.ghost_token@;
                        assert(self.token(j2) == self.matches@[k].1.ghost_token@);
                    }
                    assert forall|j: int|
                        0 <= j < old(self).n_agents() implies self.agent(j) == old(self).agent(j)
                            && self.token(j) == old(self).token(j) by {}
                }
                i
            },
        }
    }

    /// The ledger's matches as a set of plain values.
    pub open spec fn match_set(self) -> Set<(u32, (Seq<char>, Seq<char>, i16, i16))> {
        pairs_set(self.matches@)
    }

    /// How one ingested match changes the ledger, apart from the ratings:
    /// the rollman's and the ghost's counts rise by one and their recency
    /// watermarks sink to the match id, the match is appended to both
    /// per-agent histories and counted against the pair, every other
    /// agent's statistics and everyone's identity are untouched, and the
    /// match joins the ledger.
    pub open spec fn ingested(self, post: Stats, id: u32, m: Match) -> bool {
        let r = self.spec_token_index(m.rollman_token@);
        let g = self.spec_token_index(m.ghost_token@);
        &&& post.n_agents() == self.n_agents()
        &&& post.logic_version == self.logic_version
        &&& post.awaiting == self.awaiting
        &&& forall|j: int| 0 <= j < self.n_agents() ==> post.token(j) == self.token(j)
        &&& forall|j: int|
            0 <= j < self.n_agents() ==> (#[trigger] post.agent(j)).identity_eq(self.agent(j))
        &&& forall|j: int|
            0 <= j < self.n_agents() && j != r && j != g ==> rollman_struct_eq(
                #[trigger] post.agent(j),
                self.agent(j),
            ) && ghost_struct_eq(post.agent(j), self.agent(j))
        &&& post.agent(r).rollman_count == self.agent(r).rollman_count + 1
        &&& post.agent(r).rollman_time == min_time(self.agent(r).rollman_time, id)
        &&& post.agent(r).rollman_history@ == self.agent(r).rollman_history@.push(
            HistEntry { id, opp: g as usize, opp_score: m.ghost_score },
        )
        &&& pair_bumped(self.agent(r).pair_counts@, post.agent(r).pair_counts@, g as usize)
        &&& post.agent(g).ghost_count == self.agent(g).ghost_count + 1
        &&& post.agent(g).ghost_time == min_time(self.agent(g).ghost_time, id)
        &&& post.agent(g).ghost_history@ == self.agent(g).ghost_history@.push(
            HistEntry { id, opp: r as usize, opp_score: m.rollman_score },
        )
        &&& r != g ==> ghost_struct_eq(post.agent(r), self.agent(r)) && rollman_struct_eq(
            post.agent(g),
            self.agent(g),
        )
        &&& post.matches@.len() == self.matches@.len() + 1
        &&& post.match_set() == self.match_set().insert((id, match_view(m)))
        &&& forall|j: int|
            0 <= j < self.n_agents() && j != g && !rollman_hist_opp(self, r, j) ==> (
            #[trigger] post.agent(j)).ghost_elo == self.agent(j).ghost_elo
        &&& forall|j: int|
            0 <= j < self.n_agents() && j != r && !ghost_hist_opp(self, g, j) ==> (
            #[trigger] post.agent(j)).rollman_elo == self.agent(j).rollman_elo
    }

    /// The inputs on which `add_match` is defined: both participants are
    /// registered, the id is new, and no counter is about to overflow.
    pub open spec fn can_ingest(self, id: u32, m: Match) -> bool {
        let r = self.spec_token_index(m.rollman_token@);
        let g = self.spec_token_index(m.ghost_token@);
        &&& !self.spec_has_match(id)
        &&& self.spec_has_token(m.rollman_token@)
        &&& self.spec_has_token(m.ghost_token@)
        &&& self.agent(r).rollman_count < usize::MAX
        &&& self.agent(g).ghost_count < usize::MAX
        &&& forall|k: int|
            0 <= k < self.agent(r).pair_counts@.len() && (#[trigger] self.agent(
                r,
            ).pair_counts@[k]).0 == g ==> self.agent(r).pair_counts@[k].1 < u32::MAX
    }

    /// Resets every agent's rating state (ratings, counts, recency,
    /// histories, pair counts), keeping identities and failure records.
    pub fn reset_rating_state(&mut self)
        requires
            old(self).wf(),
        ensures
            final(self).wf(),
            final(self).n_agents() == old(self).n_agents(),
            final(self).matches == old(self).matches,
            final(self).logic_version == old(self).logic_version,
            final(self).awaiting == old(self).awaiting,
            forall|j: int|
                0 <= j < old(self).n_agents() ==> final(self).token(j) == old(self).token(j),
            forall|j: int|
                0 <= j < old(self).n_agents() ==> (#[trigger] final(self).agent(j)).identity_eq(
                    old(self).agent(j),
                ),
            forall|j: int|
                0 <= j < old(self).n_agents() ==> (#[trigger] final(self).agent(j)).is_reset(),
    {
        let ghost pre = *self;
        let n = self.agents.len();
        let mut i: usize = 0;
        while i < n
            invariant
                0 <= i <= n,
                n == pre.n_agents(),
                self.agents@.len() == pre.agents@.len(),
                self.matches == pre.matches,
                self.logic_version == pre.logic_version,
                self.awaiting == pre.awaiting,
                forall|j: int|
                    0 <= j < n ==> (#[trigger] self.agents@[j]).0 == pre.agents@[j].0,
                forall|j: int|
                    0 <= j < n ==> (#[trigger] self.agents@[j]).1.identity_eq(pre.agents@[j].1),
                forall|j: int| 0 <= j < i ==> (#[trigger] self.agents@[j]).1.is_reset(),
                forall|j: int| i <= j < n ==> (#[trigger] self.agents@[j]) == pre.agents@[j],
                pre.wf(),
            decreases n - i,
        {
            self.agents[i].1.rollman_elo = ELO_BASE_BITS;
            self.agents[i].1.ghost_elo = ELO_BASE_BITS;
            self.agents[i].1.rollman_count = 0;
            self.agents[i].1.ghost_count = 0;
            self.agents[i].1.rollman_time = u32::MAX;
            self.agents[i].1.ghost_time = u32::MAX;
            self.agents[i].1.rollman_history = Vec::new();
            self.agents[i].1.ghost_history = Vec::new();
            self.agents[i].1.pair_counts = Vec::new();
            i += 1;
        }
        proof {
            assert forall|k: int|
                0 <= k < self.matches@.len() implies self.spec_has_token(
                (#[trigger] self.matches@[k]).1.rollman_token@,
            ) && self.spec_has_token(self.matches@[k].1.ghost_token@) by {
                assert(pre.spec_has_token(pre.matches@[k].1.rollman_token@));
                assert(pre.spec_has_token(pre.matches@[k].1.ghost_token@));
                let j1 = choose|j: int|
                    0 <= j < pre.n_agents() && pre.token(j) == pre.matches@[k].1.rollman_token@;
                assert(self.token(j1) == self.matches@[k].1.rollman_token@);
                let j2 = choose|j: int|
                    0 <= j < pre.n_agents() && pre.token(j) == pre.matches@[k].1.ghost_token@;
                assert(self.token(j2) == self.matches@[k].1.ghost_token@);
            }
            assert forall|i: int, j: int|
                0 <= i < j < self.n_agents() implies self.token(i) != self.token(j) by {
                assert(pre.token(i) != pre.token(j));
            }
            assert forall|i: int| 0 <= i < self.n_agents() implies (#[trigger] self.agent(
                i,
            )).wf() by {
                assert(pre.agent(i).wf());
                assert(self.agent(i).failure == pre.agent(i).failure);
            }
        }
    }

    /// Empties the whole ledger after a logic-version bump: all matches
    /// are dropped and all rating state is reset, while agent identities
    /// and failure records survive. The caller installs the new version.
    pub fn clear(&mut self)
        requires
            old(self).wf(),
        ensures
            final(self).wf(),
            final(self).n_agents() == old(self).n_agents(),
            final(self).matches@.len() == 0,
            final(self).logic_version == 0,
            final(self).awaiting == 0,
            forall|j: int|
                0 <= j < old(self).n_agents() ==> final(self).token(j) == old(self).token(j),
            forall|j: int|
                0 <= j < old(self).n_agents() ==> (#[trigger] final(self).agent(j)).identity_eq(
                    old(self).agent(j),
                ),
            forall|j: int|
                0 <= j < old(self).n_agents() ==> (#[trigger] final(self).agent(j)).is_reset(),
    {
        self.reset_rating_state();
        let ghost mid = *self;
        self.matches.clear();
        self.logic_version = 0;
        self.awaiting = 0;
        proof {
            lemma_wf_empty_matches(mid, *self);
            assert forall|j: int| 0 <= j < old(self).n_agents() implies (#[trigger] self.agent(
                j,
            )).identity_eq(old(self).agent(j)) && self.agent(j).is_reset() && self.token(j) == old(
                self,
            ).token(j) by {
                assert(mid.agent(j).identity_eq(old(self).agent(j)));
                assert(mid.agent(j).is_reset());
                assert(mid.token(j) == old(self).token(j));
            }
        }
    }

    /// The first cross-comparison pass of one ingestion: each entry of
    /// the rollman's prior history with a different ghost consults the
    /// rating model on the two ghost ratings as they stand (anchored at
    /// `anchor`, sample size the number of such entries) and installs the
    /// two results. Returns the recorded chain of model outputs.
    #[verifier::loop_isolation(false)]
    #[verifier::rlimit(100)]
    fn cross_compare_ghosts<F: Fn(u32, u32, Outcome, u32, usize) -> (u32, u32)>(
        &mut self,
        r: usize,
        g: usize,
        anchor: u32,
        score: i16,
        elo_fn: &F,
    ) -> (chain: Ghost<Seq<(u32, u32)>>)
        requires
            forall|args: (u32, u32, Outcome, u32, usize)| #[trigger] elo_fn.requires(args),
            r < old(self).agents@.len(),
            g < old(self).agents@.len(),
            forall|k: int|
                0 <= k < old(self).agents@[r as int].1.rollman_history@.len() ==> (#[trigger] old(
                    self,
                ).agents@[r as int].1.rollman_history@[k]).opp < old(self).agents@.len(),
        ensures
            final(self).agents@.len() == old(self).agents@.len(),
            final(self).matches == old(self).matches,
            final(self).logic_version == old(self).logic_version,
            final(self).awaiting == old(self).awaiting,
            forall|j: int|
                0 <= j < old(self).agents@.len() ==> (#[trigger] final(self).agents@[j]).0 == old(
                    self,
                ).agents@[j].0 && eq_but_ghost_elo(
                    final(self).agents@[j].1,
                    old(self).agents@[j].1,
                ),
            forall|j: int|
                0 <= j < old(self).agents@.len() && j != g as int && (forall|k: int|
                    0 <= k < old(self).agents@[r as int].1.rollman_history@.len() ==> (
                    #[trigger] old(self).agents@[r as int].1.rollman_history@[k]).opp as int != j)
                    ==> (#[trigger] final(self).agents@[j]).1.ghost_elo == old(
                    self,
                ).agents@[j].1.ghost_elo,
            forall|j: int|
                0 <= j < old(self).agents@.len() ==> (#[trigger] final(self).agents@[j]).1.ghost_elo == old(self).agents@[j].1.ghost_elo || elo_output(
                    *elo_fn,
                    final(self).agents@[j].1.ghost_elo,
                ),
            valid_pass(
                *elo_fn,
                ghost_elos_of(old(self).agents@),
                old(self).agents@[r as int].1.rollman_history@,
                g as int,
                score,
                anchor,
                cmp_count(
                    old(self).agents@[r as int].1.rollman_history@,
                    g as int,
                    old(self).agents@[r as int].1.rollman_history@.len() as int,
                ) as usize,
                chain@,
            ),
            ghost_elos_of(final(self).agents@) == fold_pass(
                ghost_elos_of(old(self).agents@),
                old(self).agents@[r as int].1.rollman_history@,
                g as int,
                chain@,
                old(self).agents@[r as int].1.rollman_history@.len() as int,
            ),
    {
        let ghost mid = old(self).agents@;
        let ghost hist1 = mid[r as int].1.rollman_history@;
        let ghost e0g = ghost_elos_of(mid);
        let ghost gi: int = g as int;

        // The sample size of this pass: the number of prior matches with a
        // different ghost (direct rematches carry no transitive signal).
        let n_hist = self.agents[r].1.rollman_history.len();
        let mut n_cmp: usize = 0;
        let mut kc: usize = 0;
        while kc < n_hist
            invariant
                0 <= kc <= n_hist,
                n_hist == hist1.len(),
                self.agents@ == mid,
                n_cmp == cmp_count(hist1, gi, kc as int),
                n_cmp <= kc,
            decreases n_hist - kc,
        {
            if self.agents[r].1.rollman_history[kc].opp != g {
                n_cmp += 1;
            }
            kc += 1;
        }

        let ghost mut chain1: Seq<(u32, u32)> = Seq::empty();
        let mut k: usize = 0;
        while k < n_hist
            invariant
                0 <= k <= n_hist,
                self.agents@.len() == mid.len(),
                self.matches == old(self).matches,
                self.logic_version == old(self).logic_version,
                self.awaiting == old(self).awaiting,
                n_hist == hist1.len(),
                n_cmp == cmp_count(hist1, gi, hist1.len() as int),
                forall|j: int|
                    0 <= j < mid.len() ==> (#[trigger] self.agents@[j]).0 == mid[j].0
                        && eq_but_ghost_elo(self.agents@[j].1, mid[j].1),
                forall|j: int|
                    0 <= j < mid.len() && j != gi && (forall|k2: int|
                        0 <= k2 < hist1.len() ==> (#[trigger] hist1[k2]).opp as int != j) ==> (
                    #[trigger] self.agents@[j]).1.ghost_elo == mid[j].1.ghost_elo,
                forall|j: int|
                    0 <= j < mid.len() ==> (#[trigger] self.agents@[j]).1.ghost_elo
                        == mid[j].1.ghost_elo || elo_output(*elo_fn, self.agents@[j].1.ghost_elo),
                chain1.len() == cmp_count(hist1, gi, k as int),
                ghost_elos_of(self.agents@) == fold_pass(e0g, hist1, gi, chain1, k as int),
                forall|kk: int|
                    0 <= kk < k && ((#[trigger] hist1[kk]).opp as int) != gi ==> call_ensures(
                        *elo_fn,
                        (
                            fold_pass(e0g, hist1, gi, chain1, kk)[gi],
                            fold_pass(e0g, hist1, gi, chain1, kk)[hist1[kk].opp as int],
                            crate::rating::spec_outcome(score as int, hist1[kk].opp_score as int),
                            anchor,
                            n_cmp,
                        ),
                        chain1[cmp_count(hist1, gi, kk) as int],
                    ),
            decreases n_hist - k,
        {
            let h = self.agents[r].1.rollman_history[k];
            proof {
                assert(hist1[k as int] == h);
            }
            if h.opp != g {
                let o = outcome_of(score, h.opp_score);
                let a_bits = self.agents[g].1.ghost_elo;
                let b_bits = self.agents[h.opp].1.ghost_elo;
                let (na, nb) = elo_fn(a_bits, b_bits, o, anchor, n_cmp);
                proof {
                    let old_chain = chain1;
                    let held = fold_pass(e0g, hist1, gi, old_chain, k as int);
                    assert(a_bits == held[gi]);
                    assert(b_bits == held[h.opp as int]);
                    chain1 = chain1.push((na, nb));
                    assert forall|u: int| 0 <= u <= k implies fold_pass(
                        e0g,
                        hist1,
                        gi,
                        chain1,
                        u,
                    ) == fold_pass(e0g, hist1, gi, old_chain, u) by {
                        lemma_cmp_count_mono(hist1, gi, u, k as int);
                        lemma_fold_pass_prefix(e0g, hist1, gi, chain1, old_chain, u);
                    }
                    assert(chain1[cmp_count(hist1, gi, k as int) as int] == (na, nb));
                    assert forall|kk: int|
                        0 <= kk < k && ((#[trigger] hist1[kk]).opp as int) != gi implies chain1[
                        cmp_count(hist1, gi, kk) as int] == old_chain[cmp_count(
                        hist1,
                        gi,
                        kk,
                    ) as int] by {
                        lemma_cmp_count_mono(hist1, gi, kk + 1, k as int);
                    }
                }
                self.agents[g].1.ghost_elo = na;
                self.agents[h.opp].1.ghost_elo = nb;
                proof {
                    assert(ghost_elos_of(self.agents@) =~= fold_pass(
                        e0g,
                        hist1,
                        gi,
                        chain1,
                        k + 1,
                    ));
                    assert(elo_output(*elo_fn, na) && elo_output(*elo_fn, nb)) by {
                        assert(call_ensures(*elo_fn, (a_bits, b_bits, o, anchor, n_cmp), (na, nb)));
                    }
                }
            } else {
                proof {
                    assert(fold_pass(e0g, hist1, gi, chain1, k + 1) == fold_pass(
                        e0g,
                        hist1,
                        gi,
                        chain1,
                        k as int,
                    ));
                }
            }
            k += 1;
        }
        Ghost(chain1)
    }

    /// The second cross-comparison pass, symmetric to the first: the
    /// ghost's prior history ranks the two rollman sides, anchored at the
    /// ghost's rating as of the match's start.
    #[verifier::loop_isolation(false)]
    #[verifier::rlimit(100)]
    fn cross_compare_rollmen<F: Fn(u32, u32, Outcome, u32, usize) -> (u32, u32)>(
        &mut self,
        g: usize,
        r: usize,
        anchor: u32,
        score: i16,
        elo_fn: &F,
    ) -> (chain: Ghost<Seq<(u32, u32)>>)
        requires
            forall|args: (u32, u32, Outcome, u32, usize)| #[trigger] elo_fn.requires(args),
            r < old(self).agents@.len(),
            g < old(self).agents@.len(),
            forall|k: int|
                0 <= k < old(self).agents@[g as int].1.ghost_history@.len() ==> (#[trigger] old(
                    self,
                ).agents@[g as int].1.ghost_history@[k]).opp < old(self).agents@.len(),
        ensures
            final(self).agents@.len() == old(self).agents@.len(),
            final(self).matches == old(self).matches,
            final(self).logic_version == old(self).logic_version,
            final(self).awaiting == old(self).awaiting,
            forall|j: int|
                0 <= j < old(self).agents@.len() ==> (#[trigger] final(self).agents@[j]).0 == old(
                    self,
                ).agents@[j].0 && eq_but_rollman_elo(
                    final(self).agents@[j].1,
                    old(self).agents@[j].1,
                ),
            forall|j: int|
                0 <= j < old(self).agents@.len() && j != r as int && (forall|k: int|
                    0 <= k < old(self).agents@[g as int].1.ghost_history@.len() ==> (
                    #[trigger] old(self).agents@[g as int].1.ghost_history@[k]).opp as int != j)
                    ==> (#[trigger] final(self).agents@[j]).1.rollman_elo == old(
                    self,
                ).agents@[j].1.rollman_elo,
            forall|j: int|
                0 <= j < old(self).agents@.len() ==> (#[trigger] final(self).agents@[j]).1.rollman_elo == old(self).agents@[j].1.rollman_elo || elo_output(
                    *elo_fn,
                    final(self).agents@[j].1.rollman_elo,
                ),
            valid_pass(
                *elo_fn,
                rollman_elos_of(old(self).agents@),
                old(self).agents@[g as int].1.ghost_history@,
                r as int,
                score,
                anchor,
                cmp_count(
                    old(self).agents@[g as int].1.ghost_history@,
                    r as int,
                    old(self).agents@[g as int].1.ghost_history@.len() as int,
                ) as usize,
                chain@,
            ),
            rollman_elos_of(final(self).agents@) == fold_pass(
                rollman_elos_of(old(self).agents@),
                old(self).agents@[g as int].1.ghost_history@,
                r as int,
                chain@,
                old(self).agents@[g as int].1.ghost_history@.len() as int,
            ),
    {
        let ghost mid = old(self).agents@;
        let ghost hist2 = mid[g as int].1.ghost_history@;
        let ghost e0r = rollman_elos_of(mid);
        let ghost ri: int = r as int;

        let n_hist = self.agents[g].1.ghost_history.len();
        let mut n_cmp: usize = 0;
        let mut kc: usize = 0;
        while kc < n_hist
            invariant
                0 <= kc <= n_hist,
                n_hist == hist2.len(),
                self.agents@ == mid,
                n_cmp == cmp_count(hist2, ri, kc as int),
                n_cmp <= kc,
            decreases n_hist - kc,
        {
            if self.agents[g].1.ghost_history[kc].opp != r {
                n_cmp += 1;
            }
            kc += 1;
        }

        let ghost mut chain2: Seq<(u32, u32)> = Seq::empty();
        let mut k: usize = 0;
        while k < n_hist
            invariant
                0 <= k <= n_hist,
                self.agents@.len() == mid.len(),
                self.matches == old(self).matches,
                self.logic_version == old(self).logic_version,
                self.awaiting == old(self).awaiting,
                n_hist == hist2.len(),
                n_cmp == cmp_count(hist2, ri, hist2.len() as int),
                forall|j: int|
                    0 <= j < mid.len() ==> (#[trigger] self.agents@[j]).0 == mid[j].0
                        && eq_but_rollman_elo(self.agents@[j].1, mid[j].1),
                forall|j: int|
                    0 <= j < mid.len() && j != ri && (forall|k2: int|
                        0 <= k2 < hist2.len() ==> (#[trigger] hist2[k2]).opp as int != j) ==> (
                    #[trigger] self.agents@[j]).1.rollman_elo == mid[j].1.rollman_elo,
                forall|j: int|
                    0 <= j < mid.len() ==> (#[trigger] self.agents@[j]).1.rollman_elo
                        == mid[j].1.rollman_elo || elo_output(
                        *elo_fn,
                        self.agents@[j].1.rollman_elo,
                    ),
                chain2.len() == cmp_count(hist2, ri, k as int),
                rollman_elos_of(self.agents@) == fold_pass(e0r, hist2, ri, chain2, k as int),
                forall|kk: int|
                    0 <= kk < k && ((#[trigger] hist2[kk]).opp as int) != ri ==> call_ensures(
                        *elo_fn,
                        (
                            fold_pass(e0r, hist2, ri, chain2, kk)[ri],
                            fold_pass(e0r, hist2, ri, chain2, kk)[hist2[kk].opp as int],
                            crate::rating::spec_outcome(score as int, hist2[kk].opp_score as int),
                            anchor,
                            n_cmp,
                        ),
                        chain2[cmp_count(hist2, ri, kk) as int],
                    ),
            decreases n_hist - k,
        {
            let h = self.agents[g].1.ghost_history[k];
            proof {
                assert(hist2[k as int] == h);
            }
            if h.opp != r {
                let o = outcome_of(score, h.opp_score);
                let a_bits = self.agents[r].1.rollman_elo;
                let b_bits = self.agents[h.opp].1.rollman_elo;
                let (na, nb) = elo_fn(a_bits, b_bits, o, anchor, n_cmp);
                proof {
                    let old_chain = chain2;
                    let held = fold_pass(e0r, hist2, ri, old_chain, k as int);
                    assert(a_bits == held[ri]);
                    assert(b_bits == held[h.opp as int]);
                    chain2 = chain2.push((na, nb));
                    assert forall|u: int| 0 <= u <= k implies fold_pass(
                        e0r,
                        hist2,
                        ri,
                        chain2,
                        u,
                    ) == fold_pass(e0r, hist2, ri, old_chain, u) by {
                        lemma_cmp_count_mono(hist2, ri, u, k as int);
                        lemma_fold_pass_prefix(e0r, hist2, ri, chain2, old_chain, u);
                    }
                    assert(chain2[cmp_count(hist2, ri, k as int) as int] == (na, nb));
                    assert forall|kk: int|
                        0 <= kk < k && ((#[trigger] hist2[kk]).opp as int) != ri implies chain2[
                        cmp_count(hist2, ri, kk) as int] == old_chain[cmp_count(
                        hist2,
                        ri,
                        kk,
                    ) as int] by {
                        lemma_cmp_count_mono(hist2, ri, kk + 1, k as int);
                    }
                }
                self.agents[r].1.rollman_elo = na;
                self.agents[h.opp].1.rollman_elo = nb;
                proof {
                    assert(rollman_elos_of(self.agents@) =~= fold_pass(
                        e0r,
                        hist2,
                        ri,
                        chain2,
                        k + 1,
                    ));
                    assert(elo_output(*elo_fn, na) && elo_output(*elo_fn, nb)) by {
                        assert(call_ensures(*elo_fn, (a_bits, b_bits, o, anchor, n_cmp), (na, nb)));
                    }
                }
            } else {
                proof {
                    assert(fold_pass(e0r, hist2, ri, chain2, k + 1) == fold_pass(
                        e0r,
                        hist2,
                        ri,
                        chain2,
                        k as int,
                    ));
                }
            }
            k += 1;
        }
        Ghost(chain2)
    }

    /// Ingests one finalized match. Both participants' counts rise and
    /// their recency watermarks sink to the match id; then the match is
    /// cross-compared against the rollman's history (ranking the two ghost
    /// sides through `elo_fn`, anchored at the rollman's rating) and
    /// symmetrically against the ghost's history; finally the match is
    /// appended to both histories, counted against the pair, and inserted
    /// into the ledger at its id's position.
    ///
    /// `elo_fn` is the rating model: from both sides' rating bits, the
    /// first side's outcome, the anchor's rating bits and the number of
    /// comparisons folded into one step, it returns the two new ratings.
    /// The ledger states nothing about the returned bits; everything else
    /// it does is pinned by `ingested`.
    #[verifier::loop_isolation(false)]
    #[verifier::rlimit(100)]
    pub fn add_match<F: Fn(u32, u32, Outcome, u32, usize) -> (u32, u32)>(
        &mut self,
        id: u32,
        m: Match,
        elo_fn: &F,
    )
        requires
            old(self).wf(),
            old(self).can_ingest(id, m),
            forall|args: (u32, u32, Outcome, u32, usize)| #[trigger] elo_fn.requires(args),
        ensures
            final(self).wf(),
            old(self).ingested(*final(self), id, m),
            (exists|chain1: Seq<(u32, u32)>, chain2: Seq<(u32, u32)>|
                rating_model_applied(*old(self), *final(self), m, *elo_fn, chain1, chain2)),
            no_comparisons(*old(self), m) ==> forall|j: int|
                0 <= j < old(self).n_agents() ==> (#[trigger] final(self).agent(j)).ghost_elo
                    == old(self).agent(j).ghost_elo && final(self).agent(j).rollman_elo == old(
                    self,
                ).agent(j).rollman_elo,
            forall|j: int|
                0 <= j < old(self).n_agents() ==> (#[trigger] final(self).agent(j)).ghost_elo
                    == old(self).agent(j).ghost_elo || elo_output(
                    *elo_fn,
                    final(self).agent(j).ghost_elo,
                ),
            forall|j: int|
                0 <= j < old(self).n_agents() ==> (#[trigger] final(self).agent(j)).rollman_elo
                    == old(self).agent(j).rollman_elo || elo_output(
                    *elo_fn,
                    final(self).agent(j).rollman_elo,
                ),
    {
        let ghost pre = *self;
        let ghost ri: int = pre.spec_token_index(m.rollman_token@);
        let ghost gi: int = pre.spec_token_index(m.ghost_token@);
        let r = self.find_agent(&m.rollman_token).unwrap();
        let g = self.find_agent(&m.ghost_token).unwrap();
        proof {
            assert(0 <= ri < pre.n_agents() && pre.token(ri) == m.rollman_token@);
            assert(r as int == ri);
            assert(0 <= gi < pre.n_agents() && pre.token(gi) == m.ghost_token@);
            assert(g as int == gi);
            assert(pre.agent(ri).rollman_count < usize::MAX);
            assert(pre.agent(gi).ghost_count < usize::MAX);
        }

        let c = self.agents[r].1.rollman_count;
        self.agents[r].1.rollman_count = c + 1;
        let t = self.agents[r].1.rollman_time;
        if id < t {
            self.agents[r].1.rollman_time = id;
        }
        let anchor_rollman = self.agents[r].1.rollman_elo;

        let cg = self.agents[g].1.ghost_count;
        self.agents[g].1.ghost_count = cg + 1;
        let tg = self.agents[g].1.ghost_time;
        if id < tg {
            self.agents[g].1.ghost_time = id;
        }
        let anchor_ghost = self.agents[g].1.ghost_elo;

        let ghost mid = self.agents@;
        let ghost hist1 = pre.agent(ri).rollman_history@;
        let ghost e0g = ghost_elos_of(pre.agents@);
        let ghost hist2 = pre.agent(gi).ghost_history@;
        let ghost e0r = rollman_elos_of(pre.agents@);
        proof {
            assert(mid[r as int].1.rollman_history@ == hist1);
            assert(ghost_elos_of(mid) =~= e0g);
            assert forall|k3: int|
                0 <= k3 < mid[r as int].1.rollman_history@.len() implies (
            #[trigger] mid[r as int].1.rollman_history@[k3]).opp < mid.len() by {
                assert((#[trigger] pre.agent(ri).rollman_history@[k3]).opp < pre.n_agents());
            }
        }
        // Rank the two ghost sides of this match and of each prior match
        // with the same rollman, anchored at the shared rollman's rating.
        let Ghost(chain1) = self.cross_compare_ghosts(r, g, anchor_rollman, m.ghost_score, elo_fn);

        let ghost mid2 = self.agents@;
        proof {
            assert(mid2[g as int].1.ghost_history@ == hist2);
            assert(rollman_elos_of(mid2) =~= e0r);
            assert forall|k3: int|
                0 <= k3 < mid2[g as int].1.ghost_history@.len() implies (
            #[trigger] mid2[g as int].1.ghost_history@[k3]).opp < mid2.len() by {
                assert((#[trigger] pre.agent(gi).ghost_history@[k3]).opp < pre.n_agents());
            }
        }
        // Symmetrically rank the two rollman sides through the shared
        // ghost, anchored at the ghost's rating as of this match's start.
        let Ghost(chain2) = self.cross_compare_rollmen(
            g,
            r,
            anchor_ghost,
            m.rollman_score,
            elo_fn,
        );
        let ghost after_loops = self.agents@;
        proof {
            // both passes recorded valid chains over the entry ratings
            assert(valid_pass(
                *elo_fn,
                e0g,
                hist1,
                gi,
                m.ghost_score,
                anchor_rollman,
                cmp_count(hist1, gi, hist1.len() as int) as usize,
                chain1,
            ));
            assert(ghost_elos_of(mid2) == fold_pass(e0g, hist1, gi, chain1, hist1.len() as int));
            assert(valid_pass(
                *elo_fn,
                e0r,
                hist2,
                ri,
                m.rollman_score,
                anchor_ghost,
                cmp_count(hist2, ri, hist2.len() as int) as usize,
                chain2,
            ));
            assert(rollman_elos_of(after_loops) == fold_pass(
                e0r,
                hist2,
                ri,
                chain2,
                hist2.len() as int,
            ));
            assert(anchor_rollman == pre.agent(ri).rollman_elo);
            assert(anchor_ghost == pre.agent(gi).ghost_elo);
        }

        proof {
            // Consolidate: after both loops only ratings have moved.
            assert forall|j: int| 0 <= j < pre.agents@.len() implies (#[trigger] self.agents@[j]).0
                == pre.agents@[j].0 && self.agents@[j].1.identity_eq(pre.agents@[j].1)
                && self.agents@[j].1.rollman_history == pre.agents@[j].1.rollman_history
                && self.agents@[j].1.ghost_history == pre.agents@[j].1.ghost_history
                && self.agents@[j].1.pair_counts == pre.agents@[j].1.pair_counts
                && self.agents@[j].1.rollman_count == mid[j].1.rollman_count
                && self.agents@[j].1.ghost_count == mid[j].1.ghost_count
                && self.agents@[j].1.rollman_time == mid[j].1.rollman_time
                && self.agents@[j].1.ghost_time == mid[j].1.ghost_time by {
                assert(eq_but_rollman_elo(self.agents@[j].1, mid2[j].1));
                assert(eq_but_ghost_elo(mid2[j].1, mid[j].1));
            }
        }

        self.agents[r].1.rollman_history.push(
            HistEntry { id, opp: g, opp_score: m.ghost_score },
        );
        self.agents[g].1.ghost_history.push(
            HistEntry { id, opp: r, opp_score: m.rollman_score },
        );

        // Count the pair.
        let ghost pc_pre = self.agents@[r as int].1.pair_counts@;
        proof {
            assert(pc_pre == pre.agents@[ri].1.pair_counts@);
        }
        let npc = self.agents[r].1.pair_counts.len();
        let mut kp: usize = 0;
        while kp < npc && self.agents[r].1.pair_counts[kp].0 != g
            invariant
                0 <= kp <= npc,
                self.agents@[r as int].1.pair_counts@ == pc_pre,
                npc == pc_pre.len(),
                forall|j: int| 0 <= j < kp ==> (#[trigger] pc_pre[j]).0 != g,
            decreases npc - kp,
        {
            kp += 1;
        }
        if kp < npc {
            proof {
                assert((#[trigger] pre.agent(ri).pair_counts@[kp as int]).0 == gi);
                assert(pre.agent(ri).pair_counts@[kp as int].1 < u32::MAX);
            }
            let cp = self.agents[r].1.pair_counts[kp].1;
            self.agents[r].1.pair_counts[kp] = (g, cp + 1);
            proof {
                let kc = choose|k: int| 0 <= k < pc_pre.len() && (#[trigger] pc_pre[k]).0 == g;
                assert(pc_pre[kp as int].0 == g);
                if kc < kp as int {
                    assert(pre.agent(ri).pair_counts@[kc].0 == gi);
                    assert(false);
                } else if kc > kp as int {
                    assert(pre.agent(ri).pair_counts@[kc].0 == gi);
                    assert(pre.agent(ri).pair_counts@[kp as int].0 == gi);
                    assert(false);
                }
                assert(pair_bumped(pc_pre, self.agents@[r as int].1.pair_counts@, g));
            }
        } else {
            self.agents[r].1.pair_counts.push((g, 1));
            proof {
                assert(!(exists|k: int| 0 <= k < pc_pre.len() && (#[trigger] pc_pre[k]).0 == g));
                assert(pair_bumped(pc_pre, self.agents@[r as int].1.pair_counts@, g));
            }
        }

        // Insert the match at its sorted position.
        let ghost mpre = self.matches@;
        let nm = self.matches.len();
        let mut pos: usize = 0;
        while pos < nm && self.matches[pos].0 < id
            invariant
                0 <= pos <= nm,
                self.matches@ == mpre,
                nm == mpre.len(),
                forall|j: int| 0 <= j < pos ==> (#[trigger] mpre[j]).0 < id,
            decreases nm - pos,
        {
            pos += 1;
        }
        proof {
            assert forall|j: int| pos <= j < mpre.len() implies (#[trigger] mpre[j]).0 > id by {
                assert((#[trigger] pre.matches@[j]).0 != id);
                if j > pos {
                    assert(mpre[pos as int].0 < mpre[j].0);
                }
            }
        }
        self.matches.insert(pos, (id, m));

        proof {
            let fs = *self;
            // Structural summary of the agent table against the entry state.
            assert forall|j: int| 0 <= j < pre.agents@.len() implies (#[trigger] fs.agents@[j]).0
                == pre.agents@[j].0 && fs.agents@[j].1.identity_eq(pre.agents@[j].1) by {}
            assert forall|j: int|
                0 <= j < pre.agents@.len() && j != ri && j != gi implies rollman_struct_eq(
                (#[trigger] fs.agents@[j]).1,
                pre.agents@[j].1,
            ) && ghost_struct_eq(fs.agents@[j].1, pre.agents@[j].1) by {
                assert(mid[j] == pre.agents@[j]);
            }
            assert(fs.agent(ri).rollman_count == pre.agent(ri).rollman_count + 1);
            assert(fs.agent(ri).rollman_time == min_time(pre.agent(ri).rollman_time, id));
            assert(fs.agent(ri).rollman_history@ == pre.agent(ri).rollman_history@.push(
                HistEntry { id, opp: g, opp_score: m.ghost_score },
            ));
            assert(pair_bumped(pre.agent(ri).pair_counts@, fs.agent(ri).pair_counts@, g));
            assert(fs.agent(gi).ghost_count == pre.agent(gi).ghost_count + 1);
            assert(fs.agent(gi).ghost_time == min_time(pre.agent(gi).ghost_time, id));
            assert(fs.agent(gi).ghost_history@ == pre.agent(gi).ghost_history@.push(
                HistEntry { id, opp: r, opp_score: m.rollman_score },
            ));
            if ri != gi {
                assert(ghost_struct_eq(fs.agent(ri), pre.agent(ri)));
                assert(rollman_struct_eq(fs.agent(gi), pre.agent(gi)));
            }

            // sortedness of the ledger
            assert forall|p: int, q: int|
                0 <= p < q < fs.matches@.len() implies (#[trigger] fs.matches@[p]).0 < (
            #[trigger] fs.matches@[q]).0 by {
                if q < pos {
                } else if p < pos && q == pos {
                } else if p < pos && q > pos {
                    assert(mpre[q - 1].0 > id);
                    assert(mpre[p].0 < id);
                } else if p == pos {
                    assert(mpre[q - 1].0 > id);
                } else {
                }
            }
            // the match set grows by exactly this match
            let f = |p: (u32, Match)| (p.0, match_view(p.1));
            assert(fs.match_set() =~= pre.match_set().insert((id, match_view(m)))) by {
                assert forall|x: (u32, (Seq<char>, Seq<char>, i16, i16))|
                    fs.match_set().contains(x) implies pre.match_set().insert(
                    (id, match_view(m)),
                ).contains(x) by {
                    let j = choose|j: int|
                        0 <= j < fs.matches@.map_values(f).len() && fs.matches@.map_values(f)[j]
                            == x;
                    if j < pos {
                        assert(pre.matches@.map_values(f)[j] == x);
                    } else if j == pos {
                    } else {
                        assert(pre.matches@.map_values(f)[j - 1] == x);
                    }
                }
                assert forall|x: (u32, (Seq<char>, Seq<char>, i16, i16))|
                    pre.match_set().insert((id, match_view(m))).contains(x) implies fs.match_set()
                    .contains(x) by {
                    if x == (id, match_view(m)) {
                        assert(fs.matches@.map_values(f)[pos as int] == x);
                    } else {
                        let j = choose|j: int|
                            0 <= j < pre.matches@.map_values(f).len() && pre.matches@.map_values(
                                f,
                            )[j] == x;
                        if j < pos {
                            assert(fs.matches@.map_values(f)[j] == x);
                        } else {
                            assert(fs.matches@.map_values(f)[j + 1] == x);
                        }
                    }
                }
            }
            // participants of every ledger match stay registered
            assert forall|k3: int|
                0 <= k3 < fs.matches@.len() implies fs.spec_has_token(
                (#[trigger] fs.matches@[k3]).1.rollman_token@,
            ) && fs.spec_has_token(fs.matches@[k3].1.ghost_token@) by {
                let mk = fs.matches@[k3].1;
                assert(pre.spec_has_token(mk.rollman_token@) && pre.spec_has_token(
                    mk.ghost_token@,
                )) by {
                    if k3 < pos {
                        assert((#[trigger] pre.matches@[k3]).1 == mk);
                    } else if k3 == pos {
                    } else {
                        assert((#[trigger] pre.matches@[k3 - 1]).1 == mk);
                    }
                }
                let j1 = choose|j: int|
                    0 <= j < pre.n_agents() && pre.token(j) == mk.rollman_token@;
                assert(fs.token(j1) == mk.rollman_token@);
                let j2 = choose|j: int| 0 <= j < pre.n_agents() && pre.token(j) == mk.ghost_token@;
                assert(fs.token(j2) == mk.ghost_token@);
            }
            // distinct tokens
            assert forall|p: int, q: int|
                0 <= p < q < fs.n_agents() implies fs.token(p) != fs.token(q) by {
                assert(pre.token(p) != pre.token(q));
            }
            // history entries still point into the table
            assert forall|i: int, k3: int|
                0 <= i < fs.n_agents() && 0 <= k3 < fs.agent(i).rollman_history@.len() implies (
            #[trigger] fs.agent(i).rollman_history@[k3]).opp < fs.n_agents() by {
                if i == ri && k3 == fs.agent(i).rollman_history@.len() - 1 {
                } else {
                    assert((#[trigger] pre.agent(i).rollman_history@[k3]).opp < pre.n_agents());
                }
            }
            assert forall|i: int, k3: int|
                0 <= i < fs.n_agents() && 0 <= k3 < fs.agent(i).ghost_history@.len() implies (
            #[trigger] fs.agent(i).ghost_history@[k3]).opp < fs.n_agents() by {
                if i == gi && k3 == fs.agent(i).ghost_history@.len() - 1 {
                } else {
                    assert((#[trigger] pre.agent(i).ghost_history@[k3]).opp < pre.n_agents());
                }
            }
            // pair keys stay in range and distinct
            let pcf = fs.agent(ri).pair_counts@;
            assert forall|i: int, k3: int|
                0 <= i < fs.n_agents() && 0 <= k3 < fs.agent(i).pair_counts@.len() implies (
            #[trigger] fs.agent(i).pair_counts@[k3]).0 < fs.n_agents() by {
                if i == ri {
                    if k3 < pc_pre.len() {
                        assert((#[trigger] pre.agent(i).pair_counts@[k3]).0 < pre.n_agents());
                        assert(pcf[k3].0 == pre.agent(i).pair_counts@[k3].0 || pcf[k3].0 == g);
                    } else {
                        assert(pcf[k3].0 == g);
                    }
                } else {
                    assert((#[trigger] pre.agent(i).pair_counts@[k3]).0 < pre.n_agents());
                }
            }
            assert forall|i: int, k1: int, k2a: int|
                0 <= i < fs.n_agents() && 0 <= k1 < k2a < fs.agent(i).pair_counts@.len() implies (
            #[trigger] fs.agent(i).pair_counts@[k1]).0 != (
            #[trigger] fs.agent(i).pair_counts@[k2a]).0 by {
                if i == ri {
                    if k2a < pc_pre.len() {
                        assert((#[trigger] pre.agent(i).pair_counts@[k1]).0 != (
                        #[trigger] pre.agent(i).pair_counts@[k2a]).0);
                        assert(pcf[k1].0 == pre.agent(i).pair_counts@[k1].0);
                        assert(pcf[k2a].0 == pre.agent(i).pair_counts@[k2a].0);
                    } else {
                        assert(pcf[k2a].0 == g);
                        assert(pc_pre[k1].0 != g);
                    }
                } else {
                    assert((#[trigger] pre.agent(i).pair_counts@[k1]).0 != (
                    #[trigger] pre.agent(i).pair_counts@[k2a]).0);
                }
            }
            // failure sets stay sorted
            assert forall|i: int| 0 <= i < fs.n_agents() implies (#[trigger] fs.agent(
                i,
            )).wf() by {
                assert(pre.agent(i).wf());
                assert(fs.agent(i).failure == pre.agent(i).failure);
            }
            // the ratings are exactly the two folds of the recorded chains
            assert(ghost_elos_of(after_loops) =~= ghost_elos_of(mid2));
            assert(ghost_elos_of(fs.agents@) =~= ghost_elos_of(after_loops));
            assert(rollman_elos_of(fs.agents@) =~= rollman_elos_of(after_loops));
            assert(rating_model_applied(pre, fs, m, *elo_fn, chain1, chain2));
            if no_comparisons(pre, m) {
                lemma_fold_pass_skip_all(e0g, hist1, gi, chain1, hist1.len() as int);
                lemma_fold_pass_skip_all(e0r, hist2, ri, chain2, hist2.len() as int);
                assert forall|j: int| 0 <= j < pre.n_agents() implies (#[trigger] fs.agent(
                    j,
                )).ghost_elo == pre.agent(j).ghost_elo && fs.agent(j).rollman_elo == pre.agent(
                    j,
                ).rollman_elo by {
                    assert(ghost_elos_of(fs.agents@)[j] == e0g[j]);
                    assert(rollman_elos_of(fs.agents@)[j] == e0r[j]);
                }
            }
            // every changed rating is an output of the rating model
            assert forall|j: int| 0 <= j < pre.n_agents() implies ((#[trigger] fs.agent(
                j,
            )).ghost_elo == pre.agent(j).ghost_elo || elo_output(*elo_fn, fs.agent(j).ghost_elo))
                && (fs.agent(j).rollman_elo == pre.agent(j).rollman_elo || elo_output(
                *elo_fn,
                fs.agent(j).rollman_elo,
            )) by {
                assert(fs.agents@[j].1.ghost_elo == after_loops[j].1.ghost_elo);
                assert(after_loops[j].1.ghost_elo == mid2[j].1.ghost_elo);
                assert(mid2[j].1.ghost_elo == mid[j].1.ghost_elo || elo_output(
                    *elo_fn,
                    mid2[j].1.ghost_elo,
                ));
                assert(mid[j].1.ghost_elo == pre.agents@[j].1.ghost_elo);
                assert(fs.agents@[j].1.rollman_elo == after_loops[j].1.rollman_elo);
                assert(after_loops[j].1.rollman_elo == mid2[j].1.rollman_elo || elo_output(
                    *elo_fn,
                    after_loops[j].1.rollman_elo,
                ));
                assert(mid2[j].1.rollman_elo == mid[j].1.rollman_elo);
                assert(mid[j].1.rollman_elo == pre.agents@[j].1.rollman_elo);
            }
        }
    }
}

} // verus!
