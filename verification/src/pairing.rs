//! The pairing selector: which (rollman, ghost) pairs to schedule next,
//! under the capacity budget of the platform.

use vstd::prelude::*;

use crate::agent::spec_eligible;
use crate::constants::{ELO_FLOOR_BITS, MAX_MATCHES};
use crate::rating::{order_key, spec_order_key};
use crate::stats::Stats;

verus! {

broadcast use vstd::seq_lib::group_to_multiset_ensures;

/// One candidate pairing: the two tokens, how often the exact pair has
/// already played, the scheduling priority the embedding computed for it
/// (as rating-order bits), and the total-order key of that priority.
pub struct Candidate {
    pub rollman_token: String,
    pub ghost_token: String,
    pub count: u32,
    pub priority_bits: u32,
    pub key: u32,
}

/// How many new matches to create under the capacity budget: the room
/// left once the matches now judging and queued are counted. Zero when
/// the platform is already at or over the budget.
pub fn matches_to_create(judging: usize, waiting: usize) -> (r: usize)
    ensures
        r == if judging + waiting >= MAX_MATCHES {
            0int
        } else {
            MAX_MATCHES - (judging + waiting)
        },
        judging + waiting >= MAX_MATCHES ==> r == 0,
{
    if judging >= MAX_MATCHES || waiting >= MAX_MATCHES - judging {
        0
    } else {
        MAX_MATCHES - judging - waiting
    }
}

/// Inserting an element anywhere in a sequence adds it to the multiset.
pub proof fn lemma_insert_multiset<T>(s: Seq<T>, i: int, x: T)
    requires
        0 <= i <= s.len(),
    ensures
        s.insert(i, x).to_multiset() == s.to_multiset().insert(x),
{
    broadcast use vstd::multiset::group_multiset_axioms;

    let s2 = s.insert(i, x);
    assert(s2.remove(i) =~= s);
    assert(s2[i] == x);
    assert(s.to_multiset() == s2.to_multiset().remove(x));
    assert(s2.contains(x));
    assert(s2.to_multiset().count(x) > 0);
    assert(s2.to_multiset().remove(x).insert(x) =~= s2.to_multiset());
}

/// Sorts candidates ascending by priority key, keeping the collection.
pub fn sort_candidates(v: &mut Vec<Candidate>)
    ensures
        final(v)@.len() == old(v)@.len(),
        final(v)@.to_multiset() == old(v)@.to_multiset(),
        forall|i: int, j: int|
            0 <= i < j < final(v)@.len() ==> (#[trigger] final(v)@[i]).key <= (
            #[trigger] final(v)@[j]).key,
{
    broadcast use vstd::seq_lib::group_to_multiset_ensures;

    let ghost orig = v@;
    let mut i: usize = 1;
    while i < v.len()
        invariant
            1 <= i,
            v@.len() == orig.len(),
            v@.to_multiset() == orig.to_multiset(),
            forall|p: int, q: int|
                0 <= p < q < i && q < v@.len() ==> (#[trigger] v@[p]).key <= (
                #[trigger] v@[q]).key,
        decreases v@.len() - i,
    {
        let xk = v[i].key;
        let mut p: usize = i;
        let ghost before = v@;
        while p > 0 && v[p - 1].key > xk
            invariant
                0 <= p <= i,
                i < v@.len(),
                v@ == before,
                xk == v@[i as int].key,
                forall|q: int| p <= q < i ==> (#[trigger] v@[q]).key > xk,
            decreases p,
        {
            p -= 1;
        }
        let y = v.remove(i);
        v.insert(p, y);
        proof {
            let after = v@;
            let removed = before.remove(i as int);
            assert(removed.to_multiset() == before.to_multiset().remove(y));
            lemma_insert_multiset(removed, p as int, y);
            assert(before.to_multiset().count(y) > 0) by {
                assert(before[i as int] == y);
                assert(before.contains(y));
            }
            assert(before.to_multiset().remove(y).insert(y) =~= before.to_multiset()) by {
                broadcast use vstd::multiset::group_multiset_axioms;

            }
            assert(after.to_multiset() == orig.to_multiset());
            // the new prefix stays sorted
            assert forall|p2: int, q2: int|
                0 <= p2 < q2 < i + 1 && q2 < after.len() implies (#[trigger] after[p2]).key <= (
            #[trigger] after[q2]).key by {
                assert(after =~= removed.insert(p as int, y));
                if q2 < p {
                    assert(after[p2] == before[p2] && after[q2] == before[q2]);
                } else if p2 < p && q2 == p {
                    assert(after[p2] == before[p2]);
                    assert(after[q2] == y);
                    assert(before[p - 1].key <= xk);
                    assert(before[p2].key <= before[p - 1].key);
                } else if p2 < p && q2 > p {
                    assert(after[p2] == before[p2]);
                    assert(after[q2] == before[q2 - 1]);
                    assert(before[p - 1].key <= before[q2 - 1].key || p == q2 - 1 + 1);
                    if p <= q2 - 1 {
                        assert(before[q2 - 1].key > xk || before[q2 - 1].key <= xk);
                        if q2 - 1 < i {
                            assert(before[q2 - 1].key > xk);
                        }
                        assert(before[p2].key <= before[q2 - 1].key);
                    }
                } else if p2 == p {
                    assert(after[p2] == y);
                    assert(after[q2] == before[q2 - 1]);
                    if q2 - 1 < i {
                        assert(before[q2 - 1].key > xk);
                    }
                } else {
                    assert(after[p2] == before[p2 - 1]);
                    assert(after[q2] == before[q2 - 1]);
                    if p2 - 1 < i && q2 - 1 < i {
                        assert(before[p2 - 1].key <= before[q2 - 1].key || p2 - 1 >= q2 - 1);
                    }
                }
            }
        }
        i += 1;
    }
}

/// Shuffles the candidate list, stably orders it by ascending priority
/// key (the shuffle makes equal-priority candidates uniformly random),
/// and keeps the first `limit` entries: the batch to schedule.
pub fn schedule_order(cands: Vec<Candidate>, limit: usize) -> (r: Vec<Candidate>)
    ensures
        r@.len() == if limit < cands@.len() {
            limit as int
        } else {
            cands@.len() as int
        },
        forall|i: int, j: int|
            0 <= i < j < r@.len() ==> (#[trigger] r@[i]).key <= (#[trigger] r@[j]).key,
        forall|i: int| 0 <= i < r@.len() ==> cands@.contains(#[trigger] r@[i]),
        exists|p: Seq<Candidate>|
            {
                &&& p.to_multiset() == cands@.to_multiset()
                &&& (forall|i: int, j: int|
                    0 <= i < j < p.len() ==> (#[trigger] p[i]).key <= (#[trigger] p[j]).key)
                &&& r@ == p.take(r@.len() as int)
            },
{
    broadcast use vstd::seq_lib::group_to_multiset_ensures;

    let ghost orig = cands@;
    let mut v = cands;
    crate::reload::shuffle_vec(&mut v);
    sort_candidates(&mut v);
    let ghost sorted = v@;
    v.truncate(limit);
    proof {
        if limit < sorted.len() {
            assert(v@ == sorted.subrange(0, limit as int));
        }
        assert forall|i: int| 0 <= i < v@.len() implies orig.contains(#[trigger] v@[i]) by {
            assert(sorted[i] == v@[i]);
            assert(sorted.contains(sorted[i]));
            assert(sorted.to_multiset().count(sorted[i]) > 0);
            assert(orig.to_multiset().count(sorted[i]) > 0);
            assert(orig.contains(sorted[i]));
            let k = choose|k: int| 0 <= k < orig.len() && orig[k] == sorted[i];
            assert(0 <= k < orig.len() && orig[k] == v@[i]);
        }
        // the batch is the prefix of one sorted permutation of the input
        assert(v@ =~= sorted.take(v@.len() as int));
        assert({
            &&& sorted.to_multiset() == orig.to_multiset()
            &&& (forall|i: int, j: int|
                0 <= i < j < sorted.len() ==> (#[trigger] sorted[i]).key <= (
                #[trigger] sorted[j]).key)
            &&& v@ == sorted.take(v@.len() as int)
        });
    }
    v
}

impl Stats {
    /// The agent at index `i` is worth scheduling as rollman: eligible and
    /// rated above the pairing floor.
    pub open spec fn is_rollman_candidate(self, i: int) -> bool {
        &&& spec_eligible(
            self.agent(i).rollman_count as int,
            self.agent(i).failure@.len() as int,
        )
        &&& spec_order_key(self.agent(i).rollman_elo) > spec_order_key(ELO_FLOOR_BITS)
    }

    /// The agent at index `i` is worth scheduling as ghost.
    pub open spec fn is_ghost_candidate(self, i: int) -> bool {
        &&& spec_eligible(self.agent(i).ghost_count as int, self.agent(i).failure@.len() as int)
        &&& spec_order_key(self.agent(i).ghost_elo) > spec_order_key(ELO_FLOOR_BITS)
    }

    /// Among the first `upto` agents, how many rollman candidates of the
    /// same user outrank the agent at `i`: a strictly better rating, or an
    /// equal rating at a smaller index.
    pub open spec fn rollman_rank_upto(self, i: int, upto: int) -> nat
        decreases upto,
    {
        if upto <= 0 {
            0
        } else {
            self.rollman_rank_upto(i, upto - 1) + if self.rollman_beats(upto - 1, i) {
                1nat
            } else {
                0nat
            }
        }
    }

    /// Agent `j` sits above agent `i` in their user's rollman ranking.
    pub open spec fn rollman_beats(self, j: int, i: int) -> bool {
        &&& self.is_rollman_candidate(j)
        &&& self.agent(j).user@ == self.agent(i).user@
        &&& {
            let kj = spec_order_key(self.agent(j).rollman_elo);
            let ki = spec_order_key(self.agent(i).rollman_elo);
            kj > ki || (kj == ki && j < i)
        }
    }

    /// As `rollman_rank_upto`, for the ghost role.
    pub open spec fn ghost_rank_upto(self, i: int, upto: int) -> nat
        decreases upto,
    {
        if upto <= 0 {
            0
        } else {
            self.ghost_rank_upto(i, upto - 1) + if self.ghost_beats(upto - 1, i) {
                1nat
            } else {
                0nat
            }
        }
    }

    /// Agent `j` sits above agent `i` in their user's ghost ranking.
    pub open spec fn ghost_beats(self, j: int, i: int) -> bool {
        &&& self.is_ghost_candidate(j)
        &&& self.agent(j).user@ == self.agent(i).user@
        &&& {
            let kj = spec_order_key(self.agent(j).ghost_elo);
            let ki = spec_order_key(self.agent(i).ghost_elo);
            kj > ki || (kj == ki && j < i)
        }
    }

    /// The agent's zero-based rank among its user's rollman candidates:
    /// its user's best candidate gets rank zero.
    pub fn rollman_rank(&self, i: usize) -> (r: usize)
        requires
            i < self.n_agents(),
        ensures
            r == self.rollman_rank_upto(i as int, self.n_agents()),
    {
        let n = self.agents.len();
        let mut r: usize = 0;
        let mut j: usize = 0;
        while j < n
            invariant
                0 <= j <= n,
                n == self.n_agents(),
                i < self.n_agents(),
                r == self.rollman_rank_upto(i as int, j as int),
                r <= j,
            decreases n - j,
        {
            let cj = self.agents[j].1.rollman_count;
            let fj = self.agents[j].1.failure.len();
            let above = crate::agent::eligible(cj, fj) && order_key(self.agents[j].1.rollman_elo)
                > order_key(ELO_FLOOR_BITS);
            if above && self.agents[j].1.user == self.agents[i].1.user {
                let kj = order_key(self.agents[j].1.rollman_elo);
                let ki = order_key(self.agents[i].1.rollman_elo);
                if kj > ki || (kj == ki && j < i) {
                    r += 1;
                }
            }
            j += 1;
        }
        r
    }

    /// The agent's zero-based rank among its user's ghost candidates.
    pub fn ghost_rank(&self, i: usize) -> (r: usize)
        requires
            i < self.n_agents(),
        ensures
            r == self.ghost_rank_upto(i as int, self.n_agents()),
    {
        let n = self.agents.len();
        let mut r: usize = 0;
        let mut j: usize = 0;
        while j < n
            invariant
                0 <= j <= n,
                n == self.n_agents(),
                i < self.n_agents(),
                r == self.ghost_rank_upto(i as int, j as int),
                r <= j,
            decreases n - j,
        {
            let cj = self.agents[j].1.ghost_count;
            let fj = self.agents[j].1.failure.len();
            let above = crate::agent::eligible(cj, fj) && order_key(self.agents[j].1.ghost_elo)
                > order_key(ELO_FLOOR_BITS);
            if above && self.agents[j].1.user == self.agents[i].1.user {
                let kj = order_key(self.agents[j].1.ghost_elo);
                let ki = order_key(self.agents[i].1.ghost_elo);
                if kj > ki || (kj == ki && j < i) {
                    r += 1;
                }
            }
            j += 1;
        }
        r
    }

    /// The indices of all rollman candidates, in table order.
    pub fn rollman_candidate_indices(&self) -> (r: Vec<usize>)
        ensures
            forall|a: int, b: int| 0 <= a < b < r@.len() ==> r@[a] < r@[b],
            forall|a: int|
                0 <= a < r@.len() ==> (#[trigger] r@[a]) < self.n_agents()
                    && self.is_rollman_candidate(r@[a] as int),
            forall|i: int|
                0 <= i < self.n_agents() && self.is_rollman_candidate(i) ==> r@.contains(
                    i as usize,
                ),
    {
        let n = self.agents.len();
        let mut r: Vec<usize> = Vec::new();
        let mut i: usize = 0;
        while i < n
            invariant
                0 <= i <= n,
                n == self.n_agents(),
                forall|a: int, b: int| 0 <= a < b < r@.len() ==> r@[a] < r@[b],
                forall|a: int|
                    0 <= a < r@.len() ==> (#[trigger] r@[a]) < i && self.is_rollman_candidate(
                        r@[a] as int,
                    ),
                forall|j: int|
                    0 <= j < i && self.is_rollman_candidate(j) ==> r@.contains(j as usize),
            decreases n - i,
        {
            let c = self.agents[i].1.rollman_count;
            let f = self.agents[i].1.failure.len();
            let ghost r0 = r@;
            if crate::agent::eligible(c, f) && order_key(self.agents[i].1.rollman_elo) > order_key(
                ELO_FLOOR_BITS,
            ) {
                r.push(i);
                proof {
                    assert(r@.last() == i);
                    assert forall|j: int|
                        0 <= j < i && self.is_rollman_candidate(j) implies r@.contains(
                        j as usize,
                    ) by {
                        let k = choose|k: int| 0 <= k < r0.len() && r0[k] == j as usize;
                        assert(r@[k] == j as usize);
                    }
                }
            }
            i += 1;
        }
        r
    }

    /// The indices of all ghost candidates, in table order.
    pub fn ghost_candidate_indices(&self) -> (r: Vec<usize>)
        ensures
            forall|a: int, b: int| 0 <= a < b < r@.len() ==> r@[a] < r@[b],
            forall|a: int|
                0 <= a < r@.len() ==> (#[trigger] r@[a]) < self.n_agents()
                    && self.is_ghost_candidate(r@[a] as int),
            forall|i: int|
                0 <= i < self.n_agents() && self.is_ghost_candidate(i) ==> r@.contains(i as usize),
    {
        let n = self.agents.len();
        let mut r: Vec<usize> = Vec::new();
        let mut i: usize = 0;
        while i < n
            invariant
                0 <= i <= n,
                n == self.n_agents(),
                forall|a: int, b: int| 0 <= a < b < r@.len() ==> r@[a] < r@[b],
                forall|a: int|
                    0 <= a < r@.len() ==> (#[trigger] r@[a]) < i && self.is_ghost_candidate(
                        r@[a] as int,
                    ),
                forall|j: int| 0 <= j < i && self.is_ghost_candidate(j) ==> r@.contains(j as usize),
            decreases n - i,
        {
            let c = self.agents[i].1.ghost_count;
            let f = self.agents[i].1.failure.len();
            let ghost r0 = r@;
            if crate::agent::eligible(c, f) && order_key(self.agents[i].1.ghost_elo) > order_key(
                ELO_FLOOR_BITS,
            ) {
                r.push(i);
                proof {
                    assert(r@.last() == i);
                    assert forall|j: int|
                        0 <= j < i && self.is_ghost_candidate(j) implies r@.contains(
                        j as usize,
                    ) by {
                        let k = choose|k: int| 0 <= k < r0.len() && r0[k] == j as usize;
                        assert(r@[k] == j as usize);
                    }
                }
            }
            i += 1;
        }
        r
    }

    /// How often the pair (rollman index, ghost index) has already played.
    pub fn pair_count_at(&self, r: usize, g: usize) -> (c: u32)
        requires
            self.wf(),
            r < self.n_agents(),
        ensures
            c == self.spec_pair_count(r as int, g as int),
    {
        let pc_len = self.agents[r].1.pair_counts.len();
        let mut k: usize = 0;
        while k < pc_len && self.agents[r].1.pair_counts[k].0 != g
            invariant
                0 <= k <= pc_len,
                r < self.n_agents(),
                pc_len == self.agent(r as int).pair_counts@.len(),
                forall|j: int|
                    0 <= j < k ==> (#[trigger] self.agent(r as int).pair_counts@[j]).0 != g,
            decreases pc_len - k,
        {
            k += 1;
        }
        if k < pc_len {
            proof {
                let pc = self.agent(r as int).pair_counts@;
                assert(pc[k as int].0 == g);
                let kc = choose|j: int| 0 <= j < pc.len() && (#[trigger] pc[j]).0 == g;
                if kc != k as int {
                    assert((#[trigger] self.agent(r as int).pair_counts@[kc]).0 == g);
                    assert(false);
                }
            }
            self.agents[r].1.pair_counts[k].1
        } else {
            0
        }
    }

    /// The recorded pairwise count of (rollman index, ghost index), zero
    /// when the pair has never played.
    pub open spec fn spec_pair_count(self, r: int, g: int) -> u32 {
        let pc = self.agent(r).pair_counts@;
        if exists|k: int| 0 <= k < pc.len() && (#[trigger] pc[k]).0 == (g as usize) {
            pc[choose|k: int| 0 <= k < pc.len() && (#[trigger] pc[k]).0 == (g as usize)].1
        } else {
            0u32
        }
    }

    /// Builds the full cross product of candidate pairs, rollman-major, in
    /// the given candidate order. For each pair the embedding's priority
    /// function is consulted with both ratings, the pair's played count
    /// and both intra-user ranks; its result is kept with its order key.
    #[verifier::loop_isolation(false)]
    pub fn candidate_pairs<F: Fn(u32, u32, u32, usize, usize) -> u32>(
        &self,
        rollmen: &Vec<usize>,
        ghosts: &Vec<usize>,
        priority_fn: &F,
    ) -> (r: Vec<Candidate>)
        requires
            self.wf(),
            forall|args: (u32, u32, u32, usize, usize)| #[trigger] priority_fn.requires(args),
            forall|a: int| 0 <= a < rollmen@.len() ==> (#[trigger] rollmen@[a]) < self.n_agents(),
            forall|b: int| 0 <= b < ghosts@.len() ==> (#[trigger] ghosts@[b]) < self.n_agents(),
            rollmen@.len() * ghosts@.len() <= usize::MAX,
        ensures
            r@.len() == rollmen@.len() * ghosts@.len(),
            forall|a: int, b: int|
                0 <= a < rollmen@.len() && 0 <= b < ghosts@.len() ==> {
                    let c = #[trigger] r@[a * ghosts@.len() + b];
                    let ri = rollmen@[a] as int;
                    let gi = ghosts@[b] as int;
                    &&& c.rollman_token@ == self.token(ri)
                    &&& c.ghost_token@ == self.token(gi)
                    &&& c.count == self.spec_pair_count(ri, gi)
                    &&& call_ensures(
                        *priority_fn,
                        (
                            self.agent(ri).rollman_elo,
                            self.agent(gi).ghost_elo,
                            c.count,
                            self.rollman_rank_upto(ri, self.n_agents()) as usize,
                            self.ghost_rank_upto(gi, self.n_agents()) as usize,
                        ),
                        c.priority_bits,
                    )
                    &&& c.key == spec_order_key(c.priority_bits)
                },
    {
        let nr = rollmen.len();
        let ng = ghosts.len();
        let mut out: Vec<Candidate> = Vec::new();
        let mut a: usize = 0;
        while a < nr
            invariant
                0 <= a <= nr,
                out@.len() == a * ng,
                forall|a2: int, b2: int|
                    0 <= a2 < a && 0 <= b2 < ng ==> {
                        let c = #[trigger] out@[a2 * ng + b2];
                        let ri = rollmen@[a2] as int;
                        let gi = ghosts@[b2] as int;
                        &&& c.rollman_token@ == self.token(ri)
                        &&& c.ghost_token@ == self.token(gi)
                        &&& c.count == self.spec_pair_count(ri, gi)
                        &&& call_ensures(
                            *priority_fn,
                            (
                                self.agent(ri).rollman_elo,
                                self.agent(gi).ghost_elo,
                                c.count,
                                self.rollman_rank_upto(ri, self.n_agents()) as usize,
                                self.ghost_rank_upto(gi, self.n_agents()) as usize,
                            ),
                            c.priority_bits,
                        )
                        &&& c.key == spec_order_key(c.priority_bits)
                    },
            decreases nr - a,
        {
            let ri = rollmen[a];
            let rank_a = self.rollman_rank(ri);
            let relo = self.agents[ri].1.rollman_elo;
            let mut b: usize = 0;
            proof {
                assert(a * ng + ng <= nr * ng) by (nonlinear_arith)
                    requires
                        a < nr,
                        0 <= ng,
                ;
            }
            while b < ng
                invariant
                    0 <= b <= ng,
                    out@.len() == a * ng + b,
                    ri == rollmen@[a as int],
                    rank_a == self.rollman_rank_upto(ri as int, self.n_agents()),
                    relo == self.agent(ri as int).rollman_elo,
                    forall|a2: int, b2: int|
                        0 <= a2 < a && 0 <= b2 < ng ==> {
                            let c = #[trigger] out@[a2 * ng + b2];
                            let ri2 = rollmen@[a2] as int;
                            let gi2 = ghosts@[b2] as int;
                            &&& c.rollman_token@ == self.token(ri2)
                            &&& c.ghost_token@ == self.token(gi2)
                            &&& c.count == self.spec_pair_count(ri2, gi2)
                            &&& call_ensures(
                                *priority_fn,
                                (
                                    self.agent(ri2).rollman_elo,
                                    self.agent(gi2).ghost_elo,
                                    c.count,
                                    self.rollman_rank_upto(ri2, self.n_agents()) as usize,
                                    self.ghost_rank_upto(gi2, self.n_agents()) as usize,
                                ),
                                c.priority_bits,
                            )
                            &&& c.key == spec_order_key(c.priority_bits)
                        },
                    forall|b2: int|
                        0 <= b2 < b ==> {
                            let c = #[trigger] out@[a * ng + b2];
                            let gi2 = ghosts@[b2] as int;
                            &&& c.rollman_token@ == self.token(ri as int)
                            &&& c.ghost_token@ == self.token(gi2)
                            &&& c.count == self.spec_pair_count(ri as int, gi2)
                            &&& call_ensures(
                                *priority_fn,
                                (
                                    self.agent(ri as int).rollman_elo,
                                    self.agent(gi2).ghost_elo,
                                    c.count,
                                    self.rollman_rank_upto(ri as int, self.n_agents()) as usize,
                                    self.ghost_rank_upto(gi2, self.n_agents()) as usize,
                                ),
                                c.priority_bits,
                            )
                            &&& c.key == spec_order_key(c.priority_bits)
                        },
                decreases ng - b,
            {
                let gi = ghosts[b];
                let rank_b = self.ghost_rank(gi);
                let gelo = self.agents[gi].1.ghost_elo;
                let count = self.pair_count_at(ri, gi);
                let bits = priority_fn(relo, gelo, count, rank_a, rank_b);
                let key = order_key(bits);
                out.push(
                    Candidate {
                        rollman_token: self.agents[ri].0.clone(),
                        ghost_token: self.agents[gi].0.clone(),
                        count,
                        priority_bits: bits,
                        key,
                    },
                );
                b += 1;
                proof {
                    assert(out@[a as int * ng + (b - 1)] == out@.last());
                    assert forall|a2: int, b2: int|
                        0 <= a2 < a && 0 <= b2 < ng implies 0 <= #[trigger] (a2 * ng + b2) && a2
                        * ng + b2 < a * ng by {
                        assert(a2 * ng + b2 < a * ng) by (nonlinear_arith)
                            requires
                                0 <= a2 < a,
                                0 <= b2 < ng,
                        ;
                        assert(0 <= a2 * ng + b2) by (nonlinear_arith)
                            requires
                                0 <= a2,
                                0 <= b2,
                                0 <= ng,
                        ;
                    }
                }
            }
            proof {
                assert((a + 1) * ng == a * ng + ng) by (nonlinear_arith);
            }
            a += 1;
        }
        out
    }
}

} // verus!
