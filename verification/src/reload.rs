//! The replay stabilizer: rebuilding ratings from the ledger in two
//! independently shuffled replay passes, which reduces (without removing)
//! the dependence of the final ratings on the platform's ingestion order.

use vstd::prelude::*;

use rand::seq::SliceRandom;

use crate::rating::Outcome;
use crate::stats::{
    ghost_struct_eq, match_view, pair_bumped, pairs_set, rollman_struct_eq, Match, Stats,
};

verus! {

broadcast use vstd::seq_lib::group_to_multiset_ensures;

/// Relies on rand: `SliceRandom::shuffle` permutes the slice in place
/// (Fisher-Yates, drawing from the thread-local generator `rand::rng()`).
/// Whichever permutation comes out, the elements are the same collection.
#[verifier::external_body]
pub(crate) fn shuffle_vec<T>(v: &mut Vec<T>)
    ensures
        final(v)@.len() == old(v)@.len(),
        final(v)@.to_multiset() == old(v)@.to_multiset(),
{
    v.as_mut_slice().shuffle(&mut rand::rng());
}

/// A ledger holds a match with this id exactly when its match set holds a
/// pair with this id.
pub proof fn lemma_has_match_iff_in_set(s: Stats, id: u32)
    ensures
        s.spec_has_match(id) <==> exists|x: (u32, (Seq<char>, Seq<char>, i16, i16))|
            #[trigger] s.match_set().contains(x) && x.0 == id,
{
    let f = |p: (u32, Match)| (p.0, match_view(p.1));
    if s.spec_has_match(id) {
        let k = choose|k: int| 0 <= k < s.matches@.len() && (#[trigger] s.matches@[k]).0 == id;
        assert(s.matches@.map_values(f)[k] == f(s.matches@[k]));
        assert(s.matches@.map_values(f).contains(f(s.matches@[k])));
        assert(s.match_set().contains(f(s.matches@[k])) && f(s.matches@[k]).0 == id);
    }
    if exists|x: (u32, (Seq<char>, Seq<char>, i16, i16))|
        #[trigger] s.match_set().contains(x) && x.0 == id {
        let x = choose|x: (u32, (Seq<char>, Seq<char>, i16, i16))|
            #[trigger] s.match_set().contains(x) && x.0 == id;
        let k = choose|k: int|
            0 <= k < s.matches@.map_values(f).len() && s.matches@.map_values(f)[k] == x;
        assert((#[trigger] s.matches@[k]).0 == id);
    }
}

/// Two match lists with the same multiset of entries have the same pair
/// set.
pub proof fn lemma_perm_pairs_set(before: Seq<(u32, Match)>, after: Seq<(u32, Match)>)
    requires
        before.to_multiset() == after.to_multiset(),
    ensures
        pairs_set(before) == pairs_set(after),
{
    let f = |p: (u32, Match)| (p.0, match_view(p.1));
    assert(pairs_set(before) =~= pairs_set(after)) by {
        assert forall|x: (u32, (Seq<char>, Seq<char>, i16, i16))|
            pairs_set(before).contains(x) implies pairs_set(after).contains(x) by {
            let k = choose|k: int|
                0 <= k < before.map_values(f).len() && before.map_values(f)[k] == x;
            assert(before.contains(before[k]));
            assert(after.to_multiset().count(before[k]) > 0);
            assert(after.contains(before[k]));
            let k2 = choose|k2: int| 0 <= k2 < after.len() && after[k2] == before[k];
            assert(after.map_values(f)[k2] == x);
        }
        assert forall|x: (u32, (Seq<char>, Seq<char>, i16, i16))|
            pairs_set(after).contains(x) implies pairs_set(before).contains(x) by {
            let k = choose|k: int|
                0 <= k < after.map_values(f).len() && after.map_values(f)[k] == x;
            assert(after.contains(after[k]));
            assert(before.to_multiset().count(after[k]) > 0);
            assert(before.contains(after[k]));
            let k2 = choose|k2: int| 0 <= k2 < before.len() && before[k2] == after[k];
            assert(before.map_values(f)[k2] == x);
        }
    }
}

/// A permutation of a match list with pairwise distinct ids again has
/// pairwise distinct ids.
pub proof fn lemma_perm_ids_distinct(before: Seq<(u32, Match)>, after: Seq<(u32, Match)>)
    requires
        before.to_multiset() == after.to_multiset(),
        forall|i: int, j: int| 0 <= i < j < before.len() ==> (#[trigger] before[i]).0 != (
        #[trigger] before[j]).0,
    ensures
        forall|i: int, j: int| 0 <= i < j < after.len() ==> (#[trigger] after[i]).0 != (
        #[trigger] after[j]).0,
{
    assert(before.no_duplicates());
    before.lemma_multiset_has_no_duplicates();
    after.lemma_multiset_has_no_duplicates_conv();
    assert forall|i: int, j: int|
        0 <= i < j < after.len() implies (#[trigger] after[i]).0 != (#[trigger] after[j]).0 by {
        if after[i].0 == after[j].0 {
            assert(after[i] != after[j]);
            assert(after.contains(after[i]));
            assert(before.to_multiset().count(after[i]) > 0);
            assert(before.contains(after[i]));
            assert(after.contains(after[j]));
            assert(before.to_multiset().count(after[j]) > 0);
            assert(before.contains(after[j]));
            let k1 = choose|k: int| 0 <= k < before.len() && before[k] == after[i];
            let k2 = choose|k: int| 0 <= k < before.len() && before[k] == after[j];
            assert(k1 != k2);
            assert(before[k1].0 != before[k2].0);
        }
    }
}

/// Registration of the participants carries over to any permutation of a
/// match list.
pub proof fn lemma_perm_tokens_present(
    s: Stats,
    before: Seq<(u32, Match)>,
    after: Seq<(u32, Match)>,
)
    requires
        before.to_multiset() == after.to_multiset(),
        forall|k: int|
            0 <= k < before.len() ==> s.spec_has_token((#[trigger] before[k]).1.rollman_token@)
                && s.spec_has_token(before[k].1.ghost_token@),
    ensures
        forall|k: int|
            0 <= k < after.len() ==> s.spec_has_token((#[trigger] after[k]).1.rollman_token@)
                && s.spec_has_token(after[k].1.ghost_token@),
{
    assert forall|k: int|
        0 <= k < after.len() implies s.spec_has_token((#[trigger] after[k]).1.rollman_token@)
        && s.spec_has_token(after[k].1.ghost_token@) by {
        assert(after.contains(after[k]));
        assert(before.to_multiset().count(after[k]) > 0);
        assert(before.contains(after[k]));
        let k0 = choose|k0: int| 0 <= k0 < before.len() && before[k0] == after[k];
        assert(s.spec_has_token((#[trigger] before[k0]).1.rollman_token@));
    }
}

impl Stats {
    /// Resets every agent's counts, histories and pair counts, keeping
    /// ratings, recency watermarks, identities and failure records. This
    /// is the state between the two replay passes.
    fn reset_index_state(&mut self)
        requires
            old(self).wf(),
        ensures
            final(self).wf(),
            final(self).n_agents() == old(self).n_agents(),
            final(self).matches == old(self).matches,
            final(self).logic_version == old(self).logic_version,
            final(self).awaiting == old(self).awaiting,
            forall|j: int|
                0 <= j < old(self).n_agents() ==> final(self).token(j) == old(self).token(j),
            forall|j: int|
                0 <= j < old(self).n_agents() ==> (#[trigger] final(self).agent(j)).identity_eq(
                    old(self).agent(j),
                ),
            forall|j: int|
                0 <= j < old(self).n_agents() ==> {
                    let a = #[trigger] final(self).agent(j);
                    let b = old(self).agent(j);
                    &&& a.rollman_elo == b.rollman_elo
                    &&& a.ghost_elo == b.ghost_elo
                    &&& a.rollman_time == b.rollman_time
                    &&& a.ghost_time == b.ghost_time
                    &&& a.rollman_count == 0
                    &&& a.ghost_count == 0
                    &&& a.rollman_history@.len() == 0
                    &&& a.ghost_history@.len() == 0
                    &&& a.pair_counts@.len() == 0
                },
    {
        let ghost pre = *self;
        let n = self.agents.len();
        let mut i: usize = 0;
        while i < n
            invariant
                0 <= i <= n,
                n == pre.n_agents(),
                self.agents@.len() == pre.agents@.len(),
                self.matches == pre.matches,
                self.logic_version == pre.logic_version,
                self.awaiting == pre.awaiting,
                forall|j: int| 0 <= j < n ==> (#[trigger] self.agents@[j]).0 == pre.agents@[j].0,
                forall|j: int|
                    0 <= j < i ==> (#[trigger] self.agents@[j]).1.identity_eq(pre.agents@[j].1)
                        && self.agents@[j].1.rollman_elo == pre.agents@[j].1.rollman_elo
                        && self.agents@[j].1.ghost_elo == pre.agents@[j].1.ghost_elo
                        && self.agents@[j].1.rollman_time == pre.agents@[j].1.rollman_time
                        && self.agents@[j].1.ghost_time == pre.agents@[j].1.ghost_time
                        && self.agents@[j].1.rollman_count == 0
                        && self.agents@[j].1.ghost_count == 0
                        && self.agents@[j].1.rollman_history@.len() == 0
                        && self.agents@[j].1.ghost_history@.len() == 0
                        && self.agents@[j].1.pair_counts@.len() == 0,
                forall|j: int| i <= j < n ==> (#[trigger] self.agents@[j]) == pre.agents@[j],
                pre.wf(),
            decreases n - i,
        {
            self.agents[i].1.rollman_count = 0;
            self.agents[i].1.ghost_count = 0;
            self.agents[i].1.rollman_history = Vec::new();
            self.agents[i].1.ghost_history = Vec::new();
            self.agents[i].1.pair_counts = Vec::new();
            i += 1;
        }
        proof {
            assert forall|k: int|
                0 <= k < self.matches@.len() implies self.spec_has_token(
                (#[trigger] self.matches@[k]).1.rollman_token@,
            ) && self.spec_has_token(self.matches@[k].1.ghost_token@) by {
                assert(pre.spec_has_token(pre.matches@[k].1.rollman_token@));
                assert(pre.spec_has_token(pre.matches@[k].1.ghost_token@));
                let j1 = choose|j: int|
                    0 <= j < pre.n_agents() && pre.token(j) == pre.matches@[k].1.rollman_token@;
                assert(self.token(j1) == self.matches@[k].1.rollman_token@);
                let j2 = choose|j: int|
                    0 <= j < pre.n_agents() && pre.token(j) == pre.matches@[k].1.ghost_token@;
                assert(self.token(j2) == self.matches@[k].1.ghost_token@);
            }
            assert forall|i2: int, j: int|
                0 <= i2 < j < self.n_agents() implies self.token(i2) != self.token(j) by {
                assert(pre.token(i2) != pre.token(j));
            }
            assert forall|i2: int| 0 <= i2 < self.n_agents() implies (#[trigger] self.agent(
                i2,
            )).wf() by {
                assert(pre.agent(i2).wf());
            }
        }
    }

    /// Ingests every match of `ms` into a ledger whose match list is empty
    /// and whose counts and pair counts are reset. Afterwards the ledger
    /// holds exactly the matches of `ms`. The matches are consumed from
    /// the back of the (already shuffled) list.
    #[verifier::loop_isolation(false)]
    #[verifier::rlimit(60)]
    fn replay_pass<F: Fn(u32, u32, Outcome, u32, usize) -> (u32, u32)>(
        &mut self,
        ms: Vec<(u32, Match)>,
        elo_fn: &F,
    )
        requires
            old(self).wf(),
            old(self).matches@.len() == 0,
            forall|args: (u32, u32, Outcome, u32, usize)| #[trigger] elo_fn.requires(args),
            ms@.len() <= u32::MAX,
            forall|i: int, j: int| 0 <= i < j < ms@.len() ==> (#[trigger] ms@[i]).0 != (
            #[trigger] ms@[j]).0,
            forall|k: int|
                0 <= k < ms@.len() ==> old(self).spec_has_token(
                    (#[trigger] ms@[k]).1.rollman_token@,
                ) && old(self).spec_has_token(ms@[k].1.ghost_token@),
            forall|j: int|
                0 <= j < old(self).n_agents() ==> {
                    let a = #[trigger] old(self).agent(j);
                    &&& a.rollman_count == 0
                    &&& a.ghost_count == 0
                    &&& a.pair_counts@.len() == 0
                },
        ensures
            final(self).wf(),
            final(self).n_agents() == old(self).n_agents(),
            final(self).logic_version == old(self).logic_version,
            final(self).awaiting == old(self).awaiting,
            forall|j: int|
                0 <= j < old(self).n_agents() ==> final(self).token(j) == old(self).token(j),
            forall|j: int|
                0 <= j < old(self).n_agents() ==> (#[trigger] final(self).agent(j)).identity_eq(
                    old(self).agent(j),
                ),
            final(self).matches@.len() == ms@.len(),
            final(self).match_set() == pairs_set(ms@),
            ms@.len() == 0 ==> *final(self) == *old(self),
    {
        let ghost pre = *self;
        let ghost ms0 = ms@;
        let ghost n: int = ms0.len() as int;
        if ms.len() == 0 {
            proof {
                assert(pre.matches@ =~= ms0);
            }
            return ;
        }
        let mut v = ms;
        while v.len() > 0
            invariant
                self.wf(),
                v@ == ms0.take(v@.len() as int),
                self.n_agents() == pre.n_agents(),
                self.logic_version == pre.logic_version,
                self.awaiting == pre.awaiting,
                forall|j: int| 0 <= j < pre.n_agents() ==> self.token(j) == pre.token(j),
                forall|j: int|
                    0 <= j < pre.n_agents() ==> (#[trigger] self.agent(j)).identity_eq(
                        pre.agent(j),
                    ),
                self.matches@.len() == n - v@.len(),
                self.match_set() == pairs_set(ms0.skip(v@.len() as int)),
                forall|j: int|
                    0 <= j < pre.n_agents() ==> (#[trigger] self.agent(j)).rollman_count <= n
                        - v@.len() && self.agent(j).ghost_count <= n - v@.len(),
                forall|j: int, k: int|
                    0 <= j < pre.n_agents() && 0 <= k < self.agent(j).pair_counts@.len() ==> (
                    #[trigger] self.agent(j).pair_counts@[k]).1 <= n - v@.len(),
            decreases v@.len(),
        {
            let ghost l: int = v@.len() as int;
            let ghost snap = *self;
            let (id, m) = v.pop().unwrap();
            proof {
                assert(ms0.take(l).last() == ms0[l - 1]);
                assert(v@ =~= ms0.take(l - 1));
                assert((id, m) == ms0[l - 1]);
                // the id is not in the ledger yet
                assert(!snap.spec_has_match(id)) by {
                    lemma_has_match_iff_in_set(snap, id);
                    if exists|x: (u32, (Seq<char>, Seq<char>, i16, i16))|
                        #[trigger] snap.match_set().contains(x) && x.0 == id {
                        let x = choose|x: (u32, (Seq<char>, Seq<char>, i16, i16))|
                            #[trigger] snap.match_set().contains(x) && x.0 == id;
                        let f = |p: (u32, Match)| (p.0, match_view(p.1));
                        let sk = ms0.skip(l);
                        let k = choose|k: int|
                            0 <= k < sk.map_values(f).len() && sk.map_values(f)[k] == x;
                        assert(sk[k] == ms0[k + l]);
                        assert(ms0[k + l].0 == id);
                        assert(ms0[l - 1].0 != ms0[k + l].0);
                    }
                }
                // both participants are registered
                assert(pre.spec_has_token(ms0[l - 1].1.rollman_token@));
                assert(pre.spec_has_token(ms0[l - 1].1.ghost_token@));
                let j1 = choose|j: int|
                    0 <= j < pre.n_agents() && pre.token(j) == m.rollman_token@;
                assert(snap.token(j1) == m.rollman_token@);
                let j2 = choose|j: int| 0 <= j < pre.n_agents() && pre.token(j) == m.ghost_token@;
                assert(snap.token(j2) == m.ghost_token@);
                // the counters have room
                let ri = snap.spec_token_index(m.rollman_token@);
                let gi = snap.spec_token_index(m.ghost_token@);
                assert(snap.agent(ri).rollman_count <= n - l);
                assert(snap.agent(gi).ghost_count <= n - l);
                assert(snap.can_ingest(id, m));
            }
            self.add_match(id, m, elo_fn);
            proof {
                let sk1 = ms0.skip(l);
                let sk0 = ms0.skip(l - 1);
                let f = |p: (u32, Match)| (p.0, match_view(p.1));
                assert(snap.ingested(*self, id, m));
                // the ingested pair extends the suffix set by one element
                assert(self.match_set() =~= pairs_set(sk0)) by {
                    assert(self.match_set() == snap.match_set().insert((id, match_view(m))));
                    assert forall|x: (u32, (Seq<char>, Seq<char>, i16, i16))|
                        pairs_set(sk1).insert((id, match_view(m))).contains(x) implies pairs_set(
                        sk0,
                    ).contains(x) by {
                        if x == (id, match_view(m)) {
                            assert(sk0[0] == ms0[l - 1]);
                            assert(sk0.map_values(f)[0] == x);
                        } else {
                            let k = choose|k: int|
                                0 <= k < sk1.map_values(f).len() && sk1.map_values(f)[k] == x;
                            assert(sk1[k] == ms0[k + l]);
                            assert(sk0[k + 1] == ms0[k + l]);
                            assert(sk0.map_values(f)[k + 1] == x);
                        }
                    }
                    assert forall|x: (u32, (Seq<char>, Seq<char>, i16, i16))|
                        pairs_set(sk0).contains(x) implies pairs_set(sk1).insert(
                        (id, match_view(m)),
                    ).contains(x) by {
                        let k = choose|k: int|
                            0 <= k < sk0.map_values(f).len() && sk0.map_values(f)[k] == x;
                        if k == 0 {
                            assert(sk0[0] == ms0[l - 1]);
                        } else {
                            assert(sk0[k] == ms0[k + l - 1]);
                            assert(sk1[k - 1] == ms0[k + l - 1]);
                            assert(sk1.map_values(f)[k - 1] == x);
                        }
                    }
                }
                // counter bounds advance by one step
                let ri = snap.spec_token_index(m.rollman_token@);
                let gi = snap.spec_token_index(m.ghost_token@);
                assert forall|j: int|
                    0 <= j < pre.n_agents() implies (#[trigger] self.agent(j)).rollman_count <= n
                    - l + 1 && self.agent(j).ghost_count <= n - l + 1 by {
                    if j != ri && j != gi {
                        assert(rollman_struct_eq(self.agent(j), snap.agent(j)));
                        assert(ghost_struct_eq(self.agent(j), snap.agent(j)));
                    }
                }
                assert forall|j: int, k: int|
                    0 <= j < pre.n_agents() && 0 <= k < self.agent(j).pair_counts@.len() implies (
                #[trigger] self.agent(j).pair_counts@[k]).1 <= n - l + 1 by {
                    if j == ri {
                        let pc0 = snap.agent(ri).pair_counts@;
                        let pc1 = self.agent(ri).pair_counts@;
                        assert(pair_bumped(pc0, pc1, gi as usize));
                        if exists|k2: int| 0 <= k2 < pc0.len() && (#[trigger] pc0[k2]).0 == (
                        gi as usize) {
                            if k < pc0.len() {
                                assert(pc0[k].1 <= n - l);
                            }
                        } else {
                            if k < pc0.len() {
                                assert(pc0[k].1 <= n - l);
                            }
                        }
                    } else {
                        assert(rollman_struct_eq(self.agent(j), snap.agent(j)));
                        assert(snap.agent(j).pair_counts@[k].1 <= n - l);
                    }
                }
            }
        }
        proof {
            assert(ms0.skip(0) =~= ms0);
        }
    }

    /// Rebuilds all rating state from the ledger's matches: resets every
    /// agent, replays all matches in a shuffled order (a warm-up pass that
    /// leaves the counts populated for the second pass's sample sizes),
    /// then clears the indices and replays again in an independently
    /// shuffled order. The matches themselves, every agent's identity and
    /// failure record, the logic version and the awaiting watermark all
    /// survive; only ratings, counts, recency and indices are recomputed.
    /// On an empty ledger every agent simply returns to the base rating.
    pub fn reload<F: Fn(u32, u32, Outcome, u32, usize) -> (u32, u32)>(&mut self, elo_fn: &F)
        requires
            old(self).wf(),
            old(self).matches@.len() <= u32::MAX,
            forall|args: (u32, u32, Outcome, u32, usize)| #[trigger] elo_fn.requires(args),
        ensures
            final(self).wf(),
            final(self).n_agents() == old(self).n_agents(),
            final(self).logic_version == old(self).logic_version,
            final(self).awaiting == old(self).awaiting,
            forall|j: int|
                0 <= j < old(self).n_agents() ==> final(self).token(j) == old(self).token(j),
            forall|j: int|
                0 <= j < old(self).n_agents() ==> (#[trigger] final(self).agent(j)).identity_eq(
                    old(self).agent(j),
                ),
            final(self).matches@.len() == old(self).matches@.len(),
            final(self).match_set() == old(self).match_set(),
            old(self).matches@.len() == 0 ==> forall|j: int|
                0 <= j < old(self).n_agents() ==> (#[trigger] final(self).agent(j)).is_reset(),
    {
        let ghost pre = *self;
        self.reset_rating_state();

        // First pass: warm-up over one shuffled order.
        let ghost s1 = *self;
        let mut ms: Vec<(u32, Match)> = Vec::new();
        core::mem::swap(&mut self.matches, &mut ms);
        proof {
            crate::stats::lemma_wf_empty_matches(s1, *self);
            assert forall|j: int|
                0 <= j < self.n_agents() implies (#[trigger] self.agent(j)) == s1.agent(j)
                    && self.token(j) == s1.token(j) by {}
            assert forall|j: int|
                0 <= j < self.n_agents() implies (#[trigger] self.agent(j)).rollman_count == 0
                    && self.agent(j).ghost_count == 0 && self.agent(j).pair_counts@.len()
                    == 0 by {
                assert(s1.agent(j).is_reset());
            }
            assert forall|i: int, j: int|
                0 <= i < j < ms@.len() implies (#[trigger] ms@[i]).0 != (#[trigger] ms@[j]).0 by {
                assert((#[trigger] pre.matches@[i]).0 < (#[trigger] pre.matches@[j]).0);
            }
            assert forall|k: int|
                0 <= k < ms@.len() implies self.spec_has_token(
                (#[trigger] ms@[k]).1.rollman_token@,
            ) && self.spec_has_token(ms@[k].1.ghost_token@) by {
                assert(s1.spec_has_token(s1.matches@[k].1.rollman_token@));
                assert(s1.spec_has_token(s1.matches@[k].1.ghost_token@));
                let j1 = choose|j: int|
                    0 <= j < s1.n_agents() && s1.token(j) == s1.matches@[k].1.rollman_token@;
                assert(self.token(j1) == ms@[k].1.rollman_token@);
                let j2 = choose|j: int|
                    0 <= j < s1.n_agents() && s1.token(j) == s1.matches@[k].1.ghost_token@;
                assert(self.token(j2) == ms@[k].1.ghost_token@);
            }
        }
        let ghost ms_before = ms@;
        let ghost reg1 = *self;
        shuffle_vec(&mut ms);
        proof {
            lemma_perm_pairs_set(ms_before, ms@);
            lemma_perm_ids_distinct(ms_before, ms@);
            lemma_perm_tokens_present(reg1, ms_before, ms@);
        }
        self.replay_pass(ms, elo_fn);

        // Second pass: take the matches back out, reset the indices while
        // keeping the warmed-up ratings and recency, and replay over an
        // independently shuffled order.
        let ghost after1 = *self;
        let mut ms2: Vec<(u32, Match)> = Vec::new();
        core::mem::swap(&mut self.matches, &mut ms2);
        let ghost s2 = *self;
        proof {
            crate::stats::lemma_wf_empty_matches(after1, s2);
            assert(pairs_set(ms2@) == after1.match_set());
            assert forall|i: int, j: int|
                0 <= i < j < ms2@.len() implies (#[trigger] ms2@[i]).0 != (
            #[trigger] ms2@[j]).0 by {
                assert((#[trigger] after1.matches@[i]).0 < (#[trigger] after1.matches@[j]).0);
            }
        }
        self.reset_index_state();
        proof {
            assert forall|j: int|
                0 <= j < self.n_agents() implies #[trigger] self.token(j) == after1.token(j) by {
                assert(s2.token(j) == after1.token(j));
            }
            assert forall|k: int|
                0 <= k < ms2@.len() implies self.spec_has_token(
                (#[trigger] ms2@[k]).1.rollman_token@,
            ) && self.spec_has_token(ms2@[k].1.ghost_token@) by {
                assert(after1.spec_has_token(after1.matches@[k].1.rollman_token@));
                assert(after1.spec_has_token(after1.matches@[k].1.ghost_token@));
                let j1 = choose|j: int|
                    0 <= j < after1.n_agents() && after1.token(j)
                        == after1.matches@[k].1.rollman_token@;
                assert(self.token(j1) == ms2@[k].1.rollman_token@);
                let j2 = choose|j: int|
                    0 <= j < after1.n_agents() && after1.token(j)
                        == after1.matches@[k].1.ghost_token@;
                assert(self.token(j2) == ms2@[k].1.ghost_token@);
            }
        }
        let ghost ms2_before = ms2@;
        let ghost reg2 = *self;
        shuffle_vec(&mut ms2);
        proof {
            lemma_perm_pairs_set(ms2_before, ms2@);
            lemma_perm_ids_distinct(ms2_before, ms2@);
            lemma_perm_tokens_present(reg2, ms2_before, ms2@);
        }
        self.replay_pass(ms2, elo_fn);
        proof {
            assert(pairs_set(ms_before) == pre.match_set());
            assert(pairs_set(ms2_before) == after1.match_set());
            assert forall|j: int|
                0 <= j < pre.n_agents() implies (#[trigger] self.agent(j)).identity_eq(
                pre.agent(j),
            ) && self.token(j) == pre.token(j) by {
                assert(self.agent(j).identity_eq(reg2.agent(j)));
                assert(reg2.agent(j).identity_eq(s2.agent(j)));
                assert(s2.agent(j) == after1.agent(j));
                assert(after1.agent(j).identity_eq(reg1.agent(j)));
                assert(reg1.agent(j) == s1.agent(j));
                assert(s1.agent(j).identity_eq(pre.agent(j)));
                assert(self.token(j) == reg2.token(j));
                assert(reg2.token(j) == s2.token(j));
                assert(s2.token(j) == after1.token(j));
                assert(after1.token(j) == reg1.token(j));
                assert(reg1.token(j) == s1.token(j));
                assert(s1.token(j) == pre.token(j));
            }
            if pre.matches@.len() == 0 {
                assert(ms_before.len() == 0);
                assert(after1 == reg1);
                assert(ms2_before.len() == 0);
                assert(*self == reg2);
                assert forall|j: int| 0 <= j < pre.n_agents() implies (#[trigger] self.agent(
                    j,
                )).is_reset() by {
                    assert(s1.agent(j).is_reset());
                    assert(reg1.agent(j) == s1.agent(j));
                    assert(s2.agent(j) == after1.agent(j));
                    assert(reg2.agent(j).rollman_elo == s2.agent(j).rollman_elo);
                    assert(reg2.agent(j).ghost_elo == s2.agent(j).ghost_elo);
                    assert(reg2.agent(j).rollman_time == s2.agent(j).rollman_time);
                    assert(reg2.agent(j).ghost_time == s2.agent(j).ghost_time);
                }
            }
        }
    }
}

} // verus!
