//! Agents, their per-role statistics, and the eligibility filter.

use vstd::prelude::*;

use crate::constants::ELO_BASE_BITS;

verus! {

/// One entry of an agent's per-role match history: the match id, the index
/// of the opposing agent in the ledger's agent table, and the opposing
/// side's score in that match (in the opposing side's own metric).
#[derive(Clone, Copy, PartialEq, Eq, Structural, Debug)]
pub struct HistEntry {
    pub id: u32,
    pub opp: usize,
    pub opp_score: i16,
}

/// A registered agent. The two ratings, counts and recency watermarks are
/// independent per role; the failure set is global to the agent.
///
/// `rollman_history` and `ghost_history` list, in ingestion order, the
/// matches the agent played in that role; `pair_counts` maps (by agent
/// table index) each ghost this agent has faced as rollman to the number
/// of times the exact pair has played.
pub struct Agent {
    pub user: String,
    pub name: String,
    pub version: u32,
    pub rollman_elo: u32,
    pub ghost_elo: u32,
    pub rollman_count: usize,
    pub ghost_count: usize,
    pub rollman_time: u32,
    pub ghost_time: u32,
    pub failure: Vec<u32>,
    pub rollman_history: Vec<HistEntry>,
    pub ghost_history: Vec<HistEntry>,
    pub pair_counts: Vec<(usize, u32)>,
}

/// A sequence is strictly increasing.
pub open spec fn strictly_sorted(s: Seq<u32>) -> bool {
    forall|i: int, j: int| 0 <= i < j < s.len() ==> s[i] < s[j]
}

/// The eligibility rule: up to fifty recorded failures are tolerated for
/// free; beyond that the match volume in the role must outpace the excess
/// failure volume tenfold.
pub open spec fn spec_eligible(count: int, fails: int) -> bool {
    count > (if fails > 50 {
        (fails - 50) * 10
    } else {
        0
    })
}

impl Agent {
    /// Identity and per-role statistics of the agent, all unchanged.
    pub open spec fn identity_eq(self, other: Agent) -> bool {
        &&& self.user == other.user
        &&& self.name == other.name
        &&& self.version == other.version
        &&& self.failure == other.failure
    }

    /// The agent's own well-formedness: the failure set is strictly sorted.
    pub open spec fn wf(self) -> bool {
        strictly_sorted(self.failure@)
    }

    /// A freshly registered agent: the given identity, base ratings, no
    /// matches, no failures, recency infinitely old.
    pub open spec fn is_fresh(self, user: Seq<char>, name: Seq<char>, version: u32) -> bool {
        &&& self.user@ == user
        &&& self.name@ == name
        &&& self.version == version
        &&& self.rollman_elo == ELO_BASE_BITS
        &&& self.ghost_elo == ELO_BASE_BITS
        &&& self.rollman_count == 0
        &&& self.ghost_count == 0
        &&& self.rollman_time == u32::MAX
        &&& self.ghost_time == u32::MAX
        &&& self.failure@ == Seq::<u32>::empty()
        &&& self.rollman_history@ == Seq::<HistEntry>::empty()
        &&& self.ghost_history@ == Seq::<HistEntry>::empty()
        &&& self.pair_counts@ == Seq::<(usize, u32)>::empty()
    }

    /// The agent's rating state is as after a reset: base ratings, zero
    /// counts, recency infinitely old, empty histories and pair counts.
    pub open spec fn is_reset(self) -> bool {
        &&& self.rollman_elo == ELO_BASE_BITS
        &&& self.ghost_elo == ELO_BASE_BITS
        &&& self.rollman_count == 0
        &&& self.ghost_count == 0
        &&& self.rollman_time == u32::MAX
        &&& self.ghost_time == u32::MAX
        &&& self.rollman_history@.len() == 0
        &&& self.ghost_history@.len() == 0
        &&& self.pair_counts@.len() == 0
    }

    /// A fresh agent: base ratings, no matches, recency infinitely old.
    pub fn new(user: String, name: String, version: u32) -> (a: Agent)
        ensures
            a.user == user,
            a.name == name,
            a.version == version,
            a.rollman_elo == ELO_BASE_BITS,
            a.ghost_elo == ELO_BASE_BITS,
            a.rollman_count == 0,
            a.ghost_count == 0,
            a.rollman_time == u32::MAX,
            a.ghost_time == u32::MAX,
            a.failure@ == Seq::<u32>::empty(),
            a.rollman_history@ == Seq::<HistEntry>::empty(),
            a.ghost_history@ == Seq::<HistEntry>::empty(),
            a.pair_counts@ == Seq::<(usize, u32)>::empty(),
            a.is_fresh(user@, name@, version),
            a.wf(),
    {
        Agent {
            user,
            name,
            version,
            rollman_elo: ELO_BASE_BITS,
            ghost_elo: ELO_BASE_BITS,
            rollman_count: 0,
            ghost_count: 0,
            rollman_time: u32::MAX,
            ghost_time: u32::MAX,
            failure: Vec::new(),
            rollman_history: Vec::new(),
            ghost_history: Vec::new(),
            pair_counts: Vec::new(),
        }
    }

    /// Whether the agent may be scheduled in the rollman role.
    pub fn can_rollman(&self) -> (b: bool)
        ensures
            b == spec_eligible(self.rollman_count as int, self.failure@.len() as int),
    {
        eligible(self.rollman_count, self.failure.len())
    }

    /// Whether the agent may be scheduled in the ghost role.
    pub fn can_ghost(&self) -> (b: bool)
        ensures
            b == spec_eligible(self.ghost_count as int, self.failure@.len() as int),
    {
        eligible(self.ghost_count, self.failure.len())
    }
}

/// Decides eligibility from a role's match count and the failure count.
pub fn eligible(count: usize, fails: usize) -> (b: bool)
    ensures
        b == spec_eligible(count as int, fails as int),
{
    let excess = if fails > 50 {
        fails - 50
    } else {
        0
    };
    if count == 0 {
        false
    } else {
        // count > 10 * excess, computed without any overflowing product
        let b = (count - 1) / 10 >= excess;
        proof {
            let c = count as int;
            let e = excess as int;
            assert(((c - 1) / 10 >= e) == (c > e * 10)) by (nonlinear_arith)
                requires
                    c >= 1,
                    e >= 0,
            ;
        }
        b
    }
}

/// Inserts a match id into a strictly sorted failure list, keeping it a
/// sorted set; an id already present is left alone.
pub fn insert_failure(v: &mut Vec<u32>, id: u32)
    requires
        strictly_sorted(old(v)@),
    ensures
        strictly_sorted(final(v)@),
        final(v)@.to_set() == old(v)@.to_set().insert(id),
        old(v)@.contains(id) ==> final(v)@ == old(v)@,
        !old(v)@.contains(id) ==> final(v)@.len() == old(v)@.len() + 1,
{
    let ghost orig = v@;
    let mut i: usize = 0;
    while i < v.len() && v[i] < id
        invariant
            0 <= i <= v@.len(),
            v@ == orig,
            strictly_sorted(v@),
            forall|k: int| 0 <= k < i ==> v@[k] < id,
        decreases v@.len() - i,
    {
        i += 1;
    }
    if i < v.len() && v[i] == id {
        proof {
            assert(orig.contains(id));
            assert(orig.to_set().insert(id) =~= orig.to_set());
        }
        return ;
    }
    assert(forall|k: int| i <= k < v@.len() ==> v@[k] > id);
    v.insert(i, id);
    proof {
        assert forall|p: int, q: int| 0 <= p < q < v@.len() implies v@[p] < v@[q] by {
            if q < i {
            } else if p < i && q == i {
            } else if p < i && q > i {
                assert(orig[q - 1] >= id);
            } else if p == i {
            } else {
            }
        }
        assert(!orig.contains(id)) by {
            if orig.contains(id) {
                let k = choose|k: int| 0 <= k < orig.len() && orig[k] == id;
                assert(k >= i);
                assert(orig[k] > id);
            }
        }
        assert(v@.to_set() =~= orig.to_set().insert(id)) by {
            assert forall|x: u32| v@.to_set().contains(x) implies orig.to_set().insert(id).contains(
                x,
            ) by {
                let k = choose|k: int| 0 <= k < v@.len() && v@[k] == x;
                if k < i {
                    assert(orig[k] == x);
                } else if k == i {
                } else {
                    assert(orig[k - 1] == x);
                }
            }
            assert forall|x: u32|
                orig.to_set().insert(id).contains(x) implies v@.to_set().contains(x) by {
                if x == id {
                    assert(v@[i as int] == id);
                } else {
                    let k = choose|k: int| 0 <= k < orig.len() && orig[k] == x;
                    if k < i {
                        assert(v@[k] == x);
                    } else {
                        assert(v@[k + 1] == x);
                    }
                }
            }
        }
    }
}

} // verus!
