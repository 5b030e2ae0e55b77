//! Order-insensitivity of ledger ingestion: ingesting two matches in
//! either order leaves the counts, recency watermarks, histories, pair
//! counts and the match set the same. Only the ratings depend on the
//! order, which is exactly the path-dependence the replay stabilizer
//! mitigates.

use vstd::prelude::*;

use crate::agent::HistEntry;
use crate::stats::{
    ghost_struct_eq, match_view, min_time, pair_bumped, rollman_struct_eq, Match, Stats,
};

verus! {

broadcast use vstd::seq_lib::group_to_multiset_ensures;

/// The keys of a pairwise-count list are pairwise distinct.
pub open spec fn keys_distinct(pc: Seq<(usize, u32)>) -> bool {
    forall|k1: int, k2: int|
        0 <= k1 < k2 < pc.len() ==> (#[trigger] pc[k1]).0 != (#[trigger] pc[k2]).0
}

/// The count a pairwise-count list records for key `g`, zero if absent.
pub open spec fn pair_lookup(pc: Seq<(usize, u32)>, g: usize) -> u32 {
    if exists|k: int| 0 <= k < pc.len() && (#[trigger] pc[k]).0 == g {
        pc[choose|k: int| 0 <= k < pc.len() && (#[trigger] pc[k]).0 == g].1
    } else {
        0u32
    }
}

/// Bumping a pairwise-count list raises exactly the bumped key's count by
/// one (wrapping at the integer boundary) and keeps every other key.
pub proof fn lemma_bump_lookup(pre: Seq<(usize, u32)>, post: Seq<(usize, u32)>, g: usize)
    requires
        pair_bumped(pre, post, g),
        keys_distinct(pre),
    ensures
        keys_distinct(post),
        pair_lookup(post, g) == ((pair_lookup(pre, g) + 1) as u32),
        forall|x: usize| x != g ==> pair_lookup(post, x) == pair_lookup(pre, x),
{
    if exists|k: int| 0 <= k < pre.len() && (#[trigger] pre[k]).0 == g {
        let kc = choose|k: int| 0 <= k < pre.len() && (#[trigger] pre[k]).0 == g;
        assert(post == pre.update(kc, (g, (pre[kc].1 + 1) as u32)));
        assert(keys_distinct(post)) by {
            assert forall|k1: int, k2: int|
                0 <= k1 < k2 < post.len() implies (#[trigger] post[k1]).0 != (
            #[trigger] post[k2]).0 by {
                assert(pre[k1].0 != pre[k2].0);
            }
        }
        assert(pair_lookup(post, g) == ((pair_lookup(pre, g) + 1) as u32)) by {
            assert(post[kc].0 == g);
            let kc2 = choose|k: int| 0 <= k < post.len() && (#[trigger] post[k]).0 == g;
            if kc2 != kc {
                assert(pre[kc2].0 == g);
                assert(false);
            }
        }
        assert forall|x: usize| x != g implies pair_lookup(post, x) == pair_lookup(pre, x) by {
            if exists|k: int| 0 <= k < pre.len() && (#[trigger] pre[k]).0 == x {
                let ka = choose|k: int| 0 <= k < pre.len() && (#[trigger] pre[k]).0 == x;
                assert(ka != kc);
                assert(post[ka].0 == x);
                let kb = choose|k: int| 0 <= k < post.len() && (#[trigger] post[k]).0 == x;
                if kb != ka {
                    assert(pre[kb].0 == x || kb == kc);
                    assert(false);
                }
            } else {
                if exists|k: int| 0 <= k < post.len() && (#[trigger] post[k]).0 == x {
                    let kb = choose|k: int| 0 <= k < post.len() && (#[trigger] post[k]).0 == x;
                    assert(pre[kb].0 == x || kb == kc);
                    assert(false);
                }
            }
        }
    } else {
        assert(post == pre.push((g, 1u32)));
        assert(keys_distinct(post)) by {
            assert forall|k1: int, k2: int|
                0 <= k1 < k2 < post.len() implies (#[trigger] post[k1]).0 != (
            #[trigger] post[k2]).0 by {
                if k2 == pre.len() {
                    assert(post[k1] == pre[k1]);
                    assert(pre[k1].0 != g);
                } else {
                    assert(pre[k1].0 != pre[k2].0);
                }
            }
        }
        assert(pair_lookup(pre, g) == 0);
        assert(pair_lookup(post, g) == 1) by {
            assert(post[pre.len() as int].0 == g);
            let kb = choose|k: int| 0 <= k < post.len() && (#[trigger] post[k]).0 == g;
            if kb != pre.len() {
                assert(pre[kb].0 == g);
                assert(false);
            }
        }
        assert forall|x: usize| x != g implies pair_lookup(post, x) == pair_lookup(pre, x) by {
            if exists|k: int| 0 <= k < pre.len() && (#[trigger] pre[k]).0 == x {
                let ka = choose|k: int| 0 <= k < pre.len() && (#[trigger] pre[k]).0 == x;
                assert(post[ka].0 == x);
                let kb = choose|k: int| 0 <= k < post.len() && (#[trigger] post[k]).0 == x;
                if kb != ka {
                    if kb == pre.len() {
                        assert(post[kb].0 == g);
                        assert(false);
                    } else {
                        assert(pre[kb].0 == x);
                        assert(false);
                    }
                }
            } else {
                if exists|k: int| 0 <= k < post.len() && (#[trigger] post[k]).0 == x {
                    let kb = choose|k: int| 0 <= k < post.len() && (#[trigger] post[k]).0 == x;
                    if kb == pre.len() {
                        assert(post[kb].0 == g);
                    } else {
                        assert(pre[kb].0 == x);
                    }
                    assert(false);
                }
            }
        }
    }
}

/// The per-agent totals of one ingestion step, for every index at once:
/// the rollman's and the ghost's counters move, everyone else's stand.
pub proof fn lemma_ingest_fields(pre: Stats, post: Stats, id: u32, m: Match)
    requires
        pre.tokens_distinct(),
        pre.spec_has_token(m.rollman_token@),
        pre.spec_has_token(m.ghost_token@),
        pre.ingested(post, id, m),
    ensures
        post.n_agents() == pre.n_agents(),
        forall|j: int| 0 <= j < pre.n_agents() ==> post.token(j) == pre.token(j),
        post.tokens_distinct(),
        forall|j: int|
            0 <= j < pre.n_agents() ==> (#[trigger] post.agent(j)).identity_eq(pre.agent(j)),
        forall|j: int|
            0 <= j < pre.n_agents() ==> (#[trigger] post.agent(j)).rollman_count == pre.agent(
                j,
            ).rollman_count + (if j == pre.spec_token_index(m.rollman_token@) {
                1int
            } else {
                0int
            }),
        forall|j: int|
            0 <= j < pre.n_agents() ==> (#[trigger] post.agent(j)).ghost_count == pre.agent(
                j,
            ).ghost_count + (if j == pre.spec_token_index(m.ghost_token@) {
                1int
            } else {
                0int
            }),
        forall|j: int|
            0 <= j < pre.n_agents() ==> (#[trigger] post.agent(j)).rollman_time == (if j
                == pre.spec_token_index(m.rollman_token@) {
                min_time(pre.agent(j).rollman_time, id)
            } else {
                pre.agent(j).rollman_time
            }),
        forall|j: int|
            0 <= j < pre.n_agents() ==> (#[trigger] post.agent(j)).ghost_time == (if j
                == pre.spec_token_index(m.ghost_token@) {
                min_time(pre.agent(j).ghost_time, id)
            } else {
                pre.agent(j).ghost_time
            }),
        forall|j: int|
            0 <= j < pre.n_agents() ==> (#[trigger] post.agent(j)).rollman_history@ == (if j
                == pre.spec_token_index(m.rollman_token@) {
                pre.agent(j).rollman_history@.push(
                    HistEntry {
                        id,
                        opp: pre.spec_token_index(m.ghost_token@) as usize,
                        opp_score: m.ghost_score,
                    },
                )
            } else {
                pre.agent(j).rollman_history@
            }),
        forall|j: int|
            0 <= j < pre.n_agents() ==> (#[trigger] post.agent(j)).ghost_history@ == (if j
                == pre.spec_token_index(m.ghost_token@) {
                pre.agent(j).ghost_history@.push(
                    HistEntry {
                        id,
                        opp: pre.spec_token_index(m.rollman_token@) as usize,
                        opp_score: m.rollman_score,
                    },
                )
            } else {
                pre.agent(j).ghost_history@
            }),
        forall|j: int|
            0 <= j < pre.n_agents() && j != pre.spec_token_index(m.rollman_token@) ==> (
            #[trigger] post.agent(j)).pair_counts@ == pre.agent(j).pair_counts@,
        pair_bumped(
            pre.agent(pre.spec_token_index(m.rollman_token@)).pair_counts@,
            post.agent(pre.spec_token_index(m.rollman_token@)).pair_counts@,
            pre.spec_token_index(m.ghost_token@) as usize,
        ),
        post.match_set() == pre.match_set().insert((id, match_view(m))),
        post.matches@.len() == pre.matches@.len() + 1,
{
    let r = pre.spec_token_index(m.rollman_token@);
    let g = pre.spec_token_index(m.ghost_token@);
    assert(0 <= r < pre.n_agents() && pre.token(r) == m.rollman_token@);
    assert(0 <= g < pre.n_agents() && pre.token(g) == m.ghost_token@);
    assert forall|j: int|
        0 <= j < pre.n_agents() && j != r implies (#[trigger] post.agent(j)).rollman_count
        == pre.agent(j).rollman_count && post.agent(j).rollman_time == pre.agent(j).rollman_time
        && post.agent(j).rollman_history@ == pre.agent(j).rollman_history@ && post.agent(
        j,
    ).pair_counts@ == pre.agent(j).pair_counts@ by {
        if j != g {
            assert(rollman_struct_eq(post.agent(j), pre.agent(j)));
        } else {
            assert(rollman_struct_eq(post.agent(g), pre.agent(g)));
        }
    }
    assert forall|j: int|
        0 <= j < pre.n_agents() && j != g implies (#[trigger] post.agent(j)).ghost_count
        == pre.agent(j).ghost_count && post.agent(j).ghost_time == pre.agent(j).ghost_time
        && post.agent(j).ghost_history@ == pre.agent(j).ghost_history@ by {
        if j != r {
            assert(ghost_struct_eq(post.agent(j), pre.agent(j)));
        } else {
            assert(ghost_struct_eq(post.agent(r), pre.agent(r)));
        }
    }
    assert forall|i: int, j: int|
        0 <= i < j < post.n_agents() implies post.token(i) != post.token(j) by {
        assert(pre.token(i) != pre.token(j));
    }
}

/// Ledger ingestion is commutative in everything but the ratings: two
/// distinct matches between registered agents may be ingested in either
/// order, and every count, recency watermark, history, pairwise count and
/// the match set come out the same. The ratings themselves are left free:
/// their order-dependence is the documented path-dependence that the
/// shuffled replay mitigates.
pub proof fn lemma_ingest_order_insensitive(
    s0: Stats,
    s1: Stats,
    s2: Stats,
    t1: Stats,
    t2: Stats,
    id1: u32,
    m1: Match,
    id2: u32,
    m2: Match,
)
    requires
        s0.tokens_distinct(),
        id1 != id2,
        s0.spec_has_token(m1.rollman_token@),
        s0.spec_has_token(m1.ghost_token@),
        s0.spec_has_token(m2.rollman_token@),
        s0.spec_has_token(m2.ghost_token@),
        s0.ingested(s1, id1, m1),
        s1.ingested(s2, id2, m2),
        s0.ingested(t1, id2, m2),
        t1.ingested(t2, id1, m1),
        forall|i: int|
            0 <= i < s0.n_agents() ==> keys_distinct((#[trigger] s0.agent(i)).pair_counts@),
    ensures
        s2.n_agents() == t2.n_agents(),
        forall|j: int| 0 <= j < s0.n_agents() ==> s2.token(j) == t2.token(j),
        forall|j: int|
            0 <= j < s0.n_agents() ==> (#[trigger] s2.agent(j)).identity_eq(t2.agent(j)),
        forall|j: int|
            0 <= j < s0.n_agents() ==> {
                let a = #[trigger] s2.agent(j);
                let b = t2.agent(j);
                &&& a.rollman_count == b.rollman_count
                &&& a.ghost_count == b.ghost_count
                &&& a.rollman_time == b.rollman_time
                &&& a.ghost_time == b.ghost_time
                &&& a.rollman_history@.to_multiset() == b.rollman_history@.to_multiset()
                &&& a.ghost_history@.to_multiset() == b.ghost_history@.to_multiset()
                &&& forall|x: usize|
                    pair_lookup(a.pair_counts@, x) == pair_lookup(b.pair_counts@, x)
            },
        s2.match_set() == t2.match_set(),
        s2.matches@.len() == t2.matches@.len(),
{
    let r1 = s0.spec_token_index(m1.rollman_token@);
    let g1 = s0.spec_token_index(m1.ghost_token@);
    let r2 = s0.spec_token_index(m2.rollman_token@);
    let g2 = s0.spec_token_index(m2.ghost_token@);
    lemma_ingest_fields(s0, s1, id1, m1);
    lemma_ingest_fields(s0, t1, id2, m2);
    // the token indices agree between the two intermediate states
    assert(s1.spec_token_index(m2.rollman_token@) == r2) by {
        assert(s1.spec_has_token(m2.rollman_token@)) by {
            assert(s1.token(r2) == m2.rollman_token@);
        }
        let j = s1.spec_token_index(m2.rollman_token@);
        assert(0 <= j < s1.n_agents() && s1.token(j) == m2.rollman_token@);
        if j != r2 {
            assert(s1.token(r2) == m2.rollman_token@);
            assert(false);
        }
    }
    assert(s1.spec_token_index(m2.ghost_token@) == g2) by {
        assert(s1.spec_has_token(m2.ghost_token@)) by {
            assert(s1.token(g2) == m2.ghost_token@);
        }
        let j = s1.spec_token_index(m2.ghost_token@);
        if j != g2 {
            assert(s1.token(g2) == m2.ghost_token@);
            assert(false);
        }
    }
    assert(t1.spec_token_index(m1.rollman_token@) == r1) by {
        assert(t1.spec_has_token(m1.rollman_token@)) by {
            assert(t1.token(r1) == m1.rollman_token@);
        }
        let j = t1.spec_token_index(m1.rollman_token@);
        if j != r1 {
            assert(t1.token(r1) == m1.rollman_token@);
            assert(false);
        }
    }
    assert(t1.spec_token_index(m1.ghost_token@) == g1) by {
        assert(t1.spec_has_token(m1.ghost_token@)) by {
            assert(t1.token(g1) == m1.ghost_token@);
        }
        let j = t1.spec_token_index(m1.ghost_token@);
        if j != g1 {
            assert(t1.token(g1) == m1.ghost_token@);
            assert(false);
        }
    }
    lemma_ingest_fields(s1, s2, id2, m2);
    lemma_ingest_fields(t1, t2, id1, m1);
    assert forall|j: int|
        0 <= j < s0.n_agents() implies (#[trigger] s2.agent(j)).rollman_history@.to_multiset()
        == t2.agent(j).rollman_history@.to_multiset() && s2.agent(
        j,
    ).ghost_history@.to_multiset() == t2.agent(j).ghost_history@.to_multiset() by {
        let e1 = HistEntry { id: id1, opp: g1 as usize, opp_score: m1.ghost_score };
        let e2 = HistEntry { id: id2, opp: g2 as usize, opp_score: m2.ghost_score };
        let f1 = HistEntry { id: id1, opp: r1 as usize, opp_score: m1.rollman_score };
        let f2 = HistEntry { id: id2, opp: r2 as usize, opp_score: m2.rollman_score };
        let h0 = s0.agent(j).rollman_history@;
        if j == r1 && j == r2 {
            assert(s2.agent(j).rollman_history@ == h0.push(e1).push(e2));
            assert(t2.agent(j).rollman_history@ == h0.push(e2).push(e1));
            assert(h0.push(e1).push(e2).to_multiset() =~= h0.push(e2).push(e1).to_multiset());
        }
        let k0 = s0.agent(j).ghost_history@;
        if j == g1 && j == g2 {
            assert(s2.agent(j).ghost_history@ == k0.push(f1).push(f2));
            assert(t2.agent(j).ghost_history@ == k0.push(f2).push(f1));
            assert(k0.push(f1).push(f2).to_multiset() =~= k0.push(f2).push(f1).to_multiset());
        }
    }
    assert forall|j: int|
        0 <= j < s0.n_agents() implies forall|x: usize|
        pair_lookup((#[trigger] s2.agent(j)).pair_counts@, x) == pair_lookup(
            t2.agent(j).pair_counts@,
            x,
        ) by {
        if j == r1 || j == r2 {
            let p0 = s0.agent(j).pair_counts@;
            assert(keys_distinct(p0));
            if j == r1 && j == r2 {
                lemma_bump_lookup(p0, s1.agent(j).pair_counts@, g1 as usize);
                lemma_bump_lookup(s1.agent(j).pair_counts@, s2.agent(j).pair_counts@, g2 as usize);
                lemma_bump_lookup(p0, t1.agent(j).pair_counts@, g2 as usize);
                lemma_bump_lookup(t1.agent(j).pair_counts@, t2.agent(j).pair_counts@, g1 as usize);
            } else if j == r1 {
                lemma_bump_lookup(p0, s1.agent(j).pair_counts@, g1 as usize);
                assert(s2.agent(j).pair_counts@ == s1.agent(j).pair_counts@);
                assert(t1.agent(j).pair_counts@ == p0);
                lemma_bump_lookup(t1.agent(j).pair_counts@, t2.agent(j).pair_counts@, g1 as usize);
            } else {
                assert(s1.agent(j).pair_counts@ == p0);
                lemma_bump_lookup(s1.agent(j).pair_counts@, s2.agent(j).pair_counts@, g2 as usize);
                lemma_bump_lookup(p0, t1.agent(j).pair_counts@, g2 as usize);
                assert(t2.agent(j).pair_counts@ == t1.agent(j).pair_counts@);
            }
        } else {
            assert(s1.agent(j).pair_counts@ == s0.agent(j).pair_counts@);
            assert(s2.agent(j).pair_counts@ == s1.agent(j).pair_counts@);
            assert(t1.agent(j).pair_counts@ == s0.agent(j).pair_counts@);
            assert(t2.agent(j).pair_counts@ == t1.agent(j).pair_counts@);
        }
    }
    assert(s2.match_set() =~= t2.match_set());
}

} // verus!
