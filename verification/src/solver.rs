//! The breadth-first solver: a minimal capture sequence, or the certainty
//! that none exists.

use vstd::prelude::*;
use vstd::hash_map::HashMapWithView;
use crate::board::{lemma_popcount_zero, popcount};
use crate::puzzle::Puzzle;
use crate::state::{
    PuzzleState, in_hand_spec, initial_spec, lemma_initial_valid, lemma_no_step_from_done,
    lemma_step_preserves_valid, remaining_spec, step_spec, valid_state,
};

verus! {

/// Adjacent states of the sequence are joined by legal transitions.
pub open spec fn is_chain(p: Puzzle, states: Seq<u32>) -> bool {
    forall|i: int| 0 <= i < states.len() - 1 ==> step_spec(p, #[trigger] states[i], states[i + 1])
}

/// `states` runs from the initial state to a won state and captures exactly
/// the pieces of `moves`, in order: the piece captured by step `i` is the
/// piece in hand afterwards.
pub open spec fn chain_solves(p: Puzzle, states: Seq<u32>, moves: Seq<u32>) -> bool {
    &&& states.len() == moves.len() + 1
    &&& moves.len() >= 1
    &&& is_chain(p, states)
    &&& states[0] == initial_spec(p)
    &&& remaining_spec(states[states.len() - 1]) == 0
    &&& forall|i: int| 0 <= i < moves.len() ==> moves[i] == in_hand_spec(#[trigger] states[i + 1])
}

/// The capture order `moves` wins the puzzle.
pub open spec fn solves(p: Puzzle, moves: Seq<u32>) -> bool {
    exists|states: Seq<u32>| chain_solves(p, states, moves)
}

/// Some capture order wins the puzzle.
pub open spec fn solvable(p: Puzzle) -> bool {
    exists|moves: Seq<u32>| solves(p, moves)
}

/// Along any chain of legal steps from a valid state, every state is valid
/// and each step brings the remaining count down by exactly one.
pub proof fn lemma_chain_measures(p: Puzzle, states: Seq<u32>, i: int)
    requires
        p.wf(),
        is_chain(p, states),
        0 <= i < states.len(),
        valid_state(p, states[0]),
    ensures
        valid_state(p, states[i]),
        popcount(remaining_spec(states[i]) as u64) + i == popcount(
            remaining_spec(states[0]) as u64,
        ),
    decreases i,
{
    if i > 0 {
        lemma_chain_measures(p, states, i - 1);
        assert(step_spec(p, states[i - 1], states[i]));
        lemma_step_preserves_valid(p, states[i - 1], states[i]);
    }
}

/// Every winning capture order has exactly one entry per opposing piece:
/// each capture removes one piece, and all of them must fall.  In
/// particular every solution is as short as any other, so any solution the
/// solver returns is minimal.
pub proof fn lemma_solution_length(p: Puzzle, moves: Seq<u32>)
    requires
        p.wf(),
        solves(p, moves),
    ensures
        moves.len() == p.num_pieces() - 1,
{
    let states = choose|states: Seq<u32>| chain_solves(p, states, moves);
    lemma_initial_valid(p);
    lemma_chain_measures(p, states, states.len() - 1);
    lemma_popcount_zero();
    assert(remaining_spec(states[states.len() - 1]) == 0);
    assert(popcount(remaining_spec(states[states.len() - 1]) as u64) == 0);
    assert(popcount(remaining_spec(states[0]) as u64) == p.num_pieces() - 1);
}

/// The states the search has seen: the keys of the predecessor map plus the
/// initial state.
pub open spec fn discovered(m: Map<u32, u32>, init: u32) -> Set<u32> {
    m.dom().insert(init)
}

/// Every predecessor entry records a legal step from an already-seen state.
pub open spec fn map_sound(p: Puzzle, m: Map<u32, u32>, init: u32) -> bool {
    forall|t: u32|
        #[trigger] m.dom().contains(t) ==> step_spec(p, m[t], t) && discovered(m, init).contains(
            m[t],
        )
}

/// No recorded state has won (the search stops at the first won state).
pub open spec fn map_no_done(m: Map<u32, u32>) -> bool {
    forall|t: u32| #[trigger] m.dom().contains(t) ==> remaining_spec(t) != 0
}

/// Every seen state is valid and no further from winning than the start.
pub open spec fn all_valid(p: Puzzle, m: Map<u32, u32>, init: u32) -> bool {
    forall|s: u32|
        #[trigger] discovered(m, init).contains(s) ==> valid_state(p, s) && popcount(
            remaining_spec(s) as u64,
        ) <= popcount(remaining_spec(init) as u64)
}

/// Every successor of `s` has been seen.
pub open spec fn expanded(p: Puzzle, m: Map<u32, u32>, init: u32, s: u32) -> bool {
    forall|t: u32| #[trigger] step_spec(p, s, t) ==> discovered(m, init).contains(t)
}

/// `s` still waits in the unexpanded tail of the frontier, from index `fi`
/// on, or in the next frontier `nf`.
pub open spec fn pending(fr: Seq<u32>, fi: int, nf: Seq<u32>, s: u32) -> bool {
    (exists|k: int| fi <= k < fr.len() && fr[k] == s) || nf.contains(s)
}

/// Every seen state either waits for expansion or has been expanded.
pub open spec fn search_closed(
    p: Puzzle,
    m: Map<u32, u32>,
    init: u32,
    fr: Seq<u32>,
    fi: int,
    nf: Seq<u32>,
) -> bool {
    forall|s: u32|
        #[trigger] discovered(m, init).contains(s) ==> pending(fr, fi, nf, s) || expanded(
            p,
            m,
            init,
            s,
        )
}

/// When the search space is exhausted, every state of a legal chain from the
/// initial state has been seen.
proof fn lemma_chain_discovered(p: Puzzle, m: Map<u32, u32>, init: u32, states: Seq<u32>, i: int)
    requires
        forall|s: u32| #[trigger] discovered(m, init).contains(s) ==> expanded(p, m, init, s),
        is_chain(p, states),
        0 <= i < states.len(),
        states[0] == init,
    ensures
        discovered(m, init).contains(states[i]),
    decreases i,
{
    if i == 0 {
        assert(discovered(m, init).contains(init));
    } else {
        lemma_chain_discovered(p, m, init, states, i - 1);
        assert(step_spec(p, states[i - 1], states[i]));
    }
}

/// Walks the predecessor links back from the first won state to the initial
/// state and returns the capture order along the way.
#[verifier::rlimit(100)]
fn unwind(
    p: &Puzzle,
    predecessors: &HashMapWithView<u32, u32>,
    found: u32,
    init: Ghost<u32>,
) -> (moves: Vec<u32>)
    requires
        p.wf(),
        init@ == initial_spec(*p),
        map_sound(*p, predecessors@, init@),
        all_valid(*p, predecessors@, init@),
        predecessors@.dom().contains(found),
        remaining_spec(found) == 0,
    ensures
        solves(*p, moves@),
{
    let mut rev: Vec<u32> = Vec::new();
    let mut cur: u32 = found;
    let ghost mut chain: Seq<u32> = seq![found];
    loop
        invariant
            p.wf(),
            init@ == initial_spec(*p),
            map_sound(*p, predecessors@, init@),
            all_valid(*p, predecessors@, init@),
            predecessors@.dom().contains(found),
            discovered(predecessors@, init@).contains(cur),
            chain.len() >= 1,
            chain[0] == cur,
            is_chain(*p, chain),
            chain[chain.len() - 1] == found,
            remaining_spec(found) == 0,
            rev@.len() + 1 == chain.len(),
            forall|i: int|
                0 <= i < rev@.len() ==> rev@[i] == in_hand_spec(
                    #[trigger] chain[chain.len() - 1 - i],
                ),
            chain.len() == 1 ==> cur == found,
        ensures
            cur == init@,
            chain.len() >= 2,
        decreases
                popcount(remaining_spec(init@) as u64) - popcount(remaining_spec(cur) as u64),
    {
        match predecessors.get(&cur) {
            Some(prev_ref) => {
                let prev: u32 = *prev_ref;
                proof {
                    assert(predecessors@.dom().contains(cur));
                    assert(step_spec(*p, prev, cur));
                    assert(discovered(predecessors@, init@).contains(prev));
                    lemma_step_preserves_valid(*p, prev, cur);
                }
                let ghost old_chain = chain;
                let ghost old_rev = rev@;
                rev.push(PuzzleState(cur).current_piece_idx());
                proof {
                    chain = seq![prev] + chain;
                    assert(rev@ == old_rev.push(in_hand_spec(cur)));
                    assert forall|i: int| 0 <= i < rev@.len() implies rev@[i] == in_hand_spec(
                        #[trigger] chain[chain.len() - 1 - i],
                    ) by {
                        if i < old_rev.len() {
                            assert(rev@[i] == old_rev[i]);
                            assert(chain[chain.len() - 1 - i] == old_chain[old_chain.len() - 1
                                - i]);
                        } else {
                            assert(rev@[i] == in_hand_spec(cur));
                            assert(chain.len() - 1 - i == 1);
                            assert(chain[1] == old_chain[0]);
                        }
                    }
                }
                cur = prev;
            },
            None => {
                proof {
                    assert(discovered(predecessors@, init@).contains(cur));
                    assert(!predecessors@.dom().contains(cur));
                    assert(cur == init@);
                    assert(cur != found);
                }
                break ;
            },
        }
    }
    let n = rev.len();
    let mut moves: Vec<u32> = Vec::new();
    let mut ri: usize = 0;
    while ri < n
        invariant
            ri <= n,
            n == rev@.len(),
            moves@.len() == ri,
            forall|i: int| 0 <= i < ri ==> moves@[i] == rev@[n - 1 - i],
        decreases n - ri,
    {
        moves.push(rev[n - 1 - ri]);
        ri = ri + 1;
    }
    proof {
        assert forall|i: int| 0 <= i < moves@.len() implies moves@[i] == in_hand_spec(
            chain[i + 1],
        ) by {
            assert(moves@[i] == rev@[n - 1 - i]);
            assert(rev@[n - 1 - i] == in_hand_spec(chain[chain.len() - 1 - (n - 1 - i)]));
            assert(chain.len() - 1 - (n - 1 - i) == i + 1);
        }
        assert(chain_solves(*p, chain, moves@));
    }
    moves
}

/// Solves a puzzle with a level-by-level breadth-first search over progress
/// states, returning the piece indices to capture in order, or `None` when
/// no capture order can win.  Because every capture removes exactly one
/// piece, the first won state found is reached by a shortest possible
/// sequence, and any returned sequence captures every opposing piece once.
#[verifier::rlimit(100)]
pub fn solve(p: &Puzzle) -> (r: Option<Vec<u32>>)
    requires
        p.wf(),
    ensures
        match r {
            Some(moves) => solves(*p, moves@) && moves@.len() == p.num_pieces() - 1,
            None => !solvable(*p),
        },
{
    let init = PuzzleState::initial(p);
    proof {
        lemma_initial_valid(*p);
    }
    let mut predecessors: HashMapWithView<u32, u32> = HashMapWithView::new();
    let mut frontier: Vec<u32> = Vec::new();
    frontier.push(init.0);
    let ghost mut level: int = popcount(remaining_spec(init.0) as u64) as int;
    proof {
        assert(discovered(predecessors@, init.0).contains(init.0));
        assert forall|s: u32| #[trigger]
            discovered(predecessors@, init.0).contains(s) implies pending(
            frontier@,
            0,
            Seq::<u32>::empty(),
            s,
        ) || expanded(*p, predecessors@, init.0, s) by {
            assert(!predecessors@.dom().contains(s));
            assert(s == init.0);
            assert(frontier@[0] == init.0);
        }
    }
    while frontier.len() > 0
        invariant
            p.wf(),
            init.0 == initial_spec(*p),
            valid_state(*p, init.0),
            map_sound(*p, predecessors@, init.0),
            map_no_done(predecessors@),
            all_valid(*p, predecessors@, init.0),
            forall|k: int|
                0 <= k < frontier@.len() ==> discovered(predecessors@, init.0).contains(
                    #[trigger] frontier@[k],
                ),
            forall|k: int|
                0 <= k < frontier@.len() ==> popcount(
                    remaining_spec(#[trigger] frontier@[k]) as u64,
                ) == level,
            search_closed(*p, predecessors@, init.0, frontier@, 0, Seq::<u32>::empty()),
            level <= popcount(remaining_spec(init.0) as u64),
            level >= -1,
            frontier@.len() > 0 ==> level >= 0,
        decreases level + 2,
    {
        let mut new_frontier: Vec<u32> = Vec::new();
        let mut fi: usize = 0;
        while fi < frontier.len()
            invariant
                p.wf(),
                init.0 == initial_spec(*p),
                valid_state(*p, init.0),
                fi <= frontier@.len(),
                map_sound(*p, predecessors@, init.0),
                map_no_done(predecessors@),
                all_valid(*p, predecessors@, init.0),
                forall|k: int|
                    0 <= k < frontier@.len() ==> discovered(predecessors@, init.0).contains(
                        #[trigger] frontier@[k],
                    ),
                forall|k: int|
                    0 <= k < frontier@.len() ==> popcount(
                        remaining_spec(#[trigger] frontier@[k]) as u64,
                    ) == level,
                forall|k: int|
                    0 <= k < new_frontier@.len() ==> discovered(predecessors@, init.0).contains(
                        #[trigger] new_frontier@[k],
                    ),
                forall|k: int|
                    0 <= k < new_frontier@.len() ==> popcount(
                        remaining_spec(#[trigger] new_frontier@[k]) as u64,
                    ) + 1 == level,
                search_closed(*p, predecessors@, init.0, frontier@, fi as int, new_frontier@),
                level <= popcount(remaining_spec(init.0) as u64),
            decreases frontier@.len() - fi,
        {
            let prev_st = PuzzleState(frontier[fi]);
            proof {
                assert(discovered(predecessors@, init.0).contains(prev_st.0));
            }
            let succs = prev_st.next_states(p);
            let mut si: usize = 0;
            while si < succs.len()
                invariant
                    p.wf(),
                    init.0 == initial_spec(*p),
                    valid_state(*p, init.0),
                    si <= succs@.len(),
                    fi < frontier@.len(),
                    prev_st.0 == frontier@[fi as int],
                    map_sound(*p, predecessors@, init.0),
                    map_no_done(predecessors@),
                    all_valid(*p, predecessors@, init.0),
                    forall|k: int|
                        0 <= k < frontier@.len() ==> discovered(predecessors@, init.0).contains(
                            #[trigger] frontier@[k],
                        ),
                    forall|k: int|
                        0 <= k < frontier@.len() ==> popcount(
                            remaining_spec(#[trigger] frontier@[k]) as u64,
                        ) == level,
                    forall|k: int|
                        0 <= k < new_frontier@.len() ==> discovered(predecessors@, init.0).contains(
                            #[trigger] new_frontier@[k],
                        ),
                    forall|k: int|
                        0 <= k < new_frontier@.len() ==> popcount(
                            remaining_spec(#[trigger] new_frontier@[k]) as u64,
                        ) + 1 == level,
                    search_closed(*p, predecessors@, init.0, frontier@, fi as int, new_frontier@),
                    level <= popcount(remaining_spec(init.0) as u64),
                    forall|k: int|
                        0 <= k < succs@.len() ==> step_spec(*p, prev_st.0, #[trigger] succs@[k].0),
                    forall|t: u32|
                        step_spec(*p, prev_st.0, t) ==> exists|k: int|
                            0 <= k < succs@.len() && succs@[k].0 == t,
                    forall|k: int|
                        0 <= k < si ==> discovered(predecessors@, init.0).contains(
                            #[trigger] succs@[k].0,
                        ),
                decreases succs@.len() - si,
            {
                let next = succs[si];
                proof {
                    assert(step_spec(*p, prev_st.0, next.0));
                    lemma_step_preserves_valid(*p, prev_st.0, next.0);
                }
                let ghost pre_map = predecessors@;
                let ghost nf_pre = new_frontier@;
                if !predecessors.contains_key(&next.0) {
                    predecessors.insert(next.0, prev_st.0);
                    new_frontier.push(next.0);
                    proof {
                        assert(predecessors@ == pre_map.insert(next.0, prev_st.0));
                        assert(predecessors@.dom() == pre_map.dom().insert(next.0));
                        assert forall|t: u32| #[trigger]
                            predecessors@.dom().contains(t) implies step_spec(
                            *p,
                            predecessors@[t],
                            t,
                        ) && discovered(predecessors@, init.0).contains(predecessors@[t]) by {
                            if t == next.0 {
                                assert(predecessors@[t] == prev_st.0);
                                assert(discovered(predecessors@, init.0).contains(prev_st.0));
                            } else {
                                assert(pre_map.dom().contains(t));
                                assert(predecessors@[t] == pre_map[t]);
                                assert(discovered(pre_map, init.0).contains(pre_map[t]));
                            }
                        }
                        assert forall|s: u32| #[trigger]
                            discovered(predecessors@, init.0).contains(s) implies valid_state(
                            *p,
                            s,
                        ) && popcount(remaining_spec(s) as u64) <= popcount(
                            remaining_spec(init.0) as u64,
                        ) by {
                            if s != next.0 {
                                assert(discovered(pre_map, init.0).contains(s));
                            }
                        }
                        assert forall|s: u32| #[trigger]
                            discovered(predecessors@, init.0).contains(s) implies pending(
                            frontier@,
                            fi as int,
                            new_frontier@,
                            s,
                        ) || expanded(*p, predecessors@, init.0, s) by {
                            if s == next.0 {
                                assert(new_frontier@[new_frontier@.len() - 1] == s);
                                assert(new_frontier@.contains(s));
                            } else {
                                assert(discovered(pre_map, init.0).contains(s));
                                if pending(frontier@, fi as int, nf_pre, s) {
                                    if nf_pre.contains(s) {
                                        let k0 = choose|k0: int|
                                            0 <= k0 < nf_pre.len() && nf_pre[k0] == s;
                                        assert(new_frontier@[k0] == s);
                                        assert(new_frontier@.contains(s));
                                    }
                                } else {
                                    assert(expanded(*p, pre_map, init.0, s));
                                    assert forall|t: u32| #[trigger]
                                        step_spec(*p, s, t) implies discovered(
                                        predecessors@,
                                        init.0,
                                    ).contains(t) by {
                                        assert(discovered(pre_map, init.0).contains(t));
                                    }
                                }
                            }
                        }
                    }
                }
                if next.done() {
                    proof {
                        assert(predecessors@.dom().contains(next.0));
                    }
                    let moves = unwind(p, &predecessors, next.0, Ghost(init.0));
                    proof {
                        lemma_solution_length(*p, moves@);
                    }
                    return Some(moves);
                }
                proof {
                    assert forall|t: u32| #[trigger]
                        predecessors@.dom().contains(t) implies remaining_spec(t) != 0 by {
                        if t != next.0 {
                            assert(pre_map.dom().contains(t));
                        }
                    }
                }
                si = si + 1;
            }
            proof {
                assert forall|t: u32| #[trigger] step_spec(*p, prev_st.0, t) implies discovered(
                    predecessors@,
                    init.0,
                ).contains(t) by {
                    let k = choose|k: int| 0 <= k < succs@.len() && succs@[k].0 == t;
                    assert(discovered(predecessors@, init.0).contains(succs@[k].0));
                }
                assert(expanded(*p, predecessors@, init.0, prev_st.0));
                assert forall|s: u32| #[trigger]
                    discovered(predecessors@, init.0).contains(s) implies pending(
                    frontier@,
                    fi as int + 1,
                    new_frontier@,
                    s,
                ) || expanded(*p, predecessors@, init.0, s) by {
                    if pending(frontier@, fi as int, new_frontier@, s) && !pending(
                        frontier@,
                        fi as int + 1,
                        new_frontier@,
                        s,
                    ) {
                        assert(frontier@[fi as int] == s);
                        assert(expanded(*p, predecessors@, init.0, prev_st.0));
                    }
                }
            }
            fi = fi + 1;
        }
        frontier = new_frontier;
        proof {
            level = level - 1;
            if frontier@.len() > 0 {
                assert(popcount(remaining_spec(frontier@[0]) as u64) + 1 == level + 1);
            }
            assert forall|s: u32| #[trigger]
                discovered(predecessors@, init.0).contains(s) implies pending(
                frontier@,
                0,
                Seq::<u32>::empty(),
                s,
            ) || expanded(*p, predecessors@, init.0, s) by {
                if !expanded(*p, predecessors@, init.0, s) {
                    assert(frontier@.contains(s));
                    let k0 = choose|k0: int| 0 <= k0 < frontier@.len() && frontier@[k0] == s;
                    assert(0 <= k0 < frontier@.len() && frontier@[k0] == s);
                }
            }
        }
    }
    proof {
        if solvable(*p) {
            let moves = choose|moves: Seq<u32>| solves(*p, moves);
            let states = choose|states: Seq<u32>| chain_solves(*p, states, moves);
            assert forall|s: u32| #[trigger]
                discovered(predecessors@, init.0).contains(s) implies expanded(
                *p,
                predecessors@,
                init.0,
                s,
            ) by {
                assert(!pending(frontier@, 0, Seq::<u32>::empty(), s));
            }
            lemma_chain_discovered(
                *p,
                predecessors@,
                init.0,
                states,
                states.len() - 1,
            );
            let last = states[states.len() - 1];
            if predecessors@.dom().contains(last) {
                assert(remaining_spec(last) != 0);
            } else {
                assert(last == init.0);
                assert(remaining_spec(init.0) == 0);
                assert(step_spec(*p, states[0], states[1]));
                lemma_no_step_from_done(*p, init.0, states[1]);
            }
            assert(false);
        }
    }
    None
}

} // verus!
