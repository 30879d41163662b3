//! The search engine: iterative alpha-beta minimax over the board, with the
//! transposition table probed and filled along the way. The engine handles
//! the depth-bounded and default search constraints; a wall-clock bound is
//! driven by a caller that runs one depth at a time.

use vstd::prelude::*;

use crate::bitboard::legal_simple_move;
use crate::bitboard::spec_evaluate;
use crate::bitboard::spec_take_action;
use crate::bitboard::Bitboard;
use crate::searchable::ActionStatePair;
use crate::searchable::GameState;
use crate::searchable::Optim;
use crate::tt::TranspositionTable;

verus! {

/// The deepest search a constraint may ask for.
pub const MAX_DEPTH: u32 = 25;

/// The longest wall-clock bound a constraint may ask for, in milliseconds.
pub const MAX_TIME: u32 = 300000;

/// The depth an unconstrained search runs at.
pub const DEFAULT_DEPTH: u32 = 13;

/// The megabytes the engine's transposition table is sized to.
pub const DEFAULT_TABLE_MB: usize = 256;

/// A root action together with the score the search assigned to it.
#[derive(Debug, Clone, Copy)]
pub struct ActionScorePair {
    action: crate::action::Action,
    score: i64,
}

impl ActionScorePair {
    /// The action of the pair.
    pub closed spec fn spec_action(self) -> crate::action::Action {
        self.action
    }

    /// The score of the pair.
    pub closed spec fn spec_score(self) -> i64 {
        self.score
    }

    /// The action of the pair.
    pub fn action(&self) -> (r: crate::action::Action)
        ensures
            r == self.spec_action(),
    {
        self.action
    }

    /// The score of the pair.
    pub fn score(&self) -> (r: i64)
        ensures
            r == self.spec_score(),
    {
        self.score
    }
}

/// The stop rule of a search: a fixed depth, a wall-clock bound in
/// milliseconds, or the engine's default depth.
#[derive(Debug, Clone, Copy, PartialEq, Eq, Structural)]
pub enum SearchConstraint {
    Depth(u32),
    Time(u64),
    Unbounded,
}

impl SearchConstraint {
    /// A depth-bounded constraint; depths beyond `MAX_DEPTH` are rejected.
    pub fn depth(d: u32) -> (r: Result<SearchConstraint, &'static str>)
        ensures
            d <= MAX_DEPTH ==> r == Ok::<SearchConstraint, &'static str>(SearchConstraint::Depth(
                d,
            )),
            d > MAX_DEPTH ==> r is Err,
    {
        if d > MAX_DEPTH {
            return Err("Depth too large! Pick lower than 25");
        }
        Ok(SearchConstraint::Depth(d))
    }

    /// A time-bounded constraint in milliseconds; bounds beyond `MAX_TIME`
    /// are rejected.
    pub fn time(t: u32) -> (r: Result<SearchConstraint, &'static str>)
        ensures
            t <= MAX_TIME ==> r == Ok::<SearchConstraint, &'static str>(SearchConstraint::Time(
                t as u64,
            )),
            t > MAX_TIME ==> r is Err,
    {
        if t > MAX_TIME {
            return Err("Time to large! Pick lower than 300 seconds");
        }
        Ok(SearchConstraint::Time(t as u64))
    }

    /// The default constraint: no explicit bound.
    pub fn none() -> (r: SearchConstraint)
        ensures
            r == SearchConstraint::Unbounded,
    {
        SearchConstraint::Unbounded
    }
}

/// Whether `a` may stand before `b` in a search result sorted for `optim`:
/// descending scores for the maximiser, ascending for the minimiser.
pub open spec fn score_ord(a: ActionScorePair, b: ActionScorePair, optim: Optim) -> bool {
    match optim {
        Optim::Max => a.spec_score() >= b.spec_score(),
        Optim::Min => a.spec_score() <= b.spec_score(),
    }
}

/// Whether a search result is sorted in the optimisation direction.
pub open spec fn results_sorted(s: Seq<ActionScorePair>, optim: Optim) -> bool {
    forall|i: int, j: int| 0 <= i < j < s.len() ==> score_ord(#[trigger] s[i], #[trigger] s[j], optim)
}

/// Whether no action is ranked twice.
pub open spec fn ranked_actions_distinct(s: Seq<ActionScorePair>) -> bool {
    forall|k1: int, k2: int|
        0 <= k1 < k2 < s.len() ==> (#[trigger] s[k1]).spec_action() != (#[trigger] s[k2]).spec_action()
}

/// Sorts root results by score: descending for the maximiser, ascending for
/// the minimiser; the result holds exactly the same pairs.
#[verifier::loop_isolation(false)]
fn sort_results(results: &mut Vec<ActionScorePair>, optim: Optim)
    ensures
        final(results)@.len() == old(results)@.len(),
        final(results)@.to_multiset() == old(results)@.to_multiset(),
        results_sorted(final(results)@, optim),
        ranked_actions_distinct(old(results)@) ==> ranked_actions_distinct(final(results)@),
{
    broadcast use vstd::seq_lib::group_to_multiset_ensures;

    let n = results.len();
    let mut i: usize = 1;
    while i < n || n == 0
        invariant
            n == results@.len(),
            n > 0 ==> 1 <= i <= n,
            results@.to_multiset() == old(results)@.to_multiset(),
            ranked_actions_distinct(old(results)@) ==> ranked_actions_distinct(results@),
            forall|a: int, b: int|
                0 <= a < b < i ==> score_ord(#[trigger] results@[a], #[trigger] results@[b], optim),
        decreases n - i, n,
    {
        if n == 0 {
            break ;
        }
        let mut j: usize = i;
        while j > 0
            invariant
                0 <= j <= i < n,
                n == results@.len(),
                results@.to_multiset() == old(results)@.to_multiset(),
                ranked_actions_distinct(old(results)@) ==> ranked_actions_distinct(results@),
                forall|a: int, b: int|
                    0 <= a < b <= i && b != j ==> score_ord(
                        #[trigger] results@[a],
                        #[trigger] results@[b],
                        optim,
                    ),
            decreases j,
        {
            let prev = results[j - 1];
            let here = results[j];
            let in_order = match optim {
                Optim::Max => prev.score >= here.score,
                Optim::Min => prev.score <= here.score,
            };
            if in_order {
                break ;
            }
            let ghost before = results@;
            results[j - 1] = here;
            results[j] = prev;
            proof {
                assert(results@ =~= before.update(j - 1, here).update(j as int, prev));
                vstd::seq_lib::lemma_seq_union_to_multiset_commutative(before, results@);
                assert(results@.to_multiset() =~= before.to_multiset());
                if ranked_actions_distinct(old(results)@) {
                    assert forall|k1: int, k2: int|
                        0 <= k1 < k2 < results@.len() implies (
                    #[trigger] results@[k1]).spec_action() != (
                    #[trigger] results@[k2]).spec_action() by {
                        let m1: int = if k1 == j - 1 {
                            j as int
                        } else if k1 == j {
                            j - 1
                        } else {
                            k1
                        };
                        let m2: int = if k2 == j - 1 {
                            j as int
                        } else if k2 == j {
                            j - 1
                        } else {
                            k2
                        };
                        assert(results@[k1] == before[m1]);
                        assert(results@[k2] == before[m2]);
                    }
                }
            }
            j = j - 1;
        }
        proof {
            assert forall|a: int, b: int| 0 <= a < b <= i implies score_ord(
                #[trigger] results@[a],
                #[trigger] results@[b],
                optim,
            ) by {
                if b == j {
                    if j > 0 {
                        assert(score_ord(results@[j - 1], results@[j as int], optim));
                        if a < j - 1 {
                            assert(score_ord(results@[a], results@[j - 1], optim));
                        }
                    }
                }
            }
        }
        i = i + 1;
    }
}

/// The search engine: the transposition table it reuses across searches.
pub struct Engine {
    tt: TranspositionTable,
}

impl Engine {
    /// The engine's internal invariant: its table is well formed.
    pub closed spec fn wf(&self) -> bool {
        self.tt.wf()
    }

    /// The history of saves the engine's table has seen.
    pub closed spec fn spec_tt_log(&self) -> Seq<crate::tt::SaveRecord> {
        self.tt.spec_log()
    }

    /// The engine's transposition table, for contracts about its slots and
    /// size.
    pub closed spec fn spec_tt(&self) -> TranspositionTable {
        self.tt
    }

    /// A fresh engine with an empty table of the default size.
    pub fn new() -> (r: Engine)
        ensures
            r.wf(),
            r.spec_tt_log().len() == 0,
            r.spec_tt().spec_n_clusters() == crate::tt::spec_clusters_for(DEFAULT_TABLE_MB),
            forall|i: int|
                0 <= i < r.spec_tt().spec_slots().len() ==> (#[trigger] r.spec_tt().spec_slots()[i])
                    is None,
    {
        Engine::with_table_mb(DEFAULT_TABLE_MB)
    }

    /// A fresh engine whose empty table is sized to roughly `size_mb`
    /// megabytes.
    pub fn with_table_mb(size_mb: usize) -> (r: Engine)
        ensures
            r.wf(),
            r.spec_tt_log().len() == 0,
            r.spec_tt().spec_n_clusters() == crate::tt::spec_clusters_for(size_mb),
            forall|i: int|
                0 <= i < r.spec_tt().spec_slots().len() ==> (#[trigger] r.spec_tt().spec_slots()[i])
                    is None,
    {
        Engine { tt: TranspositionTable::new(size_mb) }
    }

    /// Empties the engine's table back to the default size: every slot is
    /// empty afterwards, at generation 1.
    pub fn reset(&mut self)
        requires
            old(self).wf(),
        ensures
            final(self).wf(),
            final(self).spec_tt().spec_n_clusters() == crate::tt::spec_clusters_for(
                DEFAULT_TABLE_MB,
            ),
            final(self).spec_tt().spec_generation() == 1,
            forall|i: int|
                0 <= i < final(self).spec_tt().spec_slots().len()
                    ==> (#[trigger] final(self).spec_tt().spec_slots()[i]) is None,
    {
        self.tt.resize(DEFAULT_TABLE_MB);
    }

    /// Fail-soft alpha-beta minimax: a transposition hit is returned as is;
    /// at depth zero or on a finished game the static evaluation decides;
    /// otherwise the children are searched deepest-first by static
    /// evaluation, pruning once the window closes. With an empty table a
    /// depth-zero call returns the static evaluation and writes nothing.
    #[verifier::loop_isolation(false)]
    fn minmax_helper(
        &mut self,
        state: &Bitboard,
        depth: u32,
        alpha: i64,
        beta: i64,
        zobrist_hash: u64,
    ) -> (r: i64)
        requires
            old(self).wf(),
            depth <= 255,
        ensures
            final(self).wf(),
            (depth == 0 && old(self).spec_tt_log().len() == 0) ==> (r == spec_evaluate(state@)
                && final(self).spec_tt_log() == old(self).spec_tt_log()),
        decreases depth,
    {
        if let Some(value) = self.tt.probe(zobrist_hash, state, depth as u8) {
            return value;
        }

        let game_over = match state.get_game_state() {
            GameState::InProgress => false,
            GameState::Completed(_) => true,
        };
        if depth == 0 || game_over {
            return state.evaluate();
        }

        let mut alpha = alpha;
        let mut beta = beta;

        let mut nodes = state.generate_all_actions();
        let optim = state.turn().optim();
        sort_nodes_by_eval(&mut nodes, optim);

        let eval: i64 = match optim {
            Optim::Max => {
                let mut max_eval = i64::MIN;
                let mut i: usize = 0;
                while i < nodes.len()
                    invariant
                        self.wf(),
                    decreases nodes@.len() - i,
                {
                    let child = nodes[i].state();
                    let zobrist_hash_p = zobrist_hash ^ nodes[i].zobrist_diff();
                    let eval = self.minmax_helper(&child, depth - 1, alpha, beta, zobrist_hash_p);
                    if eval > max_eval {
                        max_eval = eval;
                    }
                    if max_eval > alpha {
                        alpha = max_eval;
                    }
                    if beta <= alpha {
                        break ;
                    }
                    i = i + 1;
                }
                max_eval
            },
            Optim::Min => {
                let mut min_eval = i64::MAX;
                let mut i: usize = 0;
                while i < nodes.len()
                    invariant
                        self.wf(),
                    decreases nodes@.len() - i,
                {
                    let child = nodes[i].state();
                    let zobrist_hash_p = zobrist_hash ^ nodes[i].zobrist_diff();
                    let eval = self.minmax_helper(&child, depth - 1, alpha, beta, zobrist_hash_p);
                    if eval < min_eval {
                        min_eval = eval;
                    }
                    if min_eval < beta {
                        beta = min_eval;
                    }
                    if beta <= alpha {
                        break ;
                    }
                    i = i + 1;
                }
                min_eval
            },
        };

        self.tt.save(zobrist_hash, state, depth as u8, eval);

        eval
    }

    /// Ranks every legal root action by its alpha-beta score, each child
    /// searched one level below the constrained depth — `Unbounded` at the
    /// default depth — sorted in the side to move's optimisation direction.
    /// Every returned action applies successfully on `state`, none is ranked
    /// twice, every legal simple move is ranked when no capture is forced,
    /// and the ranking is empty exactly on a finished game when a mover
    /// exists. At depth one (or zero) on a fresh engine each score is
    /// exactly the static evaluation of the board the action leads to, so
    /// depth one ranks the children by their evaluation. A wall-clock
    /// constraint is not handled here: a caller runs one depth at a time
    /// instead.
    #[verifier::loop_isolation(false)]
    pub fn search(&mut self, state: &Bitboard, constraint: &SearchConstraint) -> (r: Vec<
        ActionScorePair,
    >)
        requires
            old(self).wf(),
            !(constraint matches SearchConstraint::Time(_)),
        ensures
            final(self).wf(),
            results_sorted(r@, crate::bitboard::spec_optim(state@.turn)),
            crate::bitboard::spec_game_state(state@) matches GameState::Completed(_) ==> r@.len()
                == 0,
            forall|i: int|
                0 <= i < r@.len() ==> (#[trigger] r@[i].spec_action())@.wf() && spec_take_action(
                    state@,
                    r@[i].spec_action()@,
                ) is Ok,
            ranked_actions_distinct(r@),
            !state@.has_any_jumper(state@.turn) ==> forall|a: crate::action::ActionModel|
                #[trigger] legal_simple_move(state@, a) ==> exists|i: int|
                    0 <= i < r@.len() && (#[trigger] r@[i].spec_action())@ == a,
            state@.has_any_mover(state@.turn) && !state@.has_any_jumper(state@.turn) ==> r@.len()
                > 0,
            ((constraint == SearchConstraint::Depth(0u32) || constraint == SearchConstraint::Depth(
                1u32,
            )) && old(self).spec_tt_log().len() == 0) ==> forall|i: int|
                0 <= i < r@.len() ==> #[trigger] r@[i].spec_score() == spec_evaluate(
                    spec_take_action(state@, r@[i].spec_action()@)->Ok_0,
                ),
    {
        broadcast use vstd::seq_lib::group_to_multiset_ensures;

        self.tt.new_search();

        let zobrist_hash = state.zobrist_hash();

        let depth: u32 = match constraint {
            SearchConstraint::Unbounded => DEFAULT_DEPTH,
            SearchConstraint::Depth(dep) => *dep,
            SearchConstraint::Time(_) => {
                // ruled out by the precondition: a wall-clock bound is
                // driven by the caller, one depth at a time
                proof {
                    assert(false);
                }
                0
            },
        };
        let depth = if depth > 255 {
            255
        } else {
            depth
        };
        // the root already stands one ply into the tree: each child is
        // searched one level shallower, so `Depth(1)` evaluates the children
        // themselves
        let child_depth = if depth == 0 {
            0
        } else {
            depth - 1
        };

        let action_states = state.generate_all_actions();

        let ghost depth0 = (constraint == SearchConstraint::Depth(0u32) || constraint
            == SearchConstraint::Depth(1u32)) && old(self).spec_tt_log().len() == 0;

        let mut results: Vec<ActionScorePair> = Vec::new();
        let mut i: usize = 0;
        while i < action_states.len()
            invariant
                self.wf(),
                results@.len() == i <= action_states@.len(),
                forall|k: int|
                    0 <= k < results@.len() ==> #[trigger] results@[k].spec_action()
                        == action_states@[k].spec_action(),
                forall|k: int|
                    0 <= k < results@.len() ==> (#[trigger] results@[k].spec_action())@.wf()
                        && spec_take_action(state@, results@[k].spec_action()@) is Ok,
                depth0 ==> self.spec_tt_log().len() == 0,
                depth0 ==> child_depth == 0,
                depth0 ==> forall|k: int|
                    0 <= k < results@.len() ==> #[trigger] results@[k].spec_score()
                        == spec_evaluate(spec_take_action(state@, results@[k].spec_action()@)->Ok_0),
            decreases action_states@.len() - i,
        {
            let pair = &action_states[i];
            let child = pair.state();
            let eval = self.minmax_helper(
                &child,
                child_depth,
                i64::MIN,
                i64::MAX,
                zobrist_hash ^ pair.zobrist_diff(),
            );
            results.push(ActionScorePair { action: pair.action(), score: eval });
            i = i + 1;
        }

        let optim = state.turn().optim();
        let ghost unsorted = results@;
        proof {
            assert(ranked_actions_distinct(unsorted)) by {
                assert forall|k1: int, k2: int|
                    0 <= k1 < k2 < unsorted.len() implies (#[trigger] unsorted[k1]).spec_action()
                    != (#[trigger] unsorted[k2]).spec_action() by {
                    assert(action_states@[k1].spec_action() != action_states@[k2].spec_action());
                }
            }
        }
        sort_results(&mut results, optim);

        proof {
            assert forall|k: int| 0 <= k < results@.len() implies (
            #[trigger] results@[k].spec_action())@.wf() && spec_take_action(
                state@,
                results@[k].spec_action()@,
            ) is Ok && (depth0 ==> results@[k].spec_score() == spec_evaluate(
                spec_take_action(state@, results@[k].spec_action()@)->Ok_0,
            )) by {
                assert(results@.to_multiset().contains(results@[k]));
                assert(unsorted.to_multiset().contains(results@[k]));
                assert(unsorted.contains(results@[k]));
                let k0 = choose|k0: int| 0 <= k0 < unsorted.len() && unsorted[k0] == results@[k];
                assert(unsorted[k0].spec_action()@.wf());
            }
            if !state@.has_any_jumper(state@.turn) {
                assert forall|a: crate::action::ActionModel|
                    #[trigger] legal_simple_move(state@, a) implies exists|i: int|
                    0 <= i < results@.len() && (#[trigger] results@[i].spec_action())@ == a by {
                    let j = choose|j: int|
                        0 <= j < action_states@.len() && (
                        #[trigger] action_states@[j].spec_action())@ == a;
                    assert(unsorted[j].spec_action()@ == a);
                    assert(unsorted.contains(unsorted[j]));
                    assert(unsorted.to_multiset().contains(unsorted[j]));
                    assert(results@.to_multiset().contains(unsorted[j]));
                    assert(results@.contains(unsorted[j]));
                    let i = choose|i: int| 0 <= i < results@.len() && results@[i] == unsorted[j];
                    assert((results@[i].spec_action())@ == a);
                }
            }
        }

        results
    }
}

/// Orders children for the minimax fold by their static evaluation:
/// descending for the maximiser, ascending for the minimiser. The ordering
/// is a search heuristic; the fold reads nothing from it.
fn sort_nodes_by_eval(nodes: &mut Vec<ActionStatePair>, optim: Optim) {
    let n = nodes.len();
    let mut i: usize = 1;
    while i < n
        invariant
            n == nodes@.len(),
            n > 0 ==> 1 <= i,
        decreases n - i,
    {
        let mut j: usize = i;
        while j > 0
            invariant
                j <= i < n,
                n == nodes@.len(),
            decreases j,
        {
            let prev = nodes[j - 1].state().evaluate();
            let here = nodes[j].state().evaluate();
            let in_order = match optim {
                Optim::Max => prev >= here,
                Optim::Min => prev <= here,
            };
            if in_order {
                break ;
            }
            let a = nodes[j - 1];
            let b = nodes[j];
            nodes[j - 1] = b;
            nodes[j] = a;
            j = j - 1;
        }
        i = i + 1;
    }
}

} // verus!
