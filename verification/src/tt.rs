//! The transposition table: a fixed number of three-slot clusters, indexed
//! by Zobrist key, with a generational replacement policy. The contracts pin
//! the slots down exactly: what a save writes and where, what a probe reads,
//! and what sizing, resizing and a new search leave behind. A ghost history
//! of every save backs probe soundness: a probe only ever returns a score
//! that an earlier save stored for the same full board at the same or a
//! greater depth.

use vstd::prelude::*;

use crate::bitboard::Bitboard;

verus! {

/// The bytes one three-entry cluster is assumed to occupy when the table is
/// sized from a megabyte budget.
pub const CLUSTER_BYTES: usize = 80;

/// The megabyte budgets the table accepts; larger requests are clamped.
pub const MAX_TABLE_MB: usize = 2048;

/// One stored search result.
#[derive(Debug, Clone, Copy)]
pub struct TTEntry {
    pub state: Bitboard,
    pub depth: u8,
    pub score: i64,
    pub generation: u8,
}

/// The clusters a megabyte budget buys: the clamped budget in bytes over the
/// bytes of one cluster, and at least one.
pub open spec fn spec_clusters_for(size_mb: usize) -> int {
    let mb: int = if size_mb > MAX_TABLE_MB {
        MAX_TABLE_MB as int
    } else if size_mb == 0 {
        1
    } else {
        size_mb as int
    };
    let n = (mb * 1024 * 1024) / (CLUSTER_BYTES as int);
    if n == 0 {
        1
    } else {
        n
    }
}

/// The replacement priority of an entry of depth `depth` saved at
/// `entry_generation`, judged at `current_generation`: fresher, deeper
/// entries rank higher.
pub open spec fn spec_replace_value(depth: u8, entry_generation: u8, current_generation: u8) -> int {
    depth - 4 * vstd::wrapping::u8_specs::wrapping_sub(current_generation, entry_generation)
}

/// Whether a new entry of depth `depth` saved at `generation` may take a
/// slot: the slot is empty, or ranks below the new entry.
pub open spec fn slot_replaceable(slot: Option<TTEntry>, depth: u8, generation: u8) -> bool {
    match slot {
        None => true,
        Some(e) => spec_replace_value(depth, generation, generation) > spec_replace_value(
            e.depth,
            e.generation,
            generation,
        ),
    }
}

/// The slot of a cluster a save takes: the first of the three the new entry
/// may replace, if any.
pub open spec fn spec_save_slot(
    s0: Option<TTEntry>,
    s1: Option<TTEntry>,
    s2: Option<TTEntry>,
    depth: u8,
    generation: u8,
) -> Option<int> {
    if slot_replaceable(s0, depth, generation) {
        Some(0int)
    } else if slot_replaceable(s1, depth, generation) {
        Some(1int)
    } else if slot_replaceable(s2, depth, generation) {
        Some(2int)
    } else {
        None
    }
}

/// What one slot answers a probe for `state` at `depth`: its score, when it
/// holds this very board at that depth or deeper.
pub open spec fn spec_probe_slot(slot: Option<TTEntry>, state: Bitboard, depth: u8) -> Option<
    i64,
> {
    match slot {
        None => None,
        Some(e) => {
            if e.depth >= depth && e.state == state {
                Some(e.score)
            } else {
                None
            }
        },
    }
}

/// What a cluster answers a probe: the first of its three slots that holds
/// this board at the probed depth or deeper.
pub open spec fn spec_probe_cluster(
    s0: Option<TTEntry>,
    s1: Option<TTEntry>,
    s2: Option<TTEntry>,
    state: Bitboard,
    depth: u8,
) -> Option<i64> {
    if spec_probe_slot(s0, state, depth) is Some {
        spec_probe_slot(s0, state, depth)
    } else if spec_probe_slot(s1, state, depth) is Some {
        spec_probe_slot(s1, state, depth)
    } else {
        spec_probe_slot(s2, state, depth)
    }
}

/// One `save` call, as the table's ghost history records it.
pub struct SaveRecord {
    pub key: u64,
    pub state: Bitboard,
    pub depth: u8,
    pub score: i64,
}

/// A fixed-size cache of search results keyed by Zobrist hash. Entries live
/// in clusters of three; an entry is only handed back to a caller whose
/// board equals the stored one, so key collisions cannot corrupt results.
pub struct TranspositionTable {
    entries: Vec<Option<TTEntry>>,
    n_clusters: usize,
    generation: u8,
    log: Ghost<Seq<SaveRecord>>,
}

/// Whether a stored entry is accounted for by a save record aimed at the
/// cluster it sits in.
spec fn entry_matches(e: TTEntry, rec: SaveRecord, cluster: int, n: int) -> bool {
    &&& rec.state == e.state
    &&& rec.depth == e.depth
    &&& rec.score == e.score
    &&& rec.key as int % n == cluster
}

impl TranspositionTable {
    /// The history of every save made on this table.
    pub closed spec fn spec_log(&self) -> Seq<SaveRecord> {
        self.log@
    }

    /// How many clusters the table holds.
    pub closed spec fn spec_n_clusters(&self) -> int {
        self.n_clusters as int
    }

    /// The current generation counter.
    pub closed spec fn spec_generation(&self) -> u8 {
        self.generation
    }

    /// The table's slots, three per cluster: slot `s` of cluster `c` is
    /// entry `3 * c + s`.
    pub closed spec fn spec_slots(&self) -> Seq<Option<TTEntry>> {
        self.entries@
    }

    /// The table's internal invariant: at least one cluster, three slots per
    /// cluster, and every occupied slot holds what some past save stored,
    /// in the cluster that save's key selects.
    pub closed spec fn wf(&self) -> bool {
        &&& self.n_clusters >= 1
        &&& self.entries@.len() == 3 * self.n_clusters
        &&& forall|i: int|
            0 <= i < self.entries@.len() ==> ((#[trigger] self.entries@[i]) matches Some(e)
                ==> exists|j: int|
                0 <= j < self.log@.len() && entry_matches(
                    e,
                    #[trigger] self.log@[j],
                    i / 3,
                    self.n_clusters as int,
                ))
    }

    /// A table of empty clusters sized to roughly `size_mb` megabytes,
    /// clamped to at least one cluster, at generation 1 and with no history.
    pub fn new(size_mb: usize) -> (r: TranspositionTable)
        ensures
            r.wf(),
            r.spec_log().len() == 0,
            r.spec_generation() == 1,
            r.spec_n_clusters() == spec_clusters_for(size_mb),
            r.spec_slots().len() == 3 * r.spec_n_clusters(),
            forall|i: int| 0 <= i < r.spec_slots().len() ==> (#[trigger] r.spec_slots()[i]) is None,
    {
        let mb = if size_mb > MAX_TABLE_MB {
            MAX_TABLE_MB
        } else if size_mb == 0 {
            1
        } else {
            size_mb
        };
        let size_b = mb * 1024 * 1024;
        let mut n_clusters = size_b / CLUSTER_BYTES;
        if n_clusters == 0 {
            n_clusters = 1;
        }
        proof {
            assert(n_clusters as int <= 0x8000_0000int / (CLUSTER_BYTES as int));
        }
        let total = 3 * n_clusters;

        let mut entries: Vec<Option<TTEntry>> = Vec::new();
        let mut k: usize = 0;
        while k < total
            invariant
                k <= total,
                total == 3 * n_clusters,
                entries@.len() == k,
                forall|i: int| 0 <= i < k ==> (#[trigger] entries@[i]) is None,
            decreases total - k,
        {
            entries.push(None);
            k = k + 1;
        }

        TranspositionTable { entries, n_clusters, generation: 1, log: Ghost(Seq::empty()) }
    }

    /// Starts a new top-level search: the generation advances, wrapping at
    /// eight bits. The entries and the history stay.
    pub fn new_search(&mut self)
        requires
            old(self).wf(),
        ensures
            final(self).wf(),
            final(self).spec_log() == old(self).spec_log(),
            final(self).spec_slots() == old(self).spec_slots(),
            final(self).spec_n_clusters() == old(self).spec_n_clusters(),
            final(self).spec_generation() == vstd::wrapping::u8_specs::wrapping_add(
                old(self).spec_generation(),
                1,
            ),
    {
        self.generation = self.generation.wrapping_add(1);
        proof {
            let n = self.n_clusters as int;
            assert forall|i: int|
                0 <= i < self.entries@.len() implies ((#[trigger] self.entries@[i]) matches Some(e)
                ==> exists|j: int|
                0 <= j < self.log@.len() && entry_matches(e, #[trigger] self.log@[j], i / 3, n)) by {
                assert(self.entries@[i] == old(self).entries@[i]);
                if self.entries@[i] is Some {
                    let e = self.entries@[i]->0;
                    let j = choose|j: int|
                        0 <= j < old(self).log@.len() && entry_matches(
                            e,
                            #[trigger] old(self).log@[j],
                            i / 3,
                            old(self).n_clusters as int,
                        );
                    assert(0 <= j < self.log@.len() && entry_matches(e, self.log@[j], i / 3, n));
                }
            }
        }
    }

    /// The replacement priority of an entry saved at `entry_generation` with
    /// `depth`, judged at `current_generation`: fresher, deeper entries rank
    /// higher.
    fn replace_value(depth: u8, entry_generation: u8, current_generation: u8) -> (r: i32)
        ensures
            r as int == spec_replace_value(depth, entry_generation, current_generation),
    {
        depth as i32 - 4 * (current_generation.wrapping_sub(entry_generation) as i32)
    }

    /// Records a score for `state` at `depth` under `zobrist_hash`: the save
    /// enters the history unconditionally, and overwrites the first slot of
    /// the selected cluster that is empty or outranked; every other slot of
    /// the table stays as it was.
    pub fn save(&mut self, zobrist_hash: u64, state: &Bitboard, depth: u8, score: i64)
        requires
            old(self).wf(),
        ensures
            final(self).wf(),
            final(self).spec_log() == old(self).spec_log().push(
                SaveRecord { key: zobrist_hash, state: *state, depth, score },
            ),
            final(self).spec_n_clusters() == old(self).spec_n_clusters(),
            final(self).spec_generation() == old(self).spec_generation(),
            ({
                let cluster = zobrist_hash as int % old(self).spec_n_clusters();
                let e = TTEntry {
                    state: *state,
                    depth,
                    score,
                    generation: old(self).spec_generation(),
                };
                match spec_save_slot(
                    old(self).spec_slots()[3 * cluster],
                    old(self).spec_slots()[3 * cluster + 1],
                    old(self).spec_slots()[3 * cluster + 2],
                    depth,
                    old(self).spec_generation(),
                ) {
                    None => final(self).spec_slots() == old(self).spec_slots(),
                    Some(j) => final(self).spec_slots() == old(self).spec_slots().update(
                        3 * cluster + j,
                        Some(e),
                    ),
                }
            }),
    {
        let ghost rec = SaveRecord { key: zobrist_hash, state: *state, depth, score };
        proof {
            let ghost old_log = self.log@;
            self.log@ = self.log@.push(rec);
            let n = self.n_clusters as int;
            assert forall|k2: int|
                0 <= k2 < self.entries@.len() implies ((#[trigger] self.entries@[k2]) matches Some(
                e2,
            ) ==> exists|j: int|
                0 <= j < self.log@.len() && entry_matches(e2, #[trigger] self.log@[j], k2 / 3, n)) by {
                if self.entries@[k2] is Some {
                    let e2 = self.entries@[k2]->0;
                    let j = choose|j: int|
                        0 <= j < old_log.len() && entry_matches(e2, #[trigger] old_log[j], k2 / 3, n);
                    assert(self.log@[j] == old_log[j]);
                    assert(entry_matches(e2, self.log@[j], k2 / 3, n));
                }
            }
        }
        let total = self.entries.len();

        let generation = self.generation;
        let entry = TTEntry { state: *state, depth, score, generation };

        let key = (zobrist_hash % (self.n_clusters as u64)) as usize;
        proof {
            assert(key < self.n_clusters);
        }

        let mut i: usize = 0;
        while i < 3
            invariant
                i <= 3,
                key < self.n_clusters,
                total == self.entries@.len(),
                self.wf(),
                self.log@ == old(self).log@.push(rec),
                self.n_clusters == old(self).n_clusters,
                self.generation == old(self).generation,
                self.entries@ == old(self).entries@,
                self.entries@.len() == 3 * self.n_clusters,
                entry == (TTEntry { state: *state, depth, score, generation: old(
                    self,
                ).spec_generation() }),
                generation == old(self).spec_generation(),
                rec == (SaveRecord { key: zobrist_hash, state: *state, depth, score }),
                key as int == zobrist_hash as int % self.n_clusters as int,
                forall|j: int|
                    0 <= j < i ==> !slot_replaceable(
                        #[trigger] old(self).spec_slots()[3 * (key as int) + j],
                        depth,
                        generation,
                    ),
            decreases 3 - i,
        {
            proof {
                assert(3 * key as int + i < 3 * self.n_clusters as int);
            }
            let idx = key * 3 + i;
            proof {
                assert(idx < self.entries@.len());
                assert(idx as int / 3 == key as int) by (nonlinear_arith)
                    requires
                        idx as int == key as int * 3 + i as int,
                        0 <= i < 3,
                        key as int >= 0,
                ;
            }
            let write = match &self.entries[idx] {
                Option::None => true,
                Option::Some(e) => Self::replace_value(depth, generation, generation)
                    > Self::replace_value(e.depth, e.generation, generation),
            };
            proof {
                assert(write == slot_replaceable(
                    old(self).spec_slots()[3 * (key as int) + i],
                    depth,
                    generation,
                ));
            }
            if write {
                let ghost old_entries = self.entries@;
                self.entries[idx] = Some(entry);
                proof {
                    assert(self.entries@ == old_entries.update(idx as int, Some(entry)));
                    let n = self.n_clusters as int;
                    let lg = self.log@;
                    assert(entry_matches(entry, lg[lg.len() - 1], idx as int / 3, n));
                    assert forall|k2: int|
                        0 <= k2 < self.entries@.len() implies ((#[trigger] self.entries@[k2])
                        matches Some(e2) ==> exists|j: int|
                        0 <= j < lg.len() && entry_matches(e2, #[trigger] lg[j], k2 / 3, n)) by {
                        if k2 == idx as int {
                            assert(entry_matches(entry, lg[lg.len() - 1], idx as int / 3, n));
                        } else {
                            assert(self.entries@[k2] == old_entries[k2]);
                        }
                    }
                    let s0 = old(self).spec_slots()[3 * (key as int) + 0];
                    let s1 = old(self).spec_slots()[3 * (key as int) + 1];
                    let s2 = old(self).spec_slots()[3 * (key as int) + 2];
                    assert(i >= 1 ==> !slot_replaceable(s0, depth, generation));
                    assert(i >= 2 ==> !slot_replaceable(s1, depth, generation));
                    assert(old(self).spec_slots()[3 * (key as int)] == s0);
                    if i == 0 {
                        assert(slot_replaceable(s0, depth, generation));
                        assert(spec_save_slot(s0, s1, s2, depth, generation) == Some(0int));
                    } else if i == 1 {
                        assert(slot_replaceable(s1, depth, generation));
                        assert(spec_save_slot(s0, s1, s2, depth, generation) == Some(1int));
                    } else {
                        assert(slot_replaceable(s2, depth, generation));
                        assert(spec_save_slot(s0, s1, s2, depth, generation) == Some(2int));
                    }
                    assert(self.entries@ =~= old(self).spec_slots().update(
                        3 * (key as int) + i,
                        Some(entry),
                    ));
                }
                return ;
            }
            i = i + 1;
        }
        proof {
            let s0 = old(self).spec_slots()[3 * (key as int) + 0];
            let s1 = old(self).spec_slots()[3 * (key as int) + 1];
            let s2 = old(self).spec_slots()[3 * (key as int) + 2];
            assert(!slot_replaceable(s0, depth, generation));
            assert(!slot_replaceable(s1, depth, generation));
            assert(!slot_replaceable(s2, depth, generation));
            assert(old(self).spec_slots()[3 * (key as int)] == s0);
            assert(spec_save_slot(s0, s1, s2, depth, generation) is None);
        }
    }

    /// Looks a position up: the answer is exactly what the selected cluster
    /// holds — the score of its first slot that stores this very board at
    /// `depth` or deeper, or nothing. Any score handed back also traces to
    /// an earlier save for this board at such a depth, whose key selects the
    /// same cluster.
    pub fn probe(&self, zobrist_hash: u64, state: &Bitboard, depth: u8) -> (r: Option<i64>)
        requires
            self.wf(),
        ensures
            r == ({
                let cluster = zobrist_hash as int % self.spec_n_clusters();
                spec_probe_cluster(
                    self.spec_slots()[3 * cluster + 0],
                    self.spec_slots()[3 * cluster + 1],
                    self.spec_slots()[3 * cluster + 2],
                    *state,
                    depth,
                )
            }),
            r matches Some(v) ==> exists|j: int|
                0 <= j < self.spec_log().len() && {
                    let rec = #[trigger] self.spec_log()[j];
                    &&& rec.state == *state
                    &&& rec.depth >= depth
                    &&& rec.score == v
                    &&& rec.key as int % self.spec_n_clusters() == zobrist_hash as int
                        % self.spec_n_clusters()
                },
    {
        let total = self.entries.len();
        let key = (zobrist_hash % (self.n_clusters as u64)) as usize;

        let mut i: usize = 0;
        while i < 3
            invariant
                i <= 3,
                key < self.n_clusters,
                total == self.entries@.len(),
                self.wf(),
                key as int == zobrist_hash as int % self.n_clusters as int,
                forall|j: int|
                    0 <= j < i ==> spec_probe_slot(
                        #[trigger] self.spec_slots()[3 * (key as int) + j],
                        *state,
                        depth,
                    ) is None,
            decreases 3 - i,
        {
            proof {
                assert(3 * key as int + i < 3 * self.n_clusters as int);
            }
            let idx = key * 3 + i;
            proof {
                assert(idx < self.entries@.len());
                assert(idx as int / 3 == key as int) by (nonlinear_arith)
                    requires
                        idx as int == key as int * 3 + i as int,
                        0 <= i < 3,
                        key as int >= 0,
                ;
            }
            match &self.entries[idx] {
                Option::Some(e) => {
                    if e.depth >= depth && e.state == *state {
                        proof {
                            let n = self.n_clusters as int;
                            assert(self.entries@[idx as int] matches Some(e2) && e2 == *e);
                            let s0 = self.spec_slots()[3 * (key as int) + 0];
                            let s1 = self.spec_slots()[3 * (key as int) + 1];
                            let s2 = self.spec_slots()[3 * (key as int) + 2];
                            assert(i >= 1 ==> spec_probe_slot(s0, *state, depth) is None);
                            assert(i >= 2 ==> spec_probe_slot(s1, *state, depth) is None);
                            assert(self.spec_slots()[3 * (key as int)] == s0);
                            if i == 0 {
                                assert(spec_probe_slot(s0, *state, depth) == Some(e.score));
                            } else if i == 1 {
                                assert(spec_probe_slot(s1, *state, depth) == Some(e.score));
                            } else {
                                assert(spec_probe_slot(s2, *state, depth) == Some(e.score));
                            }
                            assert(spec_probe_cluster(s0, s1, s2, *state, depth) == Some(e.score));
                            let j = choose|j: int|
                                0 <= j < self.log@.len() && entry_matches(
                                    *e,
                                    #[trigger] self.log@[j],
                                    idx as int / 3,
                                    n,
                                );
                            assert(0 <= j < self.spec_log().len());
                            assert({
                                let rec = self.spec_log()[j];
                                &&& rec.state == *state
                                &&& rec.depth >= depth
                                &&& rec.score == e.score
                                &&& rec.key as int % self.spec_n_clusters() == zobrist_hash as int
                                    % self.spec_n_clusters()
                            });
                        }
                        return Some(e.score);
                    }
                },
                Option::None => {},
            }
            proof {
                assert(spec_probe_slot(self.spec_slots()[3 * (key as int) + i], *state, depth)
                    is None);
            }
            i = i + 1;
        }
        proof {
            let s0 = self.spec_slots()[3 * (key as int) + 0];
            let s1 = self.spec_slots()[3 * (key as int) + 1];
            let s2 = self.spec_slots()[3 * (key as int) + 2];
            assert(spec_probe_slot(s0, *state, depth) is None);
            assert(spec_probe_slot(s1, *state, depth) is None);
            assert(spec_probe_slot(s2, *state, depth) is None);
            assert(self.spec_slots()[3 * (key as int)] == s0);
            assert(spec_probe_cluster(s0, s1, s2, *state, depth) is None);
        }

        None
    }

    /// Empties the table into freshly sized clusters and resets the
    /// generation to 1: every slot is empty afterwards, so nothing saved
    /// before can be probed. The history stays: past saves remain past
    /// saves.
    pub fn resize(&mut self, size_mb: usize)
        requires
            old(self).wf(),
        ensures
            final(self).wf(),
            final(self).spec_log() == old(self).spec_log(),
            final(self).spec_generation() == 1,
            final(self).spec_n_clusters() == spec_clusters_for(size_mb),
            final(self).spec_slots().len() == 3 * final(self).spec_n_clusters(),
            forall|i: int|
                0 <= i < final(self).spec_slots().len() ==> (#[trigger] final(self).spec_slots()[i])
                    is None,
    {
        let fresh = TranspositionTable::new(size_mb);
        self.entries = fresh.entries;
        self.n_clusters = fresh.n_clusters;
        self.generation = 1;
    }
}

} // verus!
