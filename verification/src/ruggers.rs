//! A generation-stamped, immutable key-value store: the core of a
//! replicated in-memory cache without a central coordinator.
//!
//! A [`RuggedGeneration`] is a read-only snapshot of the whole key space at
//! one causal point for one node. Every local write (`store`) and every
//! accepted remote record (`merge`) derives a fresh child generation; the
//! parent stays valid and untouched. The generation counter packs the
//! owning node's identity into its low 4 bits, so it advances by 16 per
//! transition.

use std::rc::Rc;
use vstd::prelude::*;

verus! {

/// The generation counter with the 4 node-identity bits masked off:
/// the causal progress a counter stands for, comparable across nodes.
pub const GEN_MASK: u64 = 0xFFFF_FFFF_FFFF_FFF0;

/// The causal progress encoded in a generation counter: the counter with
/// the node-identity bits disregarded.
pub open spec fn masked(g: u64) -> u64 {
    g & GEN_MASK
}

/// Mathematical model of a [`RuggedRecord`]: the stamp and the two strings
/// as plain sequences of characters.
#[verifier::ext_equal]
pub ghost struct RecordModel {
    pub birth_gen: u64,
    pub key: Seq<char>,
    pub value: Seq<char>,
}

/// One key's value together with the generation counter it was written at.
/// Immutable after construction; equality is structural over all fields.
#[derive(Debug, PartialEq, Eq)]
pub struct RuggedRecord {
    pub birth_gen: u64,
    pub key: String,
    pub value: String,
}

impl View for RuggedRecord {
    type V = RecordModel;

    open spec fn view(&self) -> RecordModel {
        RecordModel { birth_gen: self.birth_gen, key: self.key@, value: self.value@ }
    }
}

impl DeepView for RuggedRecord {
    type V = RecordModel;

    open spec fn deep_view(&self) -> RecordModel {
        self.view()
    }
}

impl RuggedRecord {
    /// Wrap a stamped key-value pair. Always succeeds; no validation.
    pub fn new(birth_gen: u64, key: String, value: String) -> (r: Rc<RuggedRecord>)
        ensures
            r@ == (RecordModel { birth_gen, key: key@, value: value@ }),
    {
        Rc::new(RuggedRecord { birth_gen, key, value })
    }
}

/// Mathematical model of a [`RuggedGeneration`]: the counter and the key
/// space as a map from key to record model.
#[verifier::ext_equal]
pub ghost struct GenerationModel {
    pub this_gen: u64,
    pub data: Map<Seq<char>, RecordModel>,
}

/// What a local write yields: the counter advanced by 16 and the written
/// key sent to a record stamped with the child's counter; every other key
/// is carried forward unchanged.
pub open spec fn store_model(g: GenerationModel, key: Seq<char>, value: Seq<char>) -> GenerationModel {
    let next = (g.this_gen + 16) as u64;
    GenerationModel {
        this_gen: next,
        data: g.data.insert(key, RecordModel { birth_gen: next, key, value }),
    }
}

/// A collision: the generation already holds a record for the incoming
/// key that was born at the same time or later. Ties favour the record
/// already present.
pub open spec fn collides(g: GenerationModel, rec: RecordModel) -> bool {
    g.data.dom().contains(rec.key) && g.data[rec.key].birth_gen >= rec.birth_gen
}

/// What a merge yields: rejection on a collision, otherwise the counter
/// advanced by 16 and the incoming record taken verbatim, its original
/// birth stamp preserved; every other key is carried forward unchanged.
pub open spec fn merge_model(g: GenerationModel, rec: RecordModel) -> Option<GenerationModel> {
    if collides(g, rec) {
        None
    } else {
        Some(
            GenerationModel {
                this_gen: (g.this_gen + 16) as u64,
                data: g.data.insert(rec.key, rec),
            },
        )
    }
}

/// Advancing a counter by one generation never lowers its causal
/// progress: the node-identity bits are below the increment.
proof fn lemma_masked_step(g: u64, h: u64)
    requires
        g + 16 <= u64::MAX,
        h == g + 16,
    ensures
        masked(g) <= masked(h),
{
    assert(g & 0xFFFF_FFFF_FFFF_FFF0u64 <= h & 0xFFFF_FFFF_FFFF_FFF0u64) by (bit_vector)
        requires
            g <= 0xFFFF_FFFF_FFFF_FFEFu64,
            h == g + 16,
    ;
}

/// An immutable snapshot of the entire key space at one causal point for
/// one node. Deriving a child by [`RuggedGeneration::store`] or
/// [`RuggedGeneration::merge`] leaves the parent untouched.
#[derive(Debug, PartialEq, Eq)]
pub struct RuggedGeneration {
    this_gen: u64,
    data: Vec<Rc<RuggedRecord>>,
}

/// The record list `s` holds no two records under the same key.
spec fn keys_unique(s: Seq<RecordModel>) -> bool {
    forall|i: int, j: int| 0 <= i < j < s.len() ==> s[i].key != s[j].key
}

/// The key space that the record list `s` spells out, as a map.
spec fn seq_to_map(s: Seq<RecordModel>) -> Map<Seq<char>, RecordModel>
    decreases s.len(),
{
    if s.len() == 0 {
        Map::empty()
    } else {
        seq_to_map(s.drop_last()).insert(s.last().key, s.last())
    }
}

/// Some record in the list `s` carries the key `k`.
spec fn has_key(s: Seq<RecordModel>, k: Seq<char>) -> bool {
    exists|i: int| 0 <= i < s.len() && #[trigger] s[i].key == k
}

/// A key is in the map spelled out by a record list exactly when some
/// record in the list carries it.
proof fn lemma_seq_to_map_contains(s: Seq<RecordModel>, k: Seq<char>)
    ensures
        seq_to_map(s).dom().contains(k) <==> has_key(s, k),
    decreases s.len(),
{
    if s.len() > 0 {
        lemma_seq_to_map_contains(s.drop_last(), k);
        if s.last().key == k {
            assert(s[s.len() - 1].key == k);
        } else if seq_to_map(s).dom().contains(k) {
            let i = choose|i: int| 0 <= i < s.drop_last().len() && #[trigger] s.drop_last()[i].key == k;
            assert(s[i].key == k);
        } else if has_key(s, k) {
            let i = choose|i: int| 0 <= i < s.len() && #[trigger] s[i].key == k;
            assert(s.drop_last()[i].key == k);
        }
    }
}

/// Under unique keys, the map spelled out by a record list sends each
/// record's key to that record.
proof fn lemma_seq_to_map_at(s: Seq<RecordModel>, i: int)
    requires
        keys_unique(s),
        0 <= i < s.len(),
    ensures
        seq_to_map(s).dom().contains(s[i].key),
        seq_to_map(s)[s[i].key] == s[i],
    decreases s.len(),
{
    if i < s.len() - 1 {
        assert(keys_unique(s.drop_last())) by {
            assert(forall|p: int, q: int|
                0 <= p < q < s.drop_last().len() ==> s.drop_last()[p] == s[p]
                    && s.drop_last()[q] == s[q]);
        }
        lemma_seq_to_map_at(s.drop_last(), i);
        assert(s.drop_last()[i] == s[i]);
        assert(s[i].key != s.last().key);
    }
}

impl View for RuggedGeneration {
    type V = GenerationModel;

    closed spec fn view(&self) -> GenerationModel {
        GenerationModel {
            this_gen: self.this_gen,
            data: seq_to_map(self.data.deep_view()),
        }
    }
}

impl RuggedGeneration {
    /// Internal well-formedness: keys are unique, and every record's
    /// causal progress is within this generation's.
    #[verifier::type_invariant]
    spec fn wf(self) -> bool {
        &&& keys_unique(self.data.deep_view())
        &&& forall|i: int|
            0 <= i < self.data.deep_view().len() ==> masked(
                #[trigger] self.data.deep_view()[i].birth_gen,
            ) <= masked(self.this_gen)
    }

    /// Create the initial generation of a node: counter equal to the
    /// node's identity, no data, no predecessor.
    pub fn new_root(node_id: u8) -> (g: RuggedGeneration)
        requires
            node_id <= 15,
        ensures
            g@ == (GenerationModel { this_gen: node_id as u64, data: Map::empty() }),
    {
        RuggedGeneration { this_gen: node_id as u64, data: Vec::new() }
    }

    /// The generation counter: node identity in the low 4 bits, causal
    /// progress in the high bits.
    pub fn this_gen(&self) -> (g: u64)
        ensures
            g == self@.this_gen,
    {
        self.this_gen
    }

    /// Look a key up in this snapshot. Pure: never changes anything.
    /// Returns the record stored under `key`, or nothing when the key
    /// space holds no record for it. Every record a generation serves is
    /// causally bounded: its masked birth counter is within the
    /// generation's own masked counter.
    pub fn get(&self, key: &String) -> (r: Option<Rc<RuggedRecord>>)
        ensures
            match r {
                Some(rec) => self@.data.dom().contains(key@) && rec@ == self@.data[key@]
                    && masked(rec@.birth_gen) <= masked(self@.this_gen),
                None => !self@.data.dom().contains(key@),
            },
    {
        proof {
            use_type_invariant(&*self);
        }
        let ghost s = self.data.deep_view();
        let mut i: usize = 0;
        while i < self.data.len()
            invariant
                i <= self.data.len(),
                s == self.data.deep_view(),
                keys_unique(s),
                forall|j: int|
                    0 <= j < s.len() ==> masked(#[trigger] s[j].birth_gen) <= masked(
                        self.this_gen,
                    ),
                forall|j: int| 0 <= j < i ==> s[j].key != key@,
            decreases self.data.len() - i,
        {
            if self.data[i].key == *key {
                proof {
                    lemma_seq_to_map_at(s, i as int);
                }
                return Some(self.data[i].clone());
            }
            i += 1;
        }
        proof {
            lemma_seq_to_map_contains(s, key@);
        }
        None
    }

    /// Copy every record forward except those stored under `key`: the raw
    /// material of a derived child, before the one changed key is pushed.
    fn data_without(&self, key: &String) -> (v: Vec<Rc<RuggedRecord>>)
        ensures
            seq_to_map(v.deep_view()) == self@.data.remove(key@),
            keys_unique(v.deep_view()),
            forall|p: int|
                0 <= p < v.deep_view().len() ==> (#[trigger] v.deep_view()[p]).key != key@,
            forall|p: int|
                0 <= p < v.deep_view().len() ==> masked(
                    (#[trigger] v.deep_view()[p]).birth_gen,
                ) <= masked(self@.this_gen),
    {
        proof {
            use_type_invariant(&*self);
        }
        let ghost s = self.data.deep_view();
        let mut v: Vec<Rc<RuggedRecord>> = Vec::new();
        let mut i: usize = 0;
        while i < self.data.len()
            invariant
                i <= self.data.len(),
                s == self.data.deep_view(),
                keys_unique(s),
                forall|j: int|
                    0 <= j < s.len() ==> masked(#[trigger] s[j].birth_gen) <= masked(
                        self.this_gen,
                    ),
                seq_to_map(v.deep_view()) == seq_to_map(s.take(i as int)).remove(key@),
                keys_unique(v.deep_view()),
                forall|p: int|
                    0 <= p < v.deep_view().len() ==> (#[trigger] v.deep_view()[p]).key != key@,
                forall|p: int|
                    0 <= p < v.deep_view().len() ==> exists|j: int|
                        0 <= j < i && #[trigger] v.deep_view()[p] == s[j],
            decreases self.data.len() - i,
        {
            let ghost v_old = v.deep_view();
            let ghost taken = s.take(i as int);
            proof {
                assert(s.take(i as int + 1).drop_last() =~= taken);
            }
            if self.data[i].key != *key {
                proof {
                    assert forall|p: int| 0 <= p < v_old.len() implies v_old[p].key
                        != s[i as int].key by {
                        let j = choose|j: int| 0 <= j < i && #[trigger] v_old[p] == s[j];
                        assert(v_old[p] == s[j]);
                    }
                }
                v.push(self.data[i].clone());
                proof {
                    assert(v.deep_view() =~= v_old.push(s[i as int]));
                    assert(seq_to_map(v_old.push(s[i as int])) == seq_to_map(v_old).insert(
                        s[i as int].key,
                        s[i as int],
                    )) by {
                        assert(v_old.push(s[i as int]).drop_last() =~= v_old);
                    }
                    assert(seq_to_map(v.deep_view()) =~= seq_to_map(s.take(i as int + 1)).remove(
                        key@,
                    ));
                    assert forall|p: int| 0 <= p < v.deep_view().len() implies exists|j: int|
                        0 <= j < i + 1 && #[trigger] v.deep_view()[p] == s[j] by {
                        if p < v_old.len() {
                            let j = choose|j: int| 0 <= j < i && #[trigger] v_old[p] == s[j];
                            assert(v.deep_view()[p] == s[j]);
                        } else {
                            assert(v.deep_view()[p] == s[i as int]);
                        }
                    }
                }
            } else {
                proof {
                    assert(seq_to_map(v.deep_view()) =~= seq_to_map(s.take(i as int + 1)).remove(
                        key@,
                    ));
                }
            }
            i += 1;
        }
        proof {
            assert(s.take(s.len() as int) =~= s);
        }
        v
    }

    /// Store a value under a key, deriving a child generation: the
    /// counter advances by 16, all other keys are carried forward
    /// unchanged, and the key now holds a record stamped with the child's
    /// counter. A local write is always accepted: a node is authoritative
    /// over its own counter, so it can never conflict with itself.
    pub fn store(&self, key: &String, value: &String) -> (g: RuggedGeneration)
        requires
            self@.this_gen + 16 <= u64::MAX,
        ensures
            g@ == store_model(self@, key@, value@),
    {
        proof {
            use_type_invariant(&*self);
        }
        let next_gen = self.this_gen + 16;
        let mut v = self.data_without(key);
        let ghost v_old = v.deep_view();
        let rec = RuggedRecord::new(next_gen, key.clone(), value.clone());
        let ghost m = rec@;
        v.push(rec);
        proof {
            assert(v.deep_view() =~= v_old.push(m));
            assert(seq_to_map(v_old.push(m)) == seq_to_map(v_old).insert(m.key, m)) by {
                assert(v_old.push(m).drop_last() =~= v_old);
            }
            lemma_masked_step(self.this_gen, next_gen);
            assert(self@.data.remove(key@).insert(key@, m) =~= self@.data.insert(key@, m));
        }
        RuggedGeneration { this_gen: next_gen, data: v }
    }

    /// Merge a record received from a cluster peer, deriving a child
    /// generation, or reject it on a collision, leaving this generation
    /// untouched. An accepted record is taken verbatim: its original
    /// birth stamp is preserved, so the originating writer's causal mark
    /// survives for future comparisons.
    ///
    /// The caller must have ruled out causal desync: an accepted record
    /// whose masked counter exceeded the child's would mean the local
    /// store is behind history it should already reflect, and the owning
    /// process is expected to halt rather than accept it.
    pub fn merge(&self, record: Rc<RuggedRecord>) -> (r: Option<RuggedGeneration>)
        requires
            !collides(self@, record@) ==> self@.this_gen + 16 <= u64::MAX,
            !collides(self@, record@) ==> masked(record@.birth_gen) <= masked(
                (self@.this_gen + 16) as u64,
            ),
        ensures
            match r {
                Some(g) => merge_model(self@, record@) == Some(g@),
                None => merge_model(self@, record@) is None,
            },
    {
        proof {
            use_type_invariant(&*self);
        }
        if let Some(mine) = self.get(&record.key) {
            if mine.birth_gen >= record.birth_gen {
                return None;
            }
        }
        let next_gen = self.this_gen + 16;
        let mut v = self.data_without(&record.key);
        let ghost v_old = v.deep_view();
        let ghost m = record@;
        v.push(record);
        proof {
            assert(v.deep_view() =~= v_old.push(m));
            assert(seq_to_map(v_old.push(m)) == seq_to_map(v_old).insert(m.key, m)) by {
                assert(v_old.push(m).drop_last() =~= v_old);
            }
            lemma_masked_step(self.this_gen, next_gen);
            assert(self@.data.remove(m.key).insert(m.key, m) =~= self@.data.insert(m.key, m));
        }
        Some(RuggedGeneration { this_gen: next_gen, data: v })
    }
}

impl Clone for RuggedGeneration {
    /// An explicit snapshot: the clone covers the same key space at the
    /// same counter, and either copy can go on deriving children without
    /// affecting the other.
    fn clone(&self) -> (r: Self)
        ensures
            r@ == self@,
    {
        proof {
            use_type_invariant(&*self);
        }
        let ghost s = self.data.deep_view();
        let mut v: Vec<Rc<RuggedRecord>> = Vec::new();
        let mut i: usize = 0;
        while i < self.data.len()
            invariant
                i <= self.data.len(),
                s == self.data.deep_view(),
                v.deep_view() == s.take(i as int),
            decreases self.data.len() - i,
        {
            let ghost v_old = v.deep_view();
            v.push(self.data[i].clone());
            proof {
                assert(v.deep_view() =~= v_old.push(s[i as int]));
                assert(v_old.push(s[i as int]) =~= s.take(i as int + 1));
            }
            i += 1;
        }
        proof {
            assert(s.take(s.len() as int) =~= s);
        }
        RuggedGeneration { this_gen: self.this_gen, data: v }
    }
}

/// Law: a local write advances the counter by exactly 16, and a lookup
/// of the written key in the child finds a record carrying the child's
/// counter, the key, and the value just written.
pub proof fn lemma_store_advances(g: GenerationModel, key: Seq<char>, value: Seq<char>)
    requires
        g.this_gen + 16 <= u64::MAX,
    ensures
        store_model(g, key, value).this_gen == g.this_gen + 16,
        store_model(g, key, value).data.dom().contains(key),
        store_model(g, key, value).data[key] == (RecordModel {
            birth_gen: (g.this_gen + 16) as u64,
            key,
            value,
        }),
{
}

/// The generation a whole sequence of local writes arrives at, each
/// write given as a key-value pair, applied left to right.
pub open spec fn store_all(g: GenerationModel, ops: Seq<(Seq<char>, Seq<char>)>) -> GenerationModel
    decreases ops.len(),
{
    if ops.len() == 0 {
        g
    } else {
        store_all(store_model(g, ops.first().0, ops.first().1), ops.drop_first())
    }
}

/// Law: over any sequence of local writes, the counter advances by
/// exactly 16 per call.
pub proof fn lemma_store_sequence_advances(g: GenerationModel, ops: Seq<(Seq<char>, Seq<char>)>)
    requires
        g.this_gen + 16 * ops.len() <= u64::MAX,
    ensures
        store_all(g, ops).this_gen == g.this_gen + 16 * ops.len(),
    decreases ops.len(),
{
    if ops.len() > 0 {
        lemma_store_sequence_advances(store_model(g, ops.first().0, ops.first().1), ops.drop_first());
    }
}

/// Law: merging a record succeeds exactly when the generation holds no
/// record for its key, or holds one born strictly earlier; on success
/// the child returns the incoming record verbatim for that key, its
/// original birth stamp preserved, and the counter advances by 16.
pub proof fn lemma_merge_acceptance(g: GenerationModel, rec: RecordModel)
    requires
        g.this_gen + 16 <= u64::MAX,
    ensures
        merge_model(g, rec) is Some <==> (!g.data.dom().contains(rec.key) || g.data[rec.key].birth_gen
            < rec.birth_gen),
        merge_model(g, rec) is Some ==> merge_model(g, rec).unwrap().data.dom().contains(rec.key),
        merge_model(g, rec) is Some ==> merge_model(g, rec).unwrap().data[rec.key] == rec,
        merge_model(g, rec) is Some ==> merge_model(g, rec).unwrap().this_gen == g.this_gen + 16,
{
}

/// Law: merging a record against an existing record born at the same
/// time or later is a collision and yields no child generation; the
/// generation merged into is a value and stays as it was, so a lookup of
/// the key still finds the prior record.
pub proof fn lemma_merge_collision_rejects(g: GenerationModel, rec: RecordModel)
    requires
        g.data.dom().contains(rec.key),
        g.data[rec.key].birth_gen >= rec.birth_gen,
    ensures
        merge_model(g, rec) is None,
{
}

/// Law: a write to one key never alters the record stored under any
/// other key.
pub proof fn lemma_store_preserves_other_keys(
    g: GenerationModel,
    key: Seq<char>,
    value: Seq<char>,
    other: Seq<char>,
)
    requires
        other != key,
    ensures
        store_model(g, key, value).data.dom().contains(other) == g.data.dom().contains(other),
        g.data.dom().contains(other) ==> store_model(g, key, value).data[other] == g.data[other],
{
}

/// Law: an accepted merge of one key never alters the record stored
/// under any other key.
pub proof fn lemma_merge_preserves_other_keys(g: GenerationModel, rec: RecordModel, other: Seq<char>)
    requires
        other != rec.key,
        merge_model(g, rec) is Some,
    ensures
        merge_model(g, rec).unwrap().data.dom().contains(other) == g.data.dom().contains(other),
        g.data.dom().contains(other) ==> merge_model(g, rec).unwrap().data[other] == g.data[other],
{
}

} // verus!
