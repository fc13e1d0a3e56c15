//! The control-flow-graph model: basic blocks, edge descriptors, and the
//! mapping from block-start offset to block.

use vstd::prelude::*;

verus! {

/// One candidate destination of a dynamic jump; resolution by the analyzer
/// may have failed, in which case `to` is `None`.
pub struct DynamicJumpTarget {
    pub to: Option<usize>,
}

/// The closed set of edge shapes a basic block may terminate with.
#[allow(inconsistent_fields)]
pub enum BlockType {
    /// Single unconditional successor offset.
    Jump { to: usize },
    /// Two successor offsets: branch taken and not taken.
    Jumpi { true_to: usize, false_to: usize },
    /// A set of candidate jumps, each an optionally resolved destination.
    DynamicJump { to: Vec<DynamicJumpTarget> },
    /// Candidate "taken" destinations plus one known "not-taken" destination.
    DynamicJumpi { true_to: Vec<DynamicJumpTarget>, false_to: usize },
    /// No successors; marks an execution-path end, successful or failed.
    Terminate { success: bool },
}

/// A basic block: the inclusive instruction range `[start, end]` plus the
/// edge descriptor of its exit.
pub struct Block {
    pub start: usize,
    pub end: usize,
    pub btype: BlockType,
}

/// The offsets that a sequence of dynamic-jump candidates resolves to;
/// unresolved candidates contribute nothing.
pub open spec fn dynamic_targets(cands: Seq<DynamicJumpTarget>) -> Set<usize> {
    Set::new(|t: usize| exists|i: int| 0 <= i < cands.len() && cands[i].to == Some(t))
}

/// The successor offsets of a block, following its edge descriptor.
pub open spec fn successors(b: Block) -> Set<usize> {
    match b.btype {
        BlockType::Jump { to } => set![to],
        BlockType::Jumpi { true_to, false_to } => set![true_to, false_to],
        BlockType::DynamicJump { to } => dynamic_targets(to@),
        BlockType::DynamicJumpi { true_to, false_to } => dynamic_targets(
            true_to@,
        ).insert(false_to),
        BlockType::Terminate { .. } => Set::empty(),
    }
}

/// Whether some block in the sequence starts at `key`.
pub open spec fn seq_has_start(s: Seq<Block>, key: usize) -> bool {
    exists|i: int| 0 <= i < s.len() && s[i].start == key
}

/// The index of the block starting at `key`; meaningful when the starts are
/// distinct and `seq_has_start` holds.
pub open spec fn start_index(s: Seq<Block>, key: usize) -> int {
    choose|i: int| 0 <= i < s.len() && s[i].start == key
}

/// The sequence of blocks read as a mapping from start offset to block.
pub open spec fn block_map(s: Seq<Block>) -> Map<usize, Block> {
    Map::new(|key: usize| seq_has_start(s, key), |key: usize| s[start_index(s, key)])
}

/// Whether the blocks are strictly ordered by start offset (hence the start
/// offsets are distinct).
pub open spec fn starts_sorted(s: Seq<Block>) -> bool {
    forall|i: int, j: int| 0 <= i < j < s.len() ==> s[i].start < s[j].start
}

/// In a strictly ordered block sequence, the block starting at a given key
/// sits at exactly one index, and the mapping reads that block.
proof fn lemma_start_index_is(s: Seq<Block>, key: usize, i: int)
    requires
        starts_sorted(s),
        0 <= i < s.len(),
        s[i].start == key,
    ensures
        seq_has_start(s, key),
        start_index(s, key) == i,
        block_map(s).contains_key(key),
        block_map(s)[key] == s[i],
{
    assert(seq_has_start(s, key));
    let ix = start_index(s, key);
    assert(0 <= ix < s.len() && s[ix].start == key);
    if ix < i {
        assert(s[ix].start < s[i].start);
    }
    if ix > i {
        assert(s[i].start < s[ix].start);
    }
}

/// A control-flow graph: a mapping from block-start offset to block, as
/// produced by the external analyzer.
pub struct Cfg {
    blocks: Vec<Block>,
}

impl View for Cfg {
    type V = Map<usize, Block>;

    closed spec fn view(&self) -> Map<usize, Block> {
        block_map(self.blocks@)
    }
}

/// Replacing the block at `idx` by one with the same start offset updates
/// the mapping at that start.
proof fn lemma_block_map_update(s: Seq<Block>, t: Seq<Block>, idx: int, b: Block)
    requires
        starts_sorted(s),
        0 <= idx < s.len(),
        s[idx].start == b.start,
        t == s.update(idx, b),
    ensures
        starts_sorted(t),
        block_map(t) == block_map(s).insert(b.start, b),
{
    assert(forall|i: int| 0 <= i < t.len() ==> t[i].start == s[i].start);
    assert(starts_sorted(t));
    assert forall|k: usize| #[trigger] seq_has_start(t, k) implies seq_has_start(s, k) by {
        let i = choose|i: int| 0 <= i < t.len() && t[i].start == k;
        assert(s[i].start == k);
    }
    assert forall|k: usize| #[trigger] seq_has_start(s, k) implies seq_has_start(t, k) by {
        let i = choose|i: int| 0 <= i < s.len() && s[i].start == k;
        assert(t[i].start == k);
    }
    assert forall|k: usize| #[trigger] seq_has_start(t, k) implies block_map(t)[k] == block_map(
        s,
    ).insert(b.start, b)[k] by {
        if k == b.start {
            lemma_start_index_is(t, k, idx);
        } else {
            let i = choose|i: int| 0 <= i < t.len() && t[i].start == k;
            assert(i != idx);
            lemma_start_index_is(t, k, i);
            lemma_start_index_is(s, k, i);
        }
    }
    assert(block_map(t) =~= block_map(s).insert(b.start, b));
}

/// Inserting a block at the position where the starts below are smaller and
/// the starts at or above are larger keeps the order and adds one mapping
/// entry.
proof fn lemma_block_map_insert(s: Seq<Block>, t: Seq<Block>, idx: int, b: Block)
    requires
        starts_sorted(s),
        0 <= idx <= s.len(),
        forall|j: int| 0 <= j < idx ==> s[j].start < b.start,
        forall|j: int| idx <= j < s.len() ==> s[j].start > b.start,
        t == s.insert(idx, b),
    ensures
        starts_sorted(t),
        block_map(t) == block_map(s).insert(b.start, b),
{
    s.insert_ensures(idx, b);
    assert forall|i: int, j: int| 0 <= i < j < t.len() implies t[i].start < t[j].start by {
        if i < idx && j < idx {
            assert(t[i] == s[i] && t[j] == s[j]);
        } else if i < idx && j == idx {
            assert(t[i] == s[i] && t[j] == b);
        } else if i < idx && j > idx {
            assert(t[i] == s[i] && t[j] == s[j - 1]);
            assert(s[i].start < b.start && s[j - 1].start > b.start);
        } else if i == idx {
            assert(t[i] == b && t[j] == s[j - 1]);
        } else {
            assert(t[i] == s[i - 1] && t[j] == s[j - 1]);
        }
    }
    assert forall|k: usize| #[trigger] seq_has_start(t, k) && k != b.start implies seq_has_start(
        s,
        k,
    ) by {
        let i = choose|i: int| 0 <= i < t.len() && t[i].start == k;
        if i < idx {
            assert(s[i].start == k);
        } else {
            assert(i != idx);
            assert(s[i - 1].start == k);
        }
    }
    assert forall|k: usize| #[trigger] seq_has_start(s, k) implies seq_has_start(t, k) by {
        let i = choose|i: int| 0 <= i < s.len() && s[i].start == k;
        if i < idx {
            assert(t[i].start == k);
        } else {
            assert(t[i + 1].start == k);
        }
    }
    assert(t[idx].start == b.start);
    assert(seq_has_start(t, b.start));
    assert forall|k: usize| #[trigger] seq_has_start(t, k) implies block_map(t)[k] == block_map(
        s,
    ).insert(b.start, b)[k] by {
        if k == b.start {
            lemma_start_index_is(t, k, idx);
        } else {
            let i = choose|i: int| 0 <= i < t.len() && t[i].start == k;
            assert(i != idx);
            if i < idx {
                lemma_start_index_is(t, k, i);
                lemma_start_index_is(s, k, i);
            } else {
                lemma_start_index_is(t, k, i);
                lemma_start_index_is(s, k, i - 1);
            }
        }
    }
    assert(block_map(t) =~= block_map(s).insert(b.start, b));
}

/// The first index whose block starts at or above `key`; the length when
/// every block starts below `key`.
fn lower_bound(v: &Vec<Block>, key: usize) -> (idx: usize)
    ensures
        idx <= v@.len(),
        forall|j: int| 0 <= j < idx ==> v@[j].start < key,
        idx < v@.len() ==> v@[idx as int].start >= key,
{
    let n = v.len();
    let mut idx: usize = 0;
    while idx < n
        invariant
            n == v@.len(),
            idx <= n,
            forall|j: int| 0 <= j < idx ==> v@[j].start < key,
        decreases n - idx,
    {
        if v[idx].start >= key {
            return idx;
        }
        idx += 1;
    }
    idx
}

impl Cfg {
    #[verifier::type_invariant]
    spec fn wf(self) -> bool {
        starts_sorted(self.blocks@)
    }

    /// An empty graph.
    pub fn new() -> (c: Cfg)
        ensures
            c@ == Map::<usize, Block>::empty(),
    {
        let c = Cfg { blocks: Vec::new() };
        proof {
            assert(c@ =~= Map::<usize, Block>::empty());
        }
        c
    }

    /// Inserts a block keyed by its own start offset, replacing any block
    /// with the same start.
    pub fn insert(&mut self, b: Block)
        ensures
            final(self)@ == old(self)@.insert(b.start, b),
    {
        proof {
            use_type_invariant(&*self);
        }
        let mut v: Vec<Block> = Vec::new();
        core::mem::swap(&mut v, &mut self.blocks);
        let ghost s = v@;
        let idx = lower_bound(&v, b.start);
        if idx < v.len() && v[idx].start == b.start {
            v.remove(idx);
            v.insert(idx, b);
            proof {
                assert(v@ =~= s.update(idx as int, b));
                lemma_block_map_update(s, v@, idx as int, b);
            }
        } else {
            v.insert(idx, b);
            proof {
                assert forall|j: int| idx <= j < s.len() implies s[j].start > b.start by {
                    if j == idx {
                        assert(s[j].start >= b.start);
                        assert(s[j].start != b.start);
                    } else {
                        assert(s[idx as int].start >= b.start);
                        assert(s[idx as int].start < s[j].start);
                    }
                }
                lemma_block_map_insert(s, v@, idx as int, b);
            }
        }
        core::mem::swap(&mut v, &mut self.blocks);
    }

    /// Looks up the block whose start offset equals `key`.
    pub fn get(&self, key: usize) -> (r: Option<&Block>)
        ensures
            match r {
                Some(b) => self@.contains_key(key) && *b == self@[key],
                None => !self@.contains_key(key),
            },
    {
        proof {
            use_type_invariant(self);
        }
        let n = self.blocks.len();
        let mut i: usize = 0;
        while i < n
            invariant
                n == self.blocks@.len(),
                i <= n,
                starts_sorted(self.blocks@),
                forall|j: int| 0 <= j < i ==> self.blocks@[j].start != key,
            decreases n - i,
        {
            if self.blocks[i].start == key {
                proof {
                    lemma_start_index_is(self.blocks@, key, i as int);
                }
                return Some(&self.blocks[i]);
            }
            i += 1;
        }
        proof {
            assert(!seq_has_start(self.blocks@, key));
        }
        None
    }

    /// The `(start, end)` ranges of the blocks whose start offset occurs in
    /// `keys`, in ascending order of start offset.
    pub(crate) fn ranges_with_start_in(&self, keys: &Vec<usize>) -> (r: Vec<(usize, usize)>)
        ensures
            forall|a: int, b: int| 0 <= a < b < r@.len() ==> r@[a].0 < r@[b].0,
            forall|a: int|
                0 <= a < r@.len() ==> self@.contains_key(#[trigger] r@[a].0) && r@[a].1
                    == self@[r@[a].0].end && keys@.contains(r@[a].0),
            forall|s: usize|
                self@.contains_key(s) && keys@.contains(s) ==> exists|a: int|
                    0 <= a < r@.len() && #[trigger] r@[a].0 == s,
    {
        proof {
            use_type_invariant(self);
        }
        let ghost bs = self.blocks@;
        let n = self.blocks.len();
        let mut out: Vec<(usize, usize)> = Vec::new();
        let mut i: usize = 0;
        while i < n
            invariant
                n == bs.len(),
                bs == self.blocks@,
                starts_sorted(bs),
                self@ == block_map(bs),
                i <= n,
                forall|a: int|
                    0 <= a < out@.len() ==> exists|j: int|
                        0 <= j < i && bs[j].start == #[trigger] out@[a].0,
                forall|a: int, b: int| 0 <= a < b < out@.len() ==> out@[a].0 < out@[b].0,
                forall|a: int|
                    0 <= a < out@.len() ==> self@.contains_key(#[trigger] out@[a].0) && out@[a].1
                        == self@[out@[a].0].end && keys@.contains(out@[a].0),
                forall|j: int|
                    0 <= j < i && keys@.contains(#[trigger] bs[j].start) ==> exists|a: int|
                        0 <= a < out@.len() && #[trigger] out@[a].0 == bs[j].start,
            decreases n - i,
        {
            let b = &self.blocks[i];
            let ghost out_pre = out@;
            let keep = vec_contains(keys, b.start);
            if keep {
                proof {
                    lemma_start_index_is(bs, b.start, i as int);
                    assert forall|a: int| 0 <= a < out@.len() implies out@[a].0 < b.start by {
                        let j = choose|j: int| 0 <= j < i && bs[j].start == out@[a].0;
                        assert(bs[j].start < bs[i as int].start);
                    }
                }
                out.push((b.start, b.end));
            }
            proof {
                assert forall|a: int| 0 <= a < out@.len() implies exists|j: int|
                    0 <= j < i + 1 && bs[j].start == #[trigger] out@[a].0 by {
                    if a < out_pre.len() {
                        let j = choose|j: int| 0 <= j < i && bs[j].start == out_pre[a].0;
                        assert(bs[j].start == out@[a].0);
                    } else {
                        assert(bs[i as int].start == out@[a].0);
                    }
                }
                assert forall|j: int|
                    0 <= j < i + 1 && keys@.contains(#[trigger] bs[j].start) implies exists|a: int|
                    0 <= a < out@.len() && #[trigger] out@[a].0 == bs[j].start by {
                    if j < i {
                        let a0 = choose|a: int|
                            0 <= a < out_pre.len() && #[trigger] out_pre[a].0 == bs[j].start;
                        assert(out@[a0].0 == bs[j].start);
                    } else {
                        assert(keep);
                        assert(out@[out@.len() - 1].0 == bs[j].start);
                    }
                }
            }
            i += 1;
        }
        proof {
            assert forall|s: usize| self@.contains_key(s) && keys@.contains(s) implies exists|
                a: int,
            |
                0 <= a < out@.len() && #[trigger] out@[a].0 == s by {
                let j = choose|j: int| 0 <= j < bs.len() && bs[j].start == s;
                assert(keys@.contains(bs[j].start));
            }
        }
        out
    }
}

/// Whether `x` occurs in `v`.
pub(crate) fn vec_contains(v: &Vec<usize>, x: usize) -> (r: bool)
    ensures
        r == v@.contains(x),
{
    let n = v.len();
    let mut i: usize = 0;
    while i < n
        invariant
            n == v@.len(),
            i <= n,
            forall|j: int| 0 <= j < i ==> v@[j] != x,
        decreases n - i,
    {
        if v[i] == x {
            return true;
        }
        i += 1;
    }
    false
}

} // verus!
