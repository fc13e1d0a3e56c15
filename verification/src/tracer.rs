//! The execution tracer: a work-list reachability walk over the control-flow
//! graph, bounded by a global step ceiling, whose outputs are the visited
//! block ranges in ascending start order and the offset-ordered instruction
//! subsequence those ranges cover.

use crate::graph::successors;
use crate::graph::vec_contains;
use crate::graph::Block;
use crate::graph::BlockType;
use crate::graph::Cfg;
use crate::MAX_TRACE_STEPS;
use vstd::prelude::*;
use vstd::set_lib::lemma_len_subset;

verus! {

/// One edge of the graph: the block at `a` lists `b` as a successor.
pub open spec fn step_edge(g: Map<usize, Block>, a: usize, b: usize) -> bool {
    g.contains_key(a) && successors(g[a]).contains(b)
}

/// The offsets form a path: consecutive entries are connected by an edge.
pub open spec fn is_path(g: Map<usize, Block>, p: Seq<usize>) -> bool {
    forall|i: int, j: int|
        0 <= i && j == i + 1 && j < p.len() ==> #[trigger] step_edge(g, p[i], p[j])
}

/// `to` can be reached from `from` by following zero or more edges.
pub open spec fn reachable(g: Map<usize, Block>, from: usize, to: usize) -> bool {
    exists|p: Seq<usize>|
        p.len() >= 1 && p[0] == from && p.last() == to && is_path(g, p)
}

/// Every edge target of every block addresses a key of the graph: no
/// dangling jump destinations.
pub open spec fn closed_graph(g: Map<usize, Block>) -> bool {
    forall|a: usize, b: usize| #[trigger] step_edge(g, a, b) ==> g.contains_key(b)
}

/// The graphs on which the walk's step ceiling can never cut exploration
/// short: no dangling targets and at most `MAX_TRACE_STEPS` blocks.
pub open spec fn under_step_ceiling(g: Map<usize, Block>) -> bool {
    closed_graph(g) && g.dom().finite() && g.dom().len() as int <= MAX_TRACE_STEPS as int
}

/// `off` lies inside one of the inclusive ranges.
pub open spec fn in_some_block(ranges: Seq<(usize, usize)>, off: usize) -> bool {
    exists|k: int| 0 <= k < ranges.len() && (#[trigger] ranges[k]).0 <= off <= ranges[k].1
}

/// The test selecting the instructions covered by the traced ranges.
pub open spec fn covered_by(ranges: Seq<(usize, usize)>) -> spec_fn((usize, String)) -> bool {
    |p: (usize, String)| in_some_block(ranges, p.0)
}

/// Reachability is reflexive.
proof fn lemma_reachable_self(g: Map<usize, Block>, a: usize)
    ensures
        reachable(g, a, a),
{
    let p = seq![a];
    assert(p.len() >= 1 && p[0] == a && p.last() == a && is_path(g, p));
}

/// Reachability extends along one edge.
proof fn lemma_reachable_step(g: Map<usize, Block>, from: usize, a: usize, b: usize)
    requires
        reachable(g, from, a),
        step_edge(g, a, b),
    ensures
        reachable(g, from, b),
{
    let p = choose|p: Seq<usize>|
        p.len() >= 1 && p[0] == from && p.last() == a && is_path(g, p);
    let q = p.push(b);
    assert forall|i: int, j: int|
        0 <= i && j == i + 1 && j < q.len() implies #[trigger] step_edge(g, q[i], q[j]) by {
        if j < p.len() {
            assert(q[i] == p[i] && q[j] == p[j]);
            assert(step_edge(g, p[i], p[j]));
        } else {
            assert(q[i] == p.last() && q[j] == b);
        }
    }
    assert(q.len() >= 1 && q[0] == from && q.last() == b && is_path(g, q));
}

/// From a dangling entry offset nothing but the entry itself is reachable.
proof fn lemma_reachable_from_dangling(g: Map<usize, Block>, entry: usize, s: usize)
    requires
        !g.contains_key(entry),
        reachable(g, entry, s),
    ensures
        s == entry,
{
    let p = choose|p: Seq<usize>|
        p.len() >= 1 && p[0] == entry && p.last() == s && is_path(g, p);
    if p.len() >= 2 {
        assert(step_edge(g, p[0], p[1]));
    }
}

/// A set of offsets that contains a path's start and is closed under the
/// graph's edges contains the path's end.
proof fn lemma_path_end_visited(g: Map<usize, Block>, visited: Seq<usize>, p: Seq<usize>)
    requires
        is_path(g, p),
        p.len() >= 1,
        visited.contains(p[0]),
        forall|v: usize, t: usize|
            visited.contains(v) && #[trigger] step_edge(g, v, t) ==> visited.contains(t),
    ensures
        visited.contains(p.last()),
    decreases p.len(),
{
    if p.len() > 1 {
        assert(step_edge(g, p[0], p[1]));
        let q = p.drop_first();
        assert forall|i: int, j: int|
            0 <= i && j == i + 1 && j < q.len() implies #[trigger] step_edge(g, q[i], q[j]) by {
            assert(q[i] == p[i + 1] && q[j] == p[j + 1]);
            assert(step_edge(g, p[i + 1], p[j + 1]));
        }
        assert(q[0] == p[1]);
        lemma_path_end_visited(g, visited, q);
        assert(q.last() == p.last());
    }
}

/// Pushes every resolved successor offset of `b` onto the work list.
fn push_successors(queue: &mut Vec<usize>, b: &Block)
    ensures
        old(queue)@.len() <= final(queue)@.len(),
        forall|k: int| 0 <= k < old(queue)@.len() ==> final(queue)@[k] == old(queue)@[k],
        forall|k: int|
            old(queue)@.len() <= k < final(queue)@.len() ==> successors(*b).contains(
                #[trigger] final(queue)@[k],
            ),
        forall|t: usize| #[trigger] successors(*b).contains(t) ==> final(queue)@.contains(t),
{
    match &b.btype {
        BlockType::Jump { to } => {
            queue.push(*to);
            proof {
                assert(successors(*b) == set![*to]);
                assert(queue@.last() == *to);
                assert(queue@.contains(*to));
                assert forall|t: usize| #[trigger]
                    successors(*b).contains(t) implies queue@.contains(t) by {
                    assert(t == *to);
                }
            }
        },
        BlockType::Jumpi { true_to, false_to } => {
            queue.push(*true_to);
            queue.push(*false_to);
            proof {
                assert(successors(*b) == set![*true_to, *false_to]);
                assert(queue@[queue@.len() - 2] == *true_to);
                assert(queue@.last() == *false_to);
                assert(queue@.contains(*true_to));
                assert(queue@.contains(*false_to));
                assert forall|t: usize| #[trigger]
                    successors(*b).contains(t) implies queue@.contains(t) by {
                    assert(t == *true_to || t == *false_to);
                }
            }
        },
        BlockType::DynamicJump { to } => {
            push_resolved(queue, to);
            proof {
                assert(successors(*b) == crate::graph::dynamic_targets(to@));
            }
        },
        BlockType::DynamicJumpi { true_to, false_to } => {
            let ghost base = queue@;
            push_resolved(queue, true_to);
            let ghost mid = queue@;
            queue.push(*false_to);
            proof {
                assert(successors(*b) == crate::graph::dynamic_targets(true_to@).insert(
                    *false_to,
                ));
                assert(queue@.last() == *false_to);
                assert(queue@.contains(*false_to));
                assert forall|k: int|
                    base.len() <= k < queue@.len() implies successors(*b).contains(
                    #[trigger] queue@[k],
                ) by {
                    if k < mid.len() {
                        assert(queue@[k] == mid[k]);
                        assert(crate::graph::dynamic_targets(true_to@).contains(mid[k]));
                    } else {
                        assert(queue@[k] == *false_to);
                    }
                }
                assert forall|t: usize| #[trigger]
                    successors(*b).contains(t) implies queue@.contains(t) by {
                    if t != *false_to {
                        assert(crate::graph::dynamic_targets(true_to@).contains(t));
                        let k = choose|k: int| 0 <= k < mid.len() && mid[k] == t;
                        assert(queue@[k] == t);
                    }
                }
            }
        },
        BlockType::Terminate { .. } => {},
    }
}

/// Pushes the resolved destinations among the dynamic-jump candidates;
/// unresolved candidates are dropped.
fn push_resolved(queue: &mut Vec<usize>, cands: &Vec<crate::graph::DynamicJumpTarget>)
    ensures
        old(queue)@.len() <= final(queue)@.len(),
        forall|k: int| 0 <= k < old(queue)@.len() ==> final(queue)@[k] == old(queue)@[k],
        forall|k: int|
            old(queue)@.len() <= k < final(queue)@.len() ==> crate::graph::dynamic_targets(
                cands@,
            ).contains(#[trigger] final(queue)@[k]),
        forall|t: usize|
            #[trigger] crate::graph::dynamic_targets(cands@).contains(t)
                ==> final(queue)@.contains(t),
{
    let m = cands.len();
    let ghost base = queue@;
    let mut c: usize = 0;
    while c < m
        invariant
            m == cands@.len(),
            c <= m,
            base.len() <= queue@.len(),
            forall|k: int| 0 <= k < base.len() ==> queue@[k] == base[k],
            forall|k: int|
                base.len() <= k < queue@.len() ==> crate::graph::dynamic_targets(
                    cands@,
                ).contains(#[trigger] queue@[k]),
            forall|d: int|
                #![trigger cands@[d].to]
                0 <= d < c ==> (cands@[d].to matches Some(t) ==> queue@.contains(t)),
        decreases m - c,
    {
        let ghost pre = queue@;
        if let Some(dest) = cands[c].to {
            proof {
                assert(crate::graph::dynamic_targets(cands@).contains(dest));
            }
            queue.push(dest);
        }
        proof {
            assert forall|d: int|
                #![trigger cands@[d].to]
                0 <= d < c + 1 implies (cands@[d].to matches Some(t) ==> queue@.contains(t)) by {
                match cands@[d].to {
                    Some(t) => {
                        if d < c {
                            let k = choose|k: int| 0 <= k < pre.len() && pre[k] == t;
                            assert(queue@[k] == t);
                        } else {
                            assert(queue@.last() == t);
                        }
                    },
                    None => {},
                }
            }
        }
        c += 1;
    }
    proof {
        assert forall|t: usize|
            #[trigger] crate::graph::dynamic_targets(cands@).contains(t) implies queue@.contains(
            t,
        ) by {
            let d = choose|d: int| 0 <= d < cands@.len() && cands@[d].to == Some(t);
            assert(cands@[d].to matches Some(t2) ==> queue@.contains(t2));
        }
    }
}

/// Whether `off` lies in one of the traced ranges.
fn in_traced_block(ranges: &Vec<(usize, usize)>, off: usize) -> (r: bool)
    ensures
        r == in_some_block(ranges@, off),
{
    let n = ranges.len();
    let mut k: usize = 0;
    while k < n
        invariant
            n == ranges@.len(),
            k <= n,
            forall|j: int| 0 <= j < k ==> !((#[trigger] ranges@[j]).0 <= off <= ranges@[j].1),
        decreases n - k,
    {
        if ranges[k].0 <= off && off <= ranges[k].1 {
            return true;
        }
        k += 1;
    }
    false
}

/// Traces the execution paths reachable from `entry_point` through the graph.
///
/// The walk uses an explicit last-in-first-out work list seeded with the
/// entry offset, never revisits a block, silently drops offsets that address
/// no block, and stops taking up new blocks once `MAX_TRACE_STEPS` blocks
/// have been taken up (the bound is one shared counter for the whole walk,
/// not a per-path depth). The first output holds the `(start, end)` ranges
/// of the visited blocks in ascending start order, each range occurring at
/// most once; the second holds exactly the instructions of `disassembled`
/// that fall inside one of those ranges, in ascending offset order. Every
/// visited block is reachable from the entry; when the graph has no dangling
/// edge and at most `MAX_TRACE_STEPS` blocks, every reachable block is
/// visited.
pub fn trace_function_execution(
    entry_point: usize,
    blocks: &Cfg,
    disassembled: &Vec<(usize, String)>,
) -> (r: (Vec<(usize, usize)>, Vec<(usize, String)>))
    requires
        forall|i: int, j: int|
            0 <= i < j < disassembled@.len() ==> disassembled@[i].0 < disassembled@[j].0,
    ensures
        forall|a: int, b: int| 0 <= a < b < r.0@.len() ==> r.0@[a].0 < r.0@[b].0,
        forall|a: int, b: int| 0 <= a < b < r.0@.len() ==> r.0@[a] != r.0@[b],
        forall|a: int|
            0 <= a < r.0@.len() ==> blocks@.contains_key(#[trigger] r.0@[a].0) && r.0@[a].1
                == blocks@[r.0@[a].0].end && reachable(blocks@, entry_point, r.0@[a].0),
        blocks@.contains_key(entry_point) ==> exists|a: int|
            0 <= a < r.0@.len() && #[trigger] r.0@[a].0 == entry_point,
        !blocks@.contains_key(entry_point) ==> r.0@.len() == 0 && r.1@.len() == 0,
        under_step_ceiling(blocks@) && blocks@.contains_key(entry_point) ==> forall|s: usize|
            reachable(blocks@, entry_point, s) && blocks@.contains_key(s) ==> exists|a: int|
                0 <= a < r.0@.len() && #[trigger] r.0@[a].0 == s,
        r.1@ == disassembled@.filter(covered_by(r.0@)),
        forall|a: int, b: int| 0 <= a < b < r.1@.len() ==> r.1@[a].0 < r.1@[b].0,
{
    let ghost g = blocks@;
    let ghost ceiling_ok = under_step_ceiling(g) && g.contains_key(entry_point);
    let mut visited: Vec<usize> = Vec::new();
    let mut queue: Vec<usize> = Vec::new();
    queue.push(entry_point);
    proof {
        lemma_reachable_self(g, entry_point);
    }
    while queue.len() > 0
        invariant
            g == blocks@,
            ceiling_ok == (under_step_ceiling(g) && g.contains_key(entry_point)),
            forall|k: int|
                0 <= k < queue@.len() ==> reachable(g, entry_point, #[trigger] queue@[k]),
            forall|k: int|
                0 <= k < visited@.len() ==> reachable(g, entry_point, #[trigger] visited@[k]),
            visited@.no_duplicates(),
            visited@.len() as int <= MAX_TRACE_STEPS as int + 1,
            visited@.contains(entry_point) || (queue@.len() > 0 && queue@.last() == entry_point
                && visited@.len() == 0),
            ceiling_ok ==> forall|k: int|
                0 <= k < queue@.len() ==> g.contains_key(#[trigger] queue@[k]),
            ceiling_ok ==> forall|k: int|
                0 <= k < visited@.len() ==> g.contains_key(#[trigger] visited@[k]),
            ceiling_ok ==> forall|v: usize, t: usize|
                visited@.contains(v) && #[trigger] step_edge(g, v, t) ==> visited@.contains(t)
                    || queue@.contains(t),
        decreases MAX_TRACE_STEPS as int + 1 - visited@.len(), queue@.len(),
    {
        let ghost queue_pre = queue@;
        let block_start = queue.pop().unwrap();
        let already = vec_contains(&visited, block_start);
        if already || visited.len() > MAX_TRACE_STEPS {
            proof {
                if ceiling_ok && !already {
                    assert forall|x: usize| visited@.to_set().contains(x) implies g.dom().contains(
                        x,
                    ) by {
                        let k = choose|k: int| 0 <= k < visited@.len() && visited@[k] == x;
                    }
                    assert(visited@.to_set().subset_of(g.dom()));
                    visited@.unique_seq_to_set();
                    lemma_len_subset(visited@.to_set(), g.dom());
                    assert(false);
                }
                assert forall|v: usize, t: usize|
                    ceiling_ok && visited@.contains(v) && #[trigger] step_edge(g, v, t)
                        implies visited@.contains(t) || queue@.contains(t) by {
                    if !visited@.contains(t) {
                        let k = choose|k: int| 0 <= k < queue_pre.len() && queue_pre[k] == t;
                        if k < queue_pre.len() - 1 {
                            assert(queue@[k] == t);
                        } else {
                            assert(t == block_start);
                        }
                    }
                }
            }
            continue ;
        }
        let ghost visited_pre = visited@;
        visited.push(block_start);
        proof {
            assert forall|i: int, j: int|
                0 <= i < j < visited@.len() implies visited@[i] != visited@[j] by {
                if j < visited@.len() - 1 {
                    assert(visited_pre[i] != visited_pre[j]);
                } else {
                    assert(!visited_pre.contains(block_start));
                    assert(visited@[i] == visited_pre[i]);
                }
            }
            assert(visited@.last() == block_start);
            if visited_pre.contains(entry_point) {
                let k = choose|k: int| 0 <= k < visited_pre.len() && visited_pre[k] == entry_point;
                assert(visited@[k] == entry_point);
            } else {
                assert(queue_pre.len() > 0 && queue_pre.last() == entry_point
                    && visited_pre.len() == 0);
                assert(block_start == entry_point);
            }
            assert(visited@.contains(entry_point));
        }
        let ghost queue_mid = queue@;
        let found = blocks.get(block_start);
        match found {
            None => {
                proof {
                    assert forall|v: usize, t: usize|
                        ceiling_ok && visited@.contains(v) && #[trigger] step_edge(g, v, t)
                            implies visited@.contains(t) || queue@.contains(t) by {
                        assert(g.contains_key(block_start));
                        assert(false);
                    }
                }
            },
            Some(block) => {
                push_successors(&mut queue, block);
                proof {
                    assert forall|k: int|
                        0 <= k < queue@.len() implies reachable(
                        g,
                        entry_point,
                        #[trigger] queue@[k],
                    ) by {
                        if k < queue_mid.len() {
                            assert(queue@[k] == queue_mid[k]);
                        } else {
                            assert(successors(*block).contains(queue@[k]));
                            assert(step_edge(g, block_start, queue@[k]));
                            lemma_reachable_step(g, entry_point, block_start, queue@[k]);
                        }
                    }
                    if ceiling_ok {
                        assert forall|k: int|
                            0 <= k < queue@.len() implies g.contains_key(
                            #[trigger] queue@[k],
                        ) by {
                            if k < queue_mid.len() {
                                assert(queue@[k] == queue_mid[k]);
                            } else {
                                assert(step_edge(g, block_start, queue@[k]));
                            }
                        }
                        assert forall|v: usize, t: usize|
                            visited@.contains(v) && #[trigger] step_edge(g, v, t)
                                implies visited@.contains(t) || queue@.contains(t) by {
                            if v == block_start {
                                assert(successors(g[block_start]).contains(t));
                                assert(successors(*block).contains(t));
                                assert(queue@.contains(t));
                            } else {
                                let kv = choose|kv: int|
                                    0 <= kv < visited@.len() && visited@[kv] == v;
                                assert(kv < visited_pre.len());
                                assert(visited_pre.contains(v));
                                if visited_pre.contains(t) {
                                    let k = choose|k: int|
                                        0 <= k < visited_pre.len() && visited_pre[k] == t;
                                    assert(visited@[k] == t);
                                } else {
                                    let k = choose|k: int|
                                        0 <= k < queue_pre.len() && queue_pre[k] == t;
                                    if k < queue_pre.len() - 1 {
                                        assert(queue_mid[k] == t);
                                        assert(queue@[k] == t);
                                    } else {
                                        assert(t == block_start);
                                        assert(visited@.last() == block_start);
                                        assert(visited@.contains(t));
                                    }
                                }
                            }
                        }
                    }
                }
            },
        }
    }
    let traced = blocks.ranges_with_start_in(&visited);
    proof {
        if ceiling_ok {
            assert forall|s: usize|
                reachable(g, entry_point, s) && g.contains_key(s) implies exists|a: int|
                0 <= a < traced@.len() && #[trigger] traced@[a].0 == s by {
                let p = choose|p: Seq<usize>|
                    p.len() >= 1 && p[0] == entry_point && p.last() == s && is_path(g, p);
                assert(visited@.contains(entry_point));
                lemma_path_end_visited(g, visited@, p);
            }
        }
        if !g.contains_key(entry_point) {
            assert(traced@.len() == 0) by {
                if traced@.len() > 0 {
                    let s = traced@[0].0;
                    lemma_reachable_from_dangling(g, entry_point, s);
                }
            }
        }
        assert forall|a: int, b: int| 0 <= a < b < traced@.len() implies traced@[a]
            != traced@[b] by {
            assert(traced@[a].0 < traced@[b].0);
        }
    }
    let n = disassembled.len();
    let mut instrs: Vec<(usize, String)> = Vec::new();
    proof {
        reveal(Seq::filter);
        assert(disassembled@.subrange(0, 0).filter(covered_by(traced@)) =~= Seq::<(
            usize,
            String,
        )>::empty());
    }
    let mut i: usize = 0;
    while i < n
        invariant
            n == disassembled@.len(),
            i <= n,
            forall|i2: int, j2: int|
                0 <= i2 < j2 < disassembled@.len() ==> disassembled@[i2].0 < disassembled@[j2].0,
            instrs@ == disassembled@.subrange(0, i as int).filter(covered_by(traced@)),
            forall|a: int, b: int| 0 <= a < b < instrs@.len() ==> instrs@[a].0 < instrs@[b].0,
            forall|a: int|
                0 <= a < instrs@.len() ==> exists|j: int|
                    0 <= j < i && #[trigger] instrs@[a] == disassembled@[j],
            forall|a: int|
                0 <= a < instrs@.len() ==> in_some_block(traced@, #[trigger] instrs@[a].0),
        decreases n - i,
    {
        let p = &disassembled[i];
        let ghost pre = instrs@;
        let within = in_traced_block(&traced, p.0);
        if within {
            let off = p.0;
            let txt = p.1.clone();
            proof {
                assert((off, txt) == disassembled@[i as int]);
                assert forall|a: int| 0 <= a < pre.len() implies pre[a].0 < off by {
                    let j = choose|j: int|
                        0 <= j < i && #[trigger] pre[a] == disassembled@[j];
                }
            }
            instrs.push((off, txt));
        }
        proof {
            reveal(Seq::filter);
            let sub1 = disassembled@.subrange(0, i + 1);
            assert(sub1.drop_last() =~= disassembled@.subrange(0, i as int));
            assert(sub1.last() == disassembled@[i as int]);
            assert(covered_by(traced@)(disassembled@[i as int]) == within);
            assert(instrs@ == sub1.filter(covered_by(traced@)));
            assert forall|a: int|
                0 <= a < instrs@.len() implies exists|j: int|
                0 <= j < i + 1 && #[trigger] instrs@[a] == disassembled@[j] by {
                if a < pre.len() {
                    let j = choose|j: int| 0 <= j < i && #[trigger] pre[a] == disassembled@[j];
                    assert(instrs@[a] == disassembled@[j]);
                } else {
                    assert(instrs@[a] == disassembled@[i as int]);
                }
            }
        }
        i += 1;
    }
    proof {
        assert(disassembled@.subrange(0, n as int) =~= disassembled@);
        if !g.contains_key(entry_point) {
            assert(instrs@.len() == 0) by {
                if instrs@.len() > 0 {
                    assert(in_some_block(traced@, instrs@[0].0));
                }
            }
        }
    }
    (traced, instrs)
}

} // verus!
