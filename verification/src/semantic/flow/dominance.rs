//! Dominator trees of control flow graphs.

use vstd::prelude::*;
use rustc_hash::FxHashMap;
use std::collections::VecDeque;
use crate::semantic::flow::cfg::{block_at, has_block, BasicBlockId, ControlFlowGraph};
use crate::semantic::scope::scope::lookup_opt;

verus! {

// ---------------------------------------------------------------------------------
// Hash maps keyed by block ids.
// ---------------------------------------------------------------------------------

/// Immediate dominators, by block.
pub type IdomMap = FxHashMap<BasicBlockId, BasicBlockId>;

/// Children in the dominator tree, by block.
pub type ChildrenMap = FxHashMap<BasicBlockId, Vec<BasicBlockId>>;

/// Depths in the dominator tree, by block.
pub type DepthMap = FxHashMap<BasicBlockId, usize>;

/// Blocks seen by a traversal.
pub type VisitedMap = FxHashMap<BasicBlockId, bool>;

/// What an immediate-dominator map holds.
pub uninterp spec fn idom_entries(m: IdomMap) -> Map<BasicBlockId, BasicBlockId>;

/// What a children map holds.
pub uninterp spec fn children_entries(m: ChildrenMap) -> Map<BasicBlockId, Vec<BasicBlockId>>;

/// What a depth map holds.
pub uninterp spec fn depth_entries(m: DepthMap) -> Map<BasicBlockId, usize>;

/// What a visited map holds.
pub uninterp spec fn visited_entries(m: VisitedMap) -> Map<BasicBlockId, bool>;

/// An empty map: `FxHashMap::default`.
#[verifier::external_body]
fn idom_new() -> (r: IdomMap)
    ensures
        idom_entries(r).dom() == Set::<BasicBlockId>::empty(),
{
    FxHashMap::default()
}

/// `HashMap::insert`.
#[verifier::external_body]
fn idom_insert(m: &mut IdomMap, k: BasicBlockId, v: BasicBlockId)
    ensures
        idom_entries(*final(m)) == idom_entries(*old(m)).insert(k, v),
{
    m.insert(k, v);
}

/// `HashMap::get`, copied.
#[verifier::external_body]
fn idom_get(m: &IdomMap, k: BasicBlockId) -> (r: Option<BasicBlockId>)
    ensures
        r == lookup_opt(idom_entries(*m), k),
{
    m.get(&k).copied()
}

/// `HashMap::iter`, collected: every entry once, in the map's iteration order.
#[verifier::external_body]
fn idom_pairs(m: &IdomMap) -> (r: Vec<(BasicBlockId, BasicBlockId)>)
    ensures
        forall|i: int|
            0 <= i < r@.len() ==> idom_entries(*m).dom().contains((#[trigger] r@[i]).0)
                && idom_entries(*m)[r@[i].0] == r@[i].1,
        forall|k: BasicBlockId|
            idom_entries(*m).dom().contains(k) ==> exists|i: int| 0 <= i < r@.len() && (#[trigger] r@[i]).0 == k,
        forall|i: int, j: int| 0 <= i < j < r@.len() ==> (#[trigger] r@[i]).0 != (#[trigger] r@[j]).0,
{
    m.iter().map(|(k, v)| (*k, *v)).collect()
}

/// An empty map: `FxHashMap::default`.
#[verifier::external_body]
fn children_new() -> (r: ChildrenMap)
    ensures
        children_entries(r).dom() == Set::<BasicBlockId>::empty(),
{
    FxHashMap::default()
}

/// `HashMap::remove`: takes out the list of `k`.
#[verifier::external_body]
fn children_remove(m: &mut ChildrenMap, k: BasicBlockId) -> (r: Option<Vec<BasicBlockId>>)
    ensures
        children_entries(*final(m)) == children_entries(*old(m)).remove(k),
        r == lookup_opt(children_entries(*old(m)), k),
{
    m.remove(&k)
}

/// `HashMap::insert`.
#[verifier::external_body]
fn children_insert(m: &mut ChildrenMap, k: BasicBlockId, v: Vec<BasicBlockId>)
    ensures
        children_entries(*final(m)) == children_entries(*old(m)).insert(k, v),
{
    m.insert(k, v);
}

/// `HashMap::get`.
#[verifier::external_body]
fn children_get(m: &ChildrenMap, k: BasicBlockId) -> (r: Option<&Vec<BasicBlockId>>)
    ensures
        match r {
            Some(v) => children_entries(*m).dom().contains(k) && *v == children_entries(*m)[k],
            None => !children_entries(*m).dom().contains(k),
        },
{
    m.get(&k)
}

/// An empty map: `FxHashMap::default`.
#[verifier::external_body]
fn depth_new() -> (r: DepthMap)
    ensures
        depth_entries(r).dom() == Set::<BasicBlockId>::empty(),
{
    FxHashMap::default()
}

/// `HashMap::insert`.
#[verifier::external_body]
fn depth_insert(m: &mut DepthMap, k: BasicBlockId, v: usize)
    ensures
        depth_entries(*final(m)) == depth_entries(*old(m)).insert(k, v),
{
    m.insert(k, v);
}

/// `HashMap::get`, copied.
#[verifier::external_body]
fn depth_get(m: &DepthMap, k: BasicBlockId) -> (r: Option<usize>)
    ensures
        r == lookup_opt(depth_entries(*m), k),
{
    m.get(&k).copied()
}

/// An empty map: `FxHashMap::default`.
#[verifier::external_body]
fn visited_new() -> (r: VisitedMap)
    ensures
        visited_entries(r).dom() == Set::<BasicBlockId>::empty(),
{
    FxHashMap::default()
}

/// `HashMap::insert`.
#[verifier::external_body]
fn visited_insert(m: &mut VisitedMap, k: BasicBlockId, v: bool)
    ensures
        visited_entries(*final(m)) == visited_entries(*old(m)).insert(k, v),
{
    m.insert(k, v);
}

/// `HashMap::contains_key`.
#[verifier::external_body]
fn visited_contains(m: &VisitedMap, k: BasicBlockId) -> (r: bool)
    ensures
        r == visited_entries(*m).dom().contains(k),
{
    m.contains_key(&k)
}

// ---------------------------------------------------------------------------------
// Reachability.
// ---------------------------------------------------------------------------------

/// Successors of `b` in `blocks`; none when there is no such block.
pub open spec fn succs(blocks: Seq<crate::semantic::flow::cfg::BasicBlock>, b: BasicBlockId) -> Seq<BasicBlockId> {
    if has_block(blocks, b) {
        block_at(blocks, b).successors@
    } else {
        Seq::empty()
    }
}

/// `path` is a walk along successor edges.
pub open spec fn is_walk(blocks: Seq<crate::semantic::flow::cfg::BasicBlock>, path: Seq<BasicBlockId>) -> bool {
    forall|i: int| 0 <= i < path.len() - 1 ==> succs(blocks, #[trigger] path[i]).contains(path[i + 1])
}

/// `b` is reachable from `from` along successor edges.
pub open spec fn reachable(blocks: Seq<crate::semantic::flow::cfg::BasicBlock>, from: BasicBlockId, b: BasicBlockId) -> bool {
    exists|path: Seq<BasicBlockId>|
        path.len() > 0 && path[0] == from && path.last() == b && #[trigger] is_walk(blocks, path)
}

/// Every block reachable from the entry, other than the entry, exists.
pub open spec fn reachable_blocks_exist(cfg: ControlFlowGraph) -> bool {
    forall|b: BasicBlockId|
        #[trigger] reachable(cfg.blocks@, cfg.entry, b) && b != cfg.entry ==> has_block(cfg.blocks@, b)
}

/// The entry reaches itself.
proof fn lemma_reachable_self(blocks: Seq<crate::semantic::flow::cfg::BasicBlock>, b: BasicBlockId)
    ensures
        reachable(blocks, b, b),
{
    let path = seq![b];
    assert(is_walk(blocks, path));
}

/// A successor of a reachable block is reachable.
proof fn lemma_reachable_step(blocks: Seq<crate::semantic::flow::cfg::BasicBlock>, from: BasicBlockId, b: BasicBlockId, s: BasicBlockId)
    requires
        reachable(blocks, from, b),
        succs(blocks, b).contains(s),
    ensures
        reachable(blocks, from, s),
{
    let path = choose|path: Seq<BasicBlockId>|
        path.len() > 0 && path[0] == from && path.last() == b && #[trigger] is_walk(blocks, path);
    let p2 = path.push(s);
    assert forall|i: int| 0 <= i < p2.len() - 1 implies succs(blocks, #[trigger] p2[i]).contains(p2[i + 1]) by {
        if i < path.len() - 1 {
            assert(p2[i] == path[i] && p2[i + 1] == path[i + 1]);
        }
    }
    assert(is_walk(blocks, p2));
}

/// A set that holds `from` and is closed under successors holds every block that
/// `from` reaches.
proof fn lemma_closed_holds_reachable(blocks: Seq<crate::semantic::flow::cfg::BasicBlock>, from: BasicBlockId, s: Set<BasicBlockId>, b: BasicBlockId)
    requires
        s.contains(from),
        forall|v: BasicBlockId, w: BasicBlockId| s.contains(v) && succs(blocks, v).contains(w) ==> s.contains(w),
        reachable(blocks, from, b),
    ensures
        s.contains(b),
{
    let path = choose|path: Seq<BasicBlockId>|
        path.len() > 0 && path[0] == from && path.last() == b && #[trigger] is_walk(blocks, path);
    lemma_walk_in_set(blocks, path, s, path.len() - 1);
}

proof fn lemma_walk_in_set(blocks: Seq<crate::semantic::flow::cfg::BasicBlock>, path: Seq<BasicBlockId>, s: Set<BasicBlockId>, k: int)
    requires
        0 <= k < path.len(),
        s.contains(path[0]),
        is_walk(blocks, path),
        forall|v: BasicBlockId, w: BasicBlockId| s.contains(v) && succs(blocks, v).contains(w) ==> s.contains(w),
    ensures
        s.contains(path[k]),
    decreases k,
{
    if k > 0 {
        lemma_walk_in_set(blocks, path, s, k - 1);
        assert(succs(blocks, path[k - 1]).contains(path[k]));
    }
}

// ---------------------------------------------------------------------------------
// Dominance along paths.
// ---------------------------------------------------------------------------------

/// `path` is a walk from `from` to `b`.
pub open spec fn walk_from_to(blocks: Seq<crate::semantic::flow::cfg::BasicBlock>, path: Seq<BasicBlockId>, from: BasicBlockId, b: BasicBlockId) -> bool {
    path.len() > 0 && path[0] == from && path.last() == b && is_walk(blocks, path)
}

/// Some walk from `from` to `b` does not visit `a`.
pub open spec fn reaches_avoiding(blocks: Seq<crate::semantic::flow::cfg::BasicBlock>, from: BasicBlockId, a: BasicBlockId, b: BasicBlockId) -> bool {
    exists|path: Seq<BasicBlockId>| #[trigger] walk_from_to(blocks, path, from, b) && !path.contains(a)
}

/// `a` dominates `b`: `b` is reachable from `entry`, and every walk from `entry` to
/// `b` visits `a`.
pub open spec fn dominates_on_paths(blocks: Seq<crate::semantic::flow::cfg::BasicBlock>, entry: BasicBlockId, a: BasicBlockId, b: BasicBlockId) -> bool {
    reachable(blocks, entry, b) && !reaches_avoiding(blocks, entry, a, b)
}

/// `d` is the immediate dominator of `b`: it dominates `b`, is not `b`, and every
/// other dominator of `b` dominates it.
pub open spec fn is_immediate_dominator(blocks: Seq<crate::semantic::flow::cfg::BasicBlock>, entry: BasicBlockId, d: BasicBlockId, b: BasicBlockId) -> bool {
    &&& d != b
    &&& dominates_on_paths(blocks, entry, d, b)
    &&& forall|c: BasicBlockId| c != b && #[trigger] dominates_on_paths(blocks, entry, c, b) ==> dominates_on_paths(blocks, entry, c, d)
}

/// A prefix of a walk is a walk.
proof fn lemma_walk_prefix(blocks: Seq<crate::semantic::flow::cfg::BasicBlock>, path: Seq<BasicBlockId>, k: int)
    requires
        is_walk(blocks, path),
        0 < k <= path.len(),
    ensures
        is_walk(blocks, path.take(k)),
{
    let p = path.take(k);
    assert forall|i: int| 0 <= i < p.len() - 1 implies succs(blocks, #[trigger] p[i]).contains(p[i + 1]) by {
        assert(p[i] == path[i] && p[i + 1] == path[i + 1]);
    }
}

/// A suffix of a walk is a walk.
proof fn lemma_walk_suffix(blocks: Seq<crate::semantic::flow::cfg::BasicBlock>, path: Seq<BasicBlockId>, k: int)
    requires
        is_walk(blocks, path),
        0 <= k < path.len(),
    ensures
        is_walk(blocks, path.skip(k)),
{
    let p = path.skip(k);
    assert forall|i: int| 0 <= i < p.len() - 1 implies succs(blocks, #[trigger] p[i]).contains(p[i + 1]) by {
        assert(p[i] == path[i + k] && p[i + 1] == path[i + k + 1]);
    }
}

/// A walk ending where another starts, followed by the rest of the other, is a walk.
proof fn lemma_walk_join(blocks: Seq<crate::semantic::flow::cfg::BasicBlock>, p: Seq<BasicBlockId>, q: Seq<BasicBlockId>)
    requires
        is_walk(blocks, p),
        is_walk(blocks, q),
        p.len() > 0,
        q.len() > 0,
        p.last() == q[0],
    ensures
        is_walk(blocks, p + q.skip(1)),
        (p + q.skip(1)).len() > 0,
        (p + q.skip(1))[0] == p[0],
        (p + q.skip(1)).last() == q.last(),
        forall|x: BasicBlockId| (p + q.skip(1)).contains(x) ==> p.contains(x) || q.contains(x),
{
    let r = p + q.skip(1);
    assert forall|i: int| 0 <= i < r.len() - 1 implies succs(blocks, #[trigger] r[i]).contains(r[i + 1]) by {
        if i < p.len() - 1 {
            assert(r[i] == p[i] && r[i + 1] == p[i + 1]);
        } else if i == p.len() - 1 {
            assert(r[i] == q[0] && r[i + 1] == q[1]);
        } else {
            assert(r[i] == q[i - p.len() + 1] && r[i + 1] == q[i - p.len() + 2]);
        }
    }
    if q.len() == 1 {
        assert(r =~= p);
    } else {
        assert(r.last() == q[q.len() - 1]);
    }
    assert forall|x: BasicBlockId| r.contains(x) implies p.contains(x) || q.contains(x) by {
        let i = choose|i: int| 0 <= i < r.len() && r[i] == x;
        if i >= p.len() {
            assert(q[i - p.len() + 1] == x);
        }
    }
}

/// A block that dominates a block is reachable, and so is the block.
proof fn lemma_dominator_reachable(blocks: Seq<crate::semantic::flow::cfg::BasicBlock>, entry: BasicBlockId, a: BasicBlockId, b: BasicBlockId)
    requires
        dominates_on_paths(blocks, entry, a, b),
    ensures
        reachable(blocks, entry, a),
{
    let path = choose|path: Seq<BasicBlockId>|
        path.len() > 0 && path[0] == entry && path.last() == b && #[trigger] is_walk(blocks, path);
    if !path.contains(a) {
        assert(walk_from_to(blocks, path, entry, b));
    }
    let k = choose|k: int| 0 <= k < path.len() && path[k] == a;
    lemma_walk_prefix(blocks, path, k + 1);
    assert(path.take(k + 1).last() == a);
    assert(is_walk(blocks, path.take(k + 1)));
}

/// Every reachable block dominates itself, and the entry dominates it.
proof fn lemma_dominates_self(blocks: Seq<crate::semantic::flow::cfg::BasicBlock>, entry: BasicBlockId, b: BasicBlockId)
    requires
        reachable(blocks, entry, b),
    ensures
        dominates_on_paths(blocks, entry, b, b),
        dominates_on_paths(blocks, entry, entry, b),
{
    assert forall|path: Seq<BasicBlockId>| #[trigger] walk_from_to(blocks, path, entry, b) implies path.contains(b) && path.contains(entry) by {
        assert(path[path.len() - 1] == b);
        assert(path[0] == entry);
    }
}

/// Only the entry dominates the entry.
proof fn lemma_entry_dominators(blocks: Seq<crate::semantic::flow::cfg::BasicBlock>, entry: BasicBlockId, a: BasicBlockId)
    requires
        a != entry,
    ensures
        !dominates_on_paths(blocks, entry, a, entry),
{
    let path = seq![entry];
    assert(is_walk(blocks, path));
    assert(walk_from_to(blocks, path, entry, entry));
    assert(!path.contains(a));
}

/// Dominance is transitive.
proof fn lemma_dominates_trans(blocks: Seq<crate::semantic::flow::cfg::BasicBlock>, entry: BasicBlockId, a: BasicBlockId, c: BasicBlockId, b: BasicBlockId)
    requires
        dominates_on_paths(blocks, entry, a, c),
        dominates_on_paths(blocks, entry, c, b),
    ensures
        dominates_on_paths(blocks, entry, a, b),
{
    if reaches_avoiding(blocks, entry, a, b) {
        let path = choose|path: Seq<BasicBlockId>| #[trigger] walk_from_to(blocks, path, entry, b) && !path.contains(a);
        if !path.contains(c) {
            assert(walk_from_to(blocks, path, entry, b) && !path.contains(c));
        }
        let k = choose|k: int| 0 <= k < path.len() && path[k] == c;
        lemma_walk_prefix(blocks, path, k + 1);
        let pre = path.take(k + 1);
        assert(pre.last() == c);
        assert(!pre.contains(a)) by {
            if pre.contains(a) {
                let j = choose|j: int| 0 <= j < pre.len() && pre[j] == a;
                assert(path[j] == a);
            }
        }
        assert(walk_from_to(blocks, pre, entry, c));
    }
}

/// Two blocks that dominate each other are the same block.
proof fn lemma_dominates_antisym(blocks: Seq<crate::semantic::flow::cfg::BasicBlock>, entry: BasicBlockId, a: BasicBlockId, c: BasicBlockId)
    requires
        dominates_on_paths(blocks, entry, a, c),
        dominates_on_paths(blocks, entry, c, a),
    ensures
        a == c,
{
    if a != c {
        let path = choose|path: Seq<BasicBlockId>|
            path.len() > 0 && path[0] == entry && path.last() == a && #[trigger] is_walk(blocks, path);
        let i = lemma_first_index(path, a);
        lemma_walk_prefix(blocks, path, i + 1);
        let pre = path.take(i + 1);
        assert(walk_from_to(blocks, pre, entry, a));
        if !pre.contains(c) {
            assert(reaches_avoiding(blocks, entry, c, a));
        }
        let j = choose|j: int| 0 <= j < pre.len() && pre[j] == c;
        assert(j < i);
        lemma_walk_prefix(blocks, pre, j + 1);
        let pre2 = pre.take(j + 1);
        assert(pre2.last() == c);
        assert(!pre2.contains(a)) by {
            if pre2.contains(a) {
                let m = choose|m: int| 0 <= m < pre2.len() && pre2[m] == a;
                assert(path[m] == a);
            }
        }
        assert(walk_from_to(blocks, pre2, entry, c));
    }
}

/// The first index of `x` in `s`.
proof fn lemma_first_index(s: Seq<BasicBlockId>, x: BasicBlockId) -> (i: int)
    requires
        s.contains(x),
    ensures
        0 <= i < s.len(),
        s[i] == x,
        forall|j: int| 0 <= j < i ==> s[j] != x,
    decreases s.len(),
{
    if s[0] == x {
        0
    } else {
        let t = s.skip(1);
        assert(t.contains(x)) by {
            let k = choose|k: int| 0 <= k < s.len() && s[k] == x;
            assert(t[k - 1] == x);
        }
        let i = lemma_first_index(t, x);
        assert forall|j: int| 0 <= j < i + 1 implies s[j] != x by {
            if j > 0 {
                assert(s[j] == t[j - 1]);
            }
        }
        i + 1
    }
}

/// The last index of `x` in `s`.
proof fn lemma_last_index(s: Seq<BasicBlockId>, x: BasicBlockId) -> (i: int)
    requires
        s.contains(x),
    ensures
        0 <= i < s.len(),
        s[i] == x,
        forall|j: int| i < j < s.len() ==> s[j] != x,
    decreases s.len(),
{
    if s.last() == x {
        s.len() - 1
    } else {
        let t = s.drop_last();
        assert(t.contains(x)) by {
            let k = choose|k: int| 0 <= k < s.len() && s[k] == x;
            assert(t[k] == x);
        }
        let i = lemma_last_index(t, x);
        assert forall|j: int| i < j < s.len() implies s[j] != x by {
            if j < s.len() - 1 {
                assert(s[j] == t[j]);
            }
        }
        i
    }
}

/// The dominators of a block form a chain: of two blocks other than `b` that both
/// dominate `b`, one dominates the other.
proof fn lemma_dominators_chain(blocks: Seq<crate::semantic::flow::cfg::BasicBlock>, entry: BasicBlockId, a: BasicBlockId, c: BasicBlockId, b: BasicBlockId)
    requires
        dominates_on_paths(blocks, entry, a, b),
        dominates_on_paths(blocks, entry, c, b),
        a != b,
        c != b,
    ensures
        dominates_on_paths(blocks, entry, a, c) || dominates_on_paths(blocks, entry, c, a),
{
    lemma_dominator_reachable(blocks, entry, c, b);
    lemma_dominator_reachable(blocks, entry, a, b);
    if !dominates_on_paths(blocks, entry, a, c) && a != c {
        // A walk to `c` that misses `a`.
        let q = choose|path: Seq<BasicBlockId>| #[trigger] walk_from_to(blocks, path, entry, c) && !path.contains(a);
        // A walk to `b`, and its part after the last visit to `c`.
        let p = choose|path: Seq<BasicBlockId>|
            path.len() > 0 && path[0] == entry && path.last() == b && #[trigger] is_walk(blocks, path);
        assert(walk_from_to(blocks, p, entry, b));
        if !p.contains(c) {
            assert(reaches_avoiding(blocks, entry, c, b));
        }
        let j = lemma_last_index(p, c);
        lemma_walk_suffix(blocks, p, j);
        let sfx = p.skip(j);
        assert(sfx[0] == c);
        assert(sfx.last() == b);
        if !sfx.contains(a) {
            lemma_walk_join(blocks, q, sfx);
            let w = q + sfx.skip(1);
            assert(!w.contains(a)) by {
                if w.contains(a) {
                    if sfx.contains(a) {
                    }
                }
            }
            assert(walk_from_to(blocks, w, entry, b));
            assert(false);
        }
        // `a` comes after the last visit to `c`: from there on the walk misses `c`.
        let k = choose|k: int| 0 <= k < sfx.len() && sfx[k] == a;
        lemma_walk_suffix(blocks, sfx, k);
        let tail = sfx.skip(k);
        assert(!tail.contains(c)) by {
            if tail.contains(c) {
                let m = choose|m: int| 0 <= m < tail.len() && tail[m] == c;
                assert(p[j + k + m] == c);
                assert(k + m > 0);
            }
        }
        assert(tail[0] == a);
        assert(tail.last() == b);
        if reaches_avoiding(blocks, entry, c, a) {
            let r = choose|path: Seq<BasicBlockId>| #[trigger] walk_from_to(blocks, path, entry, a) && !path.contains(c);
            lemma_walk_join(blocks, r, tail);
            let w = r + tail.skip(1);
            assert(walk_from_to(blocks, w, entry, b));
            assert(!w.contains(c));
            assert(false);
        }
        assert(dominates_on_paths(blocks, entry, c, a));
    }
}

/// One step further along a walk that misses `a`, to a block other than `a`.
proof fn lemma_avoiding_step(blocks: Seq<crate::semantic::flow::cfg::BasicBlock>, entry: BasicBlockId, a: BasicBlockId, v: BasicBlockId, w: BasicBlockId)
    requires
        reaches_avoiding(blocks, entry, a, v),
        succs(blocks, v).contains(w),
        w != a,
    ensures
        reaches_avoiding(blocks, entry, a, w),
{
    let p = choose|path: Seq<BasicBlockId>| #[trigger] walk_from_to(blocks, path, entry, v) && !path.contains(a);
    let q = p.push(w);
    assert forall|i: int| 0 <= i < q.len() - 1 implies succs(blocks, #[trigger] q[i]).contains(q[i + 1]) by {
        if i < p.len() - 1 {
            assert(q[i] == p[i] && q[i + 1] == p[i + 1]);
        } else {
            assert(q[i] == v);
        }
    }
    assert(!q.contains(a)) by {
        if q.contains(a) {
            let k = choose|k: int| 0 <= k < q.len() && q[k] == a;
            if k < p.len() {
                assert(p[k] == a);
            }
        }
    }
    assert(walk_from_to(blocks, q, entry, w));
}

/// A set that holds the entry (when it is not `a`) and, with each block, each of its
/// successors other than `a`, holds every block reached by a walk that misses `a`.
proof fn lemma_avoiding_closed(blocks: Seq<crate::semantic::flow::cfg::BasicBlock>, entry: BasicBlockId, a: BasicBlockId, seen: Set<BasicBlockId>, b: BasicBlockId)
    requires
        entry != a ==> seen.contains(entry),
        forall|v: BasicBlockId, w: BasicBlockId| #[trigger] seen.contains(v) && #[trigger] succs(blocks, v).contains(w) && w != a ==> seen.contains(w),
        reaches_avoiding(blocks, entry, a, b),
    ensures
        seen.contains(b),
{
    let p = choose|path: Seq<BasicBlockId>| #[trigger] walk_from_to(blocks, path, entry, b) && !path.contains(a);
    assert(p[0] != a);
    lemma_avoiding_walk_in(blocks, entry, a, seen, p, p.len() - 1);
}

proof fn lemma_avoiding_walk_in(blocks: Seq<crate::semantic::flow::cfg::BasicBlock>, entry: BasicBlockId, a: BasicBlockId, seen: Set<BasicBlockId>, p: Seq<BasicBlockId>, k: int)
    requires
        entry != a ==> seen.contains(entry),
        forall|v: BasicBlockId, w: BasicBlockId| #[trigger] seen.contains(v) && #[trigger] succs(blocks, v).contains(w) && w != a ==> seen.contains(w),
        walk_from_to(blocks, p, entry, p.last()),
        !p.contains(a),
        0 <= k < p.len(),
    ensures
        seen.contains(p[k]),
    decreases k,
{
    if k > 0 {
        lemma_avoiding_walk_in(blocks, entry, a, seen, p, k - 1);
        assert(succs(blocks, p[k - 1]).contains(p[k]));
        assert(p[k] != a);
    } else {
        assert(p[0] != a);
    }
}

/// The blocks reached from the entry by walks that miss `avoid`.
fn reach_avoiding(cfg: &ControlFlowGraph, avoid: BasicBlockId) -> (r: VisitedMap)
    ensures
        forall|b: BasicBlockId| visited_entries(r).dom().contains(b) <==> reaches_avoiding(cfg.blocks@, cfg.entry, avoid, b),
{
    let ghost blocks = cfg.blocks@;
    let ghost entry = cfg.entry;
    let ghost ids = all_block_ids();
    let mut seen = visited_new();
    let mut stack: Vec<BasicBlockId> = Vec::new();
    if cfg.entry != avoid {
        visited_insert(&mut seen, cfg.entry, true);
        stack.push(cfg.entry);
        proof {
            let path = seq![entry];
            assert(is_walk(blocks, path));
            assert(walk_from_to(blocks, path, entry, entry));
            assert(!path.contains(avoid));
        }
    }
    while stack.len() > 0
        invariant
            blocks == cfg.blocks@,
            entry == cfg.entry,
            ids == all_block_ids(),
            forall|v: BasicBlockId| #[trigger] visited_entries(seen).dom().contains(v) ==> reaches_avoiding(blocks, entry, avoid, v),
            forall|i: int| 0 <= i < stack@.len() ==> visited_entries(seen).dom().contains(#[trigger] stack@[i]),
            forall|v: BasicBlockId, w: BasicBlockId|
                #[trigger] visited_entries(seen).dom().contains(v) && #[trigger] succs(blocks, v).contains(w) && w != avoid
                    ==> visited_entries(seen).dom().contains(w) || stack@.contains(v),
            entry != avoid ==> visited_entries(seen).dom().contains(entry),
        decreases count_missing(visited_entries(seen).dom(), ids), stack@.len(),
    {
        let ghost s0 = stack@;
        let ghost m0 = visited_entries(seen).dom();
        let v = stack.pop().unwrap();
        proof {
            assert(s0 == stack@.push(v));
            assert(m0.contains(v)) by {
                assert(s0[s0.len() - 1] == v);
            }
        }
        let ghost popped = stack@;
        match cfg.get_block(v) {
            Some(bb) => {
                let succ = &bb.successors;
                proof {
                    assert(succ@ == succs(blocks, v));
                }
                let mut k: usize = 0;
                while k < succ.len()
                    invariant
                        blocks == cfg.blocks@,
                        entry == cfg.entry,
                        ids == all_block_ids(),
                        succ@ == succs(blocks, v),
                        k <= succ@.len(),
                        m0.subset_of(visited_entries(seen).dom()),
                        m0.contains(v),
                        stack@.len() >= popped.len(),
                        stack@.take(popped.len() as int) == popped,
                        s0 == popped.push(v),
                        count_missing(visited_entries(seen).dom(), ids) <= count_missing(m0, ids),
                        stack@.len() > popped.len() ==> count_missing(visited_entries(seen).dom(), ids) < count_missing(m0, ids),
                        forall|x: BasicBlockId| #[trigger] visited_entries(seen).dom().contains(x) ==> reaches_avoiding(blocks, entry, avoid, x),
                        forall|i: int| 0 <= i < stack@.len() ==> visited_entries(seen).dom().contains(#[trigger] stack@[i]),
                        forall|j: int| 0 <= j < k && succ@[j] != avoid ==> visited_entries(seen).dom().contains(#[trigger] succ@[j]),
                        forall|x: BasicBlockId| #[trigger] visited_entries(seen).dom().contains(x) && !m0.contains(x) ==> stack@.contains(x),
                    decreases succ@.len() - k,
                {
                    let w = succ[k];
                    if w != avoid && !visited_contains(&seen, w) {
                        let ghost m1 = visited_entries(seen).dom();
                        proof {
                            lemma_avoiding_step(blocks, entry, avoid, v, w);
                            lemma_all_block_ids_has(w);
                            lemma_count_missing_insert(m1, ids, w);
                        }
                        let ghost st1 = stack@;
                        visited_insert(&mut seen, w, true);
                        stack.push(w);
                        proof {
                            assert(stack@.take(popped.len() as int) =~= st1.take(popped.len() as int));
                            assert forall|x: BasicBlockId| #[trigger] visited_entries(seen).dom().contains(x) && !m0.contains(x) implies stack@.contains(x) by {
                                if x == w {
                                    assert(stack@[stack@.len() - 1] == w);
                                } else {
                                    assert(m1.contains(x));
                                    let i = choose|i: int| 0 <= i < st1.len() && st1[i] == x;
                                    assert(stack@[i] == x);
                                }
                            }
                        }
                    }
                    k = k + 1;
                }
            },
            None => {},
        }
        proof {
            let m2 = visited_entries(seen).dom();
            assert forall|x: BasicBlockId, y: BasicBlockId|
                #[trigger] m2.contains(x) && #[trigger] succs(blocks, x).contains(y) && y != avoid implies m2.contains(y) || stack@.contains(x) by {
                if x == v {
                    let j = choose|j: int| 0 <= j < succs(blocks, v).len() && succs(blocks, v)[j] == y;
                } else if m0.contains(x) {
                    if !m0.contains(y) {
                        assert(s0.contains(x));
                        let i = choose|i: int| 0 <= i < s0.len() && s0[i] == x;
                        assert(i < popped.len());
                        assert(stack@.take(popped.len() as int)[i] == popped[i]);
                        assert(stack@[i] == x);
                    }
                } else {
                    assert(stack@.contains(x));
                }
            }
        }
    }
    proof {
        let m = visited_entries(seen).dom();
        assert forall|b: BasicBlockId| reaches_avoiding(blocks, entry, avoid, b) implies m.contains(b) by {
            lemma_avoiding_closed(blocks, entry, avoid, m, b);
        }
    }
    seen
}

/// Whether the block at `i` of `reach` dominates `b`, given for each block of `reach`
/// the blocks reached by walks that miss it.
fn dominates_at(avoiding: &Vec<VisitedMap>, reach: &Vec<BasicBlockId>, i: usize, b: BasicBlockId, cfg: &ControlFlowGraph) -> (r: bool)
    requires
        i < reach@.len(),
        avoiding@.len() == reach@.len(),
        reachable(cfg.blocks@, cfg.entry, b),
        forall|k: int, x: BasicBlockId|
            0 <= k < reach@.len() ==> (#[trigger] visited_entries(avoiding@[k]).dom().contains(x)
                <==> reaches_avoiding(cfg.blocks@, cfg.entry, reach@[k], x)),
    ensures
        r == dominates_on_paths(cfg.blocks@, cfg.entry, reach@[i as int], b),
{
    !visited_contains(&avoiding[i], b)
}

/// The immediate dominator of each block that `reach` lists, `reach` being the blocks
/// reachable from the entry; the entry is its own.
fn immediate_dominators(cfg: &ControlFlowGraph, reach: &Vec<BasicBlockId>) -> (r: IdomMap)
    requires
        forall|b: BasicBlockId| reach@.contains(b) <==> reachable(cfg.blocks@, cfg.entry, b),
    ensures
        forall|b: BasicBlockId| #[trigger] idom_entries(r).dom().contains(b) <==> reachable(cfg.blocks@, cfg.entry, b),
        idom_entries(r)[cfg.entry] == cfg.entry,
        forall|b: BasicBlockId|
            #[trigger] reachable(cfg.blocks@, cfg.entry, b) && b != cfg.entry ==> is_immediate_dominator(
                cfg.blocks@,
                cfg.entry,
                idom_entries(r)[b],
                b,
            ),
{
    let ghost blocks = cfg.blocks@;
    let entry = cfg.entry;
    proof {
        lemma_reachable_self(blocks, entry);
    }
    let mut avoiding: Vec<VisitedMap> = Vec::new();
    let mut i: usize = 0;
    let mut entry_at: usize = 0;
    while i < reach.len()
        invariant
            blocks == cfg.blocks@,
            entry == cfg.entry,
            i <= reach@.len(),
            avoiding@.len() == i,
            forall|k: int, x: BasicBlockId|
                0 <= k < i ==> (#[trigger] visited_entries(avoiding@[k]).dom().contains(x)
                    <==> reaches_avoiding(blocks, entry, reach@[k], x)),
            (exists|k: int| 0 <= k < i && reach@[k] == entry) ==> entry_at < i && reach@[entry_at as int] == entry,
        decreases reach@.len() - i,
    {
        let m = reach_avoiding(cfg, reach[i]);
        if reach[i] == entry {
            entry_at = i;
        }
        avoiding.push(m);
        proof {
            assert forall|k: int, x: BasicBlockId|
                0 <= k < i + 1 implies (#[trigger] visited_entries(avoiding@[k]).dom().contains(x)
                    <==> reaches_avoiding(blocks, entry, reach@[k], x)) by {
            }
        }
        i = i + 1;
    }
    proof {
        assert(reach@.contains(entry));
        let k = choose|k: int| 0 <= k < reach@.len() && reach@[k] == entry;
        assert(exists|k: int| 0 <= k < reach@.len() && reach@[k] == entry);
    }
    let mut idom = idom_new();
    idom_insert(&mut idom, entry, entry);
    let mut j: usize = 0;
    while j < reach.len()
        invariant
            blocks == cfg.blocks@,
            entry == cfg.entry,
            j <= reach@.len(),
            avoiding@.len() == reach@.len(),
            entry_at < reach@.len(),
            reach@[entry_at as int] == entry,
            forall|b: BasicBlockId| reach@.contains(b) <==> reachable(blocks, entry, b),
            forall|k: int, x: BasicBlockId|
                0 <= k < reach@.len() ==> (#[trigger] visited_entries(avoiding@[k]).dom().contains(x)
                    <==> reaches_avoiding(blocks, entry, reach@[k], x)),
            idom_entries(idom).dom().contains(entry),
            idom_entries(idom)[entry] == entry,
            forall|b: BasicBlockId| #[trigger] idom_entries(idom).dom().contains(b) ==> b == entry || exists|k: int| 0 <= k < j && reach@[k] == b,
            forall|k: int| 0 <= k < j ==> idom_entries(idom).dom().contains(#[trigger] reach@[k]),
            forall|b: BasicBlockId|
                #[trigger] idom_entries(idom).dom().contains(b) && b != entry ==> is_immediate_dominator(blocks, entry, idom_entries(idom)[b], b),
        decreases reach@.len() - j,
    {
        let b = reach[j];
        proof {
            assert(reach@.contains(b));
        }
        if b != entry {
            proof {
                lemma_dominates_self(blocks, entry, b);
            }
            let mut best = entry;
            let mut best_at = entry_at;
            let mut i: usize = 0;
            while i < reach.len()
                invariant
                    blocks == cfg.blocks@,
                    entry == cfg.entry,
                    b != entry,
                    reachable(blocks, entry, b),
                    i <= reach@.len(),
                    avoiding@.len() == reach@.len(),
                    forall|k: int, x: BasicBlockId|
                        0 <= k < reach@.len() ==> (#[trigger] visited_entries(avoiding@[k]).dom().contains(x)
                            <==> reaches_avoiding(blocks, entry, reach@[k], x)),
                    best_at < reach@.len(),
                    reach@[best_at as int] == best,
                    best != b,
                    dominates_on_paths(blocks, entry, best, b),
                    forall|k: int|
                        0 <= k < i && reach@[k] != b && #[trigger] dominates_on_paths(blocks, entry, reach@[k], b)
                            ==> dominates_on_paths(blocks, entry, reach@[k], best),
                decreases reach@.len() - i,
            {
                let c = reach[i];
                if c != b && dominates_at(&avoiding, reach, i, b, cfg) {
                    proof {
                        lemma_dominator_reachable(blocks, entry, c, b);
                        lemma_dominator_reachable(blocks, entry, best, b);
                    }
                    if dominates_at(&avoiding, reach, best_at, c, cfg) {
                        proof {
                            lemma_dominates_self(blocks, entry, c);
                            assert forall|k: int|
                                0 <= k < i + 1 && reach@[k] != b && #[trigger] dominates_on_paths(blocks, entry, reach@[k], b)
                                    implies dominates_on_paths(blocks, entry, reach@[k], c) by {
                                if k < i {
                                    lemma_dominates_trans(blocks, entry, reach@[k], best, c);
                                }
                            }
                        }
                        best = c;
                        best_at = i;
                    } else {
                        proof {
                            lemma_dominators_chain(blocks, entry, best, c, b);
                        }
                    }
                }
                i = i + 1;
            }
            proof {
                assert forall|c: BasicBlockId| c != b && #[trigger] dominates_on_paths(blocks, entry, c, b)
                    implies dominates_on_paths(blocks, entry, c, best) by {
                    lemma_dominator_reachable(blocks, entry, c, b);
                    assert(reach@.contains(c));
                    let k = choose|k: int| 0 <= k < reach@.len() && reach@[k] == c;
                    assert(dominates_on_paths(blocks, entry, reach@[k], b));
                }
                assert(is_immediate_dominator(blocks, entry, best, b));
            }
            idom_insert(&mut idom, b, best);
        }
        proof {
            assert forall|x: BasicBlockId| #[trigger] idom_entries(idom).dom().contains(x) implies x == entry || exists|k: int| 0 <= k < j + 1 && reach@[k] == x by {
                if x == b {
                    assert(reach@[j as int] == x);
                }
            }
        }
        j = j + 1;
    }
    proof {
        assert forall|b: BasicBlockId| #[trigger] idom_entries(idom).dom().contains(b) <==> reachable(blocks, entry, b) by {
            if idom_entries(idom).dom().contains(b) && b != entry {
                let k = choose|k: int| 0 <= k < reach@.len() && reach@[k] == b;
                assert(reach@.contains(b));
            }
            if reachable(blocks, entry, b) {
                assert(reach@.contains(b));
                let k = choose|k: int| 0 <= k < reach@.len() && reach@[k] == b;
                assert(idom_entries(idom).dom().contains(reach@[k]));
            }
        }
    }
    idom
}

// ---------------------------------------------------------------------------------
// Postorder traversal.
// ---------------------------------------------------------------------------------

/// Block ids `0..n`, then `extra`.
spec fn universe(n: nat, extra: BasicBlockId) -> Seq<BasicBlockId> {
    Seq::new(n, |i: int| BasicBlockId(i as u32)).push(extra)
}

/// Number of entries of `ids` that `seen` lacks.
spec fn count_missing(seen: Set<BasicBlockId>, ids: Seq<BasicBlockId>) -> nat
    decreases ids.len(),
{
    if ids.len() == 0 {
        0
    } else {
        count_missing(seen, ids.drop_last()) + if seen.contains(ids.last()) { 0nat } else { 1nat }
    }
}

proof fn lemma_count_missing_insert(seen: Set<BasicBlockId>, ids: Seq<BasicBlockId>, b: BasicBlockId)
    ensures
        count_missing(seen.insert(b), ids) <= count_missing(seen, ids),
        ids.contains(b) && !seen.contains(b) ==> count_missing(seen.insert(b), ids) < count_missing(seen, ids),
    decreases ids.len(),
{
    if ids.len() > 0 {
        lemma_count_missing_insert(seen, ids.drop_last(), b);
        if ids.contains(b) && !seen.contains(b) && ids.last() != b {
            let k = choose|k: int| 0 <= k < ids.len() && ids[k] == b;
            assert(ids.drop_last()[k] == b);
        }
    }
}

proof fn lemma_universe_has(n: nat, extra: BasicBlockId, b: BasicBlockId)
    requires
        b.0 < n || b == extra,
    ensures
        universe(n, extra).contains(b),
{
    let u = universe(n, extra);
    if b == extra {
        assert(u[n as int] == b);
    } else {
        assert(u[b.0 as int] == BasicBlockId(b.0 as int as u32));
        assert(u[b.0 as int] == b);
    }
}

/// The blocks reachable from the entry, each once, in depth-first postorder.
fn postorder_traversal(cfg: &ControlFlowGraph) -> (r: Vec<BasicBlockId>)
    requires
        reachable_blocks_exist(*cfg),
    ensures
        r@.no_duplicates(),
        forall|b: BasicBlockId| r@.contains(b) <==> reachable(cfg.blocks@, cfg.entry, b),
{
    let ghost blocks = cfg.blocks@;
    let ghost entry = cfg.entry;
    let ghost uni = universe(blocks.len(), entry);
    let mut visited = visited_new();
    let mut stack: Vec<(BasicBlockId, bool)> = Vec::new();
    let mut result: Vec<BasicBlockId> = Vec::new();
    stack.push((cfg.entry, false));
    proof {
        lemma_reachable_self(blocks, entry);
        assert(stack@[0] == (entry, false));
    }
    while stack.len() > 0
        invariant
            blocks == cfg.blocks@,
            entry == cfg.entry,
            uni == universe(blocks.len(), entry),
            reachable_blocks_exist(*cfg),
            forall|v: BasicBlockId| #[trigger] visited_entries(visited).dom().contains(v) ==> reachable(blocks, entry, v),
            forall|i: int| 0 <= i < stack@.len() ==> reachable(blocks, entry, (#[trigger] stack@[i]).0),
            visited_entries(visited).dom().contains(entry) || (exists|i: int| 0 <= i < stack@.len() && #[trigger] stack@[i] == (entry, false)),
            forall|i: int| 0 <= i < result@.len() ==> visited_entries(visited).dom().contains(#[trigger] result@[i]),
            result@.no_duplicates(),
            forall|v: BasicBlockId, w: BasicBlockId|
                #[trigger] visited_entries(visited).dom().contains(v) && #[trigger] succs(blocks, v).contains(w)
                    ==> visited_entries(visited).dom().contains(w) || (exists|i: int| 0 <= i < stack@.len() && #[trigger] stack@[i] == (w, false)),
            forall|v: BasicBlockId|
                #[trigger] visited_entries(visited).dom().contains(v) ==> result@.contains(v) || (exists|i: int| 0 <= i < stack@.len() && #[trigger] stack@[i] == (v, true)),
            forall|i: int|
                0 <= i < stack@.len() && (#[trigger] stack@[i]).1 ==> visited_entries(visited).dom().contains(stack@[i].0) && !result@.contains(stack@[i].0),
            forall|i: int, j: int|
                0 <= i < j < stack@.len() && (#[trigger] stack@[i]).1 && (#[trigger] stack@[j]).1 ==> stack@[i].0 != stack@[j].0,
        decreases count_missing(visited_entries(visited).dom(), uni), stack@.len(),
    {
        let ghost v0 = visited_entries(visited).dom();
        let ghost s0 = stack@;
        let ghost r0 = result@;
        let (node, processed) = stack.pop().unwrap();
        assert(s0 == stack@.push((node, processed)));
        assert(forall|i: int| 0 <= i < stack@.len() ==> stack@[i] == s0[i]);
        if processed {
            result.push(node);
            proof {
                assert(s0[s0.len() - 1] == (node, true));
                assert forall|i: int| 0 <= i < stack@.len() && (#[trigger] stack@[i]).1 implies visited_entries(visited).dom().contains(stack@[i].0) && !result@.contains(stack@[i].0) by {
                    assert(s0[i] == stack@[i]);
                    assert(stack@[i].0 != node);
                    if result@.contains(stack@[i].0) {
                        let k = choose|k: int| 0 <= k < result@.len() && result@[k] == stack@[i].0;
                        if k < r0.len() {
                            assert(r0[k] == stack@[i].0);
                        }
                    }
                }
                assert forall|v: BasicBlockId| #[trigger] visited_entries(visited).dom().contains(v) implies result@.contains(v) || (exists|i: int| 0 <= i < stack@.len() && #[trigger] stack@[i] == (v, true)) by {
                    if v == node {
                        assert(result@[result@.len() - 1] == v);
                    } else if r0.contains(v) {
                        let k = choose|k: int| 0 <= k < r0.len() && r0[k] == v;
                        assert(result@[k] == v);
                    } else {
                        let i = choose|i: int| 0 <= i < s0.len() && #[trigger] s0[i] == (v, true);
                        assert(i < stack@.len());
                        assert(stack@[i] == (v, true));
                    }
                }
                assert forall|v: BasicBlockId, w: BasicBlockId|
                    #[trigger] visited_entries(visited).dom().contains(v) && #[trigger] succs(blocks, v).contains(w)
                    implies visited_entries(visited).dom().contains(w) || (exists|i: int| 0 <= i < stack@.len() && #[trigger] stack@[i] == (w, false)) by {
                    if !visited_entries(visited).dom().contains(w) {
                        let i = choose|i: int| 0 <= i < s0.len() && #[trigger] s0[i] == (w, false);
                        assert(i < stack@.len());
                        assert(stack@[i] == (w, false));
                    }
                }
                if !visited_entries(visited).dom().contains(entry) {
                    let i = choose|i: int| 0 <= i < s0.len() && #[trigger] s0[i] == (entry, false);
                    assert(i < stack@.len());
                    assert(stack@[i] == (entry, false));
                }
                assert forall|i: int| 0 <= i < result@.len() implies visited_entries(visited).dom().contains(#[trigger] result@[i]) by {
                    if i < r0.len() {
                        assert(result@[i] == r0[i]);
                    }
                }
            }
            continue;
        }
        if visited_contains(&visited, node) {
            proof {
                assert forall|v: BasicBlockId, w: BasicBlockId|
                    #[trigger] visited_entries(visited).dom().contains(v) && #[trigger] succs(blocks, v).contains(w)
                    implies visited_entries(visited).dom().contains(w) || (exists|i: int| 0 <= i < stack@.len() && #[trigger] stack@[i] == (w, false)) by {
                    if !visited_entries(visited).dom().contains(w) {
                        let i = choose|i: int| 0 <= i < s0.len() && #[trigger] s0[i] == (w, false);
                        assert(i < stack@.len());
                        assert(stack@[i] == (w, false));
                    }
                }
                assert forall|v: BasicBlockId| #[trigger] visited_entries(visited).dom().contains(v) implies result@.contains(v) || (exists|i: int| 0 <= i < stack@.len() && #[trigger] stack@[i] == (v, true)) by {
                    if !result@.contains(v) {
                        let i = choose|i: int| 0 <= i < s0.len() && #[trigger] s0[i] == (v, true);
                        assert(i < stack@.len());
                        assert(stack@[i] == (v, true));
                    }
                }
                if !visited_entries(visited).dom().contains(entry) {
                    let i = choose|i: int| 0 <= i < s0.len() && #[trigger] s0[i] == (entry, false);
                    assert(i < stack@.len());
                    assert(stack@[i] == (entry, false));
                }
            }
            continue;
        }
        proof {
            assert(reachable(blocks, entry, node)) by {
                assert(s0[s0.len() - 1] == (node, false));
            }
            lemma_universe_has(blocks.len(), entry, node);
            lemma_count_missing_insert(v0, uni, node);
        }
        visited_insert(&mut visited, node, true);
        stack.push((node, true));
        let ghost s1 = stack@;
        let ghost vis1 = visited_entries(visited).dom();
        assert(forall|i: int| 0 <= i < s0.len() - 1 ==> s1[i] == s0[i]);
        assert(s1[s1.len() - 1] == (node, true));
        if let Some(block) = cfg.get_block(node) {
            let n = block.successors.len();
            let mut k: usize = n;
            while k > 0
                invariant
                    n == block.successors@.len(),
                    k <= n,
                    visited_entries(visited).dom() == vis1,
                    block == block_at(blocks, node),
                    has_block(blocks, node),
                    stack@.len() >= s1.len(),
                    forall|i: int| 0 <= i < s1.len() ==> stack@[i] == s1[i],
                    forall|i: int| s1.len() <= i < stack@.len() ==> !(#[trigger] stack@[i]).1 && succs(blocks, node).contains(stack@[i].0),
                    forall|j: int| k <= j < n ==> visited_entries(visited).dom().contains(#[trigger] block.successors@[j]) || (exists|i: int| s1.len() <= i < stack@.len() && #[trigger] stack@[i] == (block.successors@[j], false)),
                decreases k,
            {
                k = k - 1;
                let ghost st = stack@;
                let succ = block.successors[k];
                if !visited_contains(&visited, succ) {
                    stack.push((succ, false));
                    proof {
                        assert(stack@[stack@.len() - 1] == (succ, false));
                    }
                }
                proof {
                    assert forall|j: int| k <= j < n implies visited_entries(visited).dom().contains(#[trigger] block.successors@[j]) || (exists|i: int| s1.len() <= i < stack@.len() && #[trigger] stack@[i] == (block.successors@[j], false)) by {
                        if j > k && !visited_entries(visited).dom().contains(block.successors@[j]) {
                            let i = choose|i: int| s1.len() <= i < st.len() && #[trigger] st[i] == (block.successors@[j], false);
                            assert(stack@[i] == st[i]);
                        }
                    }
                }
            }
        }
        proof {
            let v1 = visited_entries(visited).dom();
            assert(v1 == v0.insert(node));
            assert forall|i: int| 0 <= i < stack@.len() implies reachable(blocks, entry, (#[trigger] stack@[i]).0) by {
                if i >= s1.len() {
                    lemma_reachable_step(blocks, entry, node, stack@[i].0);
                } else if i < s0.len() - 1 {
                    assert(stack@[i] == s1[i]);
                    assert(stack@[i] == s0[i]);
                } else {
                    assert(stack@[i] == s1[i]);
                }
            }
            assert forall|v: BasicBlockId, w: BasicBlockId|
                #[trigger] v1.contains(v) && #[trigger] succs(blocks, v).contains(w)
                implies v1.contains(w) || (exists|i: int| 0 <= i < stack@.len() && #[trigger] stack@[i] == (w, false)) by {
                if !v1.contains(w) {
                    if v == node {
                        let j = choose|j: int| 0 <= j < succs(blocks, node).len() && succs(blocks, node)[j] == w;
                        assert(has_block(blocks, node));
                        assert(block_at(blocks, node).successors@[j] == w);
                    } else {
                        let i = choose|i: int| 0 <= i < s0.len() && #[trigger] s0[i] == (w, false);
                        assert(i < s0.len() - 1);
                        assert(stack@[i] == (w, false));
                    }
                }
            }
            assert forall|v: BasicBlockId| #[trigger] v1.contains(v) implies result@.contains(v) || (exists|i: int| 0 <= i < stack@.len() && #[trigger] stack@[i] == (v, true)) by {
                if v == node {
                    assert(stack@[s1.len() - 1] == (node, true));
                } else if !result@.contains(v) {
                    let i = choose|i: int| 0 <= i < s0.len() && #[trigger] s0[i] == (v, true);
                    assert(i < s0.len() - 1);
                    assert(stack@[i] == (v, true));
                }
            }
            assert forall|i: int| 0 <= i < stack@.len() && (#[trigger] stack@[i]).1 implies v1.contains(stack@[i].0) && !result@.contains(stack@[i].0) by {
                if i < s0.len() - 1 {
                    assert(stack@[i] == s0[i]);
                } else {
                    assert(i == s1.len() - 1);
                    assert(stack@[i] == (node, true));
                }
            }
            assert forall|i: int, j: int| 0 <= i < j < stack@.len() && (#[trigger] stack@[i]).1 && (#[trigger] stack@[j]).1 implies stack@[i].0 != stack@[j].0 by {
                if j < s0.len() - 1 {
                    assert(stack@[i] == s0[i] && stack@[j] == s0[j]);
                } else {
                    assert(j == s1.len() - 1);
                    assert(stack@[i] == s0[i]);
                }
            }
            if !v1.contains(entry) {
                let i = choose|i: int| 0 <= i < s0.len() && #[trigger] s0[i] == (entry, false);
                assert(i < s0.len() - 1);
                assert(stack@[i] == (entry, false));
            }
        }
    }
    proof {
        let v1 = visited_entries(visited).dom();
        assert forall|b: BasicBlockId| result@.contains(b) <==> reachable(blocks, entry, b) by {
            if reachable(blocks, entry, b) {
                lemma_closed_holds_reachable(blocks, entry, v1, b);
            }
            if result@.contains(b) {
                let k = choose|k: int| 0 <= k < result@.len() && result@[k] == b;
                assert(v1.contains(result@[k]));
            }
        }
    }
    result
}

// ---------------------------------------------------------------------------------
// The dominator tree.
// ---------------------------------------------------------------------------------

/// Bound on the rounds of the iterative passes whose termination rests on the shape of
/// the graph: `u64::MAX`.
pub open spec fn round_limit() -> u64 {
    u64::MAX
}

/// `idom` maps the entry to itself and every value of `idom` is a key of it.
pub open spec fn idom_closed(idom: Map<BasicBlockId, BasicBlockId>, entry: BasicBlockId) -> bool {
    &&& idom.dom().contains(entry)
    &&& idom[entry] == entry
    &&& forall|n: BasicBlockId| #[trigger] idom.dom().contains(n) ==> idom.dom().contains(idom[n])
}

/// Tree facts about depths: each block with a depth has an immediate dominator; the
/// single block of depth 0 is its own immediate dominator; any other block is one
/// deeper than its immediate dominator; no depth exceeds the number of block ids.
pub open spec fn depth_consistent(idom: Map<BasicBlockId, BasicBlockId>, depth: Map<BasicBlockId, usize>) -> bool {
    &&& forall|n: BasicBlockId| #[trigger] depth.dom().contains(n) ==> idom.dom().contains(n)
    &&& forall|n: BasicBlockId| #[trigger] depth.dom().contains(n) && depth[n] == 0 ==> idom[n] == n
    &&& forall|n: BasicBlockId|
        #[trigger] depth.dom().contains(n) && depth[n] > 0 ==> depth.dom().contains(idom[n]) && depth[idom[n]] + 1 == depth[n]
    &&& forall|n: BasicBlockId, m: BasicBlockId|
        #[trigger] depth.dom().contains(n) && #[trigger] depth.dom().contains(m) && depth[n] == 0 && depth[m] == 0 ==> n == m
    &&& forall|n: BasicBlockId| #[trigger] depth.dom().contains(n) ==> depth[n] <= u32::MAX
}

/// The view of a children map: each list as a sequence.
pub open spec fn children_view(m: Map<BasicBlockId, Vec<BasicBlockId>>) -> Map<BasicBlockId, Seq<BasicBlockId>> {
    m.map_values(|v: Vec<BasicBlockId>| v@)
}

/// The children of `p` in `idom`: the blocks other than `p` whose immediate dominator
/// is `p`.
pub open spec fn is_child(idom: Map<BasicBlockId, BasicBlockId>, p: BasicBlockId, c: BasicBlockId) -> bool {
    idom.dom().contains(c) && idom[c] == p && c != p
}

/// Walking up from `b` along immediate dominators, `a` is met within `fuel` steps
/// before the walk stops at a block without an immediate dominator or at a block
/// that is its own.
pub open spec fn walk_meets(idom: Map<BasicBlockId, BasicBlockId>, a: BasicBlockId, b: BasicBlockId, fuel: nat) -> bool
    decreases fuel,
{
    if fuel == 0 {
        false
    } else if !idom.dom().contains(b) {
        false
    } else if idom[b] == a {
        true
    } else if idom[b] == b {
        false
    } else {
        walk_meets(idom, a, idom[b], (fuel - 1) as nat)
    }
}

/// The nearest common ancestor of `a` and `b` in the tree of depths: climb the deeper
/// one until both have the same depth, then climb both until they meet.
pub open spec fn nearest_common(idom: Map<BasicBlockId, BasicBlockId>, depth: Map<BasicBlockId, usize>, a: BasicBlockId, b: BasicBlockId) -> Option<BasicBlockId>
    decreases depth[a] + depth[b],
{
    if !depth.dom().contains(a) || !depth.dom().contains(b) {
        None
    } else if depth[a] > depth[b] {
        if idom.dom().contains(a) && depth.dom().contains(idom[a]) && depth[idom[a]] < depth[a] {
            nearest_common(idom, depth, idom[a], b)
        } else {
            None
        }
    } else if depth[b] > depth[a] {
        if idom.dom().contains(b) && depth.dom().contains(idom[b]) && depth[idom[b]] < depth[b] {
            nearest_common(idom, depth, a, idom[b])
        } else {
            None
        }
    } else if a == b {
        Some(a)
    } else if idom.dom().contains(a) && idom.dom().contains(b) && depth.dom().contains(idom[a])
        && depth.dom().contains(idom[b]) && depth[idom[a]] < depth[a] && depth[idom[b]] < depth[b] {
        nearest_common(idom, depth, idom[a], idom[b])
    } else {
        None
    }
}

/// The dominator tree of a control flow graph: immediate dominators, tree children
/// and depths.
#[derive(Debug, PartialEq)]
pub struct DominatorTree {
    idom: IdomMap,
    children: ChildrenMap,
    depth: DepthMap,
}

/// `c` is listed under `p` in the children map `cm`.
spec fn lists(cm: Map<BasicBlockId, Vec<BasicBlockId>>, p: BasicBlockId, c: BasicBlockId) -> bool {
    cm.dom().contains(p) && cm[p]@.contains(c)
}

/// The children map of `idom`: each block that is not its own immediate dominator is
/// listed under its immediate dominator, once.
fn build_children(idom: &IdomMap) -> (r: ChildrenMap)
    ensures
        forall|p: BasicBlockId, c: BasicBlockId|
            #[trigger] children_view(children_entries(r)).dom().contains(p) && children_view(children_entries(r))[p].contains(c)
                <==> #[trigger] is_child(idom_entries(*idom), p, c),
        forall|p: BasicBlockId|
            #[trigger] children_view(children_entries(r)).dom().contains(p) ==> children_view(children_entries(r))[p].no_duplicates()
                && children_view(children_entries(r))[p].len() > 0,
{
    let ghost im = idom_entries(*idom);
    let pairs = idom_pairs(idom);
    let mut children = children_new();
    let mut k: usize = 0;
    while k < pairs.len()
        invariant
            k <= pairs@.len(),
            im == idom_entries(*idom),
            forall|i: int| 0 <= i < pairs@.len() ==> im.dom().contains((#[trigger] pairs@[i]).0) && im[pairs@[i].0] == pairs@[i].1,
            forall|i: int, j: int| 0 <= i < j < pairs@.len() ==> (#[trigger] pairs@[i]).0 != (#[trigger] pairs@[j]).0,
            forall|p: BasicBlockId, c: BasicBlockId|
                #[trigger] lists(children_entries(children), p, c)
                    ==> is_child(im, p, c) && exists|i: int| 0 <= i < k && (#[trigger] pairs@[i]).0 == c,
            forall|i: int|
                0 <= i < k && (#[trigger] pairs@[i]).0 != pairs@[i].1 ==> lists(children_entries(children), pairs@[i].1, pairs@[i].0),
            forall|p: BasicBlockId|
                #[trigger] children_entries(children).dom().contains(p) ==> children_entries(children)[p]@.no_duplicates()
                    && children_entries(children)[p]@.len() > 0,
        decreases pairs@.len() - k,
    {
        let (node, parent) = pairs[k];
        let ghost c0 = children_entries(children);
        if node != parent {
            let existing = children_remove(&mut children, parent);
            let mut v = match existing {
                Some(v) => v,
                None => Vec::new(),
            };
            let ghost v0 = v@;
            v.push(node);
            children_insert(&mut children, parent, v);
            proof {
                let c1 = children_entries(children);
                assert(c1 == c0.remove(parent).insert(parent, v));
                assert(c0.dom().contains(parent) ==> v0 == c0[parent]@);
                assert(!c0.dom().contains(parent) ==> v0.len() == 0);
                assert(!v0.contains(node)) by {
                    if v0.contains(node) {
                        assert(lists(c0, parent, node));
                        let i = choose|i: int| 0 <= i < k && (#[trigger] pairs@[i]).0 == node;
                        assert(pairs@[i].0 == pairs@[k as int].0);
                    }
                }
                assert forall|p: BasicBlockId, c: BasicBlockId|
                    #[trigger] lists(c1, p, c) implies is_child(im, p, c) && exists|i: int| 0 <= i < k + 1 && (#[trigger] pairs@[i]).0 == c by {
                    if p == parent && c == node {
                        assert(pairs@[k as int].0 == c);
                    } else if p == parent {
                        assert(v@ == v0.push(node));
                        assert(v0.contains(c));
                        assert(lists(c0, p, c));
                    } else {
                        assert(lists(c0, p, c));
                    }
                }
                assert forall|i: int|
                    0 <= i < k + 1 && (#[trigger] pairs@[i]).0 != pairs@[i].1 implies lists(c1, pairs@[i].1, pairs@[i].0) by {
                    if i == k {
                        assert(v@[v@.len() - 1] == node);
                    } else if pairs@[i].1 == parent {
                        assert(lists(c0, parent, pairs@[i].0));
                        assert(v0.contains(pairs@[i].0));
                        let j = choose|j: int| 0 <= j < v0.len() && v0[j] == pairs@[i].0;
                        assert(v@[j] == pairs@[i].0);
                    } else {
                        assert(lists(c0, pairs@[i].1, pairs@[i].0));
                    }
                }
                assert forall|p: BasicBlockId| #[trigger] c1.dom().contains(p) implies c1[p]@.no_duplicates() && c1[p]@.len() > 0 by {
                    if p == parent {
                        assert forall|i: int, j: int| 0 <= i < j < v@.len() implies v@[i] != v@[j] by {
                            if j == v@.len() - 1 {
                                assert(v0[i] == v@[i]);
                                assert(v0.contains(v0[i]));
                            } else {
                                assert(v0[i] == v@[i] && v0[j] == v@[j]);
                            }
                        }
                    }
                }
            }
        } else {
            proof {
                let c1 = children_entries(children);
                assert forall|p: BasicBlockId, c: BasicBlockId|
                    #[trigger] lists(c1, p, c) implies is_child(im, p, c) && exists|i: int| 0 <= i < k + 1 && (#[trigger] pairs@[i]).0 == c by {
                    let i = choose|i: int| 0 <= i < k && (#[trigger] pairs@[i]).0 == c;
                    assert(pairs@[i].0 == c);
                }
            }
        }
        k = k + 1;
    }
    proof {
        let cm = children_entries(children);
        assert forall|p: BasicBlockId, c: BasicBlockId|
            #[trigger] children_view(cm).dom().contains(p) && children_view(cm)[p].contains(c)
                <==> #[trigger] is_child(im, p, c) by {
            if children_view(cm).dom().contains(p) && children_view(cm)[p].contains(c) {
                assert(lists(cm, p, c));
            }
            if is_child(im, p, c) {
                assert(im.dom().contains(c));
                let i = choose|i: int| 0 <= i < pairs@.len() && (#[trigger] pairs@[i]).0 == c;
                assert(pairs@[i].1 == p);
                assert(lists(cm, p, c));
            }
        }
    }
    children
}

/// Every block id.
spec fn all_block_ids() -> Seq<BasicBlockId> {
    Seq::new(0x1_0000_0000nat, |i: int| BasicBlockId(i as u32))
}

proof fn lemma_all_block_ids_has(b: BasicBlockId)
    ensures
        all_block_ids().contains(b),
{
    let ids = all_block_ids();
    assert(ids[b.0 as int] == BasicBlockId(b.0 as int as u32));
    assert(ids[b.0 as int] == b);
}

proof fn lemma_count_missing_bound(seen: Set<BasicBlockId>, ids: Seq<BasicBlockId>)
    ensures
        count_missing(seen, ids) <= ids.len(),
    decreases ids.len(),
{
    if ids.len() > 0 {
        lemma_count_missing_bound(seen, ids.drop_last());
    }
}

/// Depths in the tree of `children` below `entry`, by breadth-first search.
fn compute_depths(idom: &IdomMap, children: &ChildrenMap, entry: BasicBlockId) -> (r: DepthMap)
    requires
        idom_closed(idom_entries(*idom), entry),
        forall|p: BasicBlockId, c: BasicBlockId|
            #[trigger] children_view(children_entries(*children)).dom().contains(p) && children_view(children_entries(*children))[p].contains(c)
                <==> #[trigger] is_child(idom_entries(*idom), p, c),
        forall|p: BasicBlockId|
            #[trigger] children_view(children_entries(*children)).dom().contains(p) ==> children_view(children_entries(*children))[p].no_duplicates(),
    ensures
        depth_consistent(idom_entries(*idom), depth_entries(r)),
        depth_entries(r).dom().contains(entry),
        depth_entries(r)[entry] == 0,
        forall|p: BasicBlockId, c: BasicBlockId|
            #[trigger] depth_entries(r).dom().contains(p) && #[trigger] is_child(idom_entries(*idom), p, c) ==> depth_entries(r).dom().contains(c),
{
    let ghost im = idom_entries(*idom);
    let ghost cv = children_view(children_entries(*children));
    let ghost ids = all_block_ids();
    let mut depth = depth_new();
    let mut queue: VecDeque<BasicBlockId> = VecDeque::new();
    depth_insert(&mut depth, entry, 0);
    queue.push_back(entry);
    let ghost mut popped: Set<BasicBlockId> = Set::empty();
    proof {
        lemma_all_block_ids_has(entry);
        lemma_count_missing_bound(Set::empty(), ids);
        lemma_count_missing_insert(Set::empty(), ids, entry);
        assert(depth_entries(depth).dom() == Set::<BasicBlockId>::empty().insert(entry));
        assert(queue@[0] == entry);
    }
    while queue.len() > 0
        invariant
            im == idom_entries(*idom),
            cv == children_view(children_entries(*children)),
            ids == all_block_ids(),
            idom_closed(im, entry),
            forall|p: BasicBlockId, c: BasicBlockId| #[trigger] cv.dom().contains(p) && cv[p].contains(c) <==> #[trigger] is_child(im, p, c),
            forall|p: BasicBlockId| #[trigger] cv.dom().contains(p) ==> cv[p].no_duplicates(),
            depth_entries(depth).dom().contains(entry),
            depth_entries(depth)[entry] == 0,
            forall|n: BasicBlockId| #[trigger] depth_entries(depth).dom().contains(n) ==> im.dom().contains(n),
            forall|n: BasicBlockId|
                #[trigger] depth_entries(depth).dom().contains(n) && n != entry ==> depth_entries(depth)[n] > 0
                    && popped.contains(im[n]) && depth_entries(depth).dom().contains(im[n])
                    && depth_entries(depth)[im[n]] + 1 == depth_entries(depth)[n],
            forall|n: BasicBlockId|
                #[trigger] depth_entries(depth).dom().contains(n) ==> depth_entries(depth)[n] + count_missing(depth_entries(depth).dom(), ids) < ids.len(),
            forall|i: int| 0 <= i < queue@.len() ==> depth_entries(depth).dom().contains(#[trigger] queue@[i]) && !popped.contains(queue@[i]),
            queue@.no_duplicates(),
            forall|n: BasicBlockId| #[trigger] popped.contains(n) ==> depth_entries(depth).dom().contains(n),
            forall|p: BasicBlockId, c: BasicBlockId| #[trigger] popped.contains(p) && #[trigger] is_child(im, p, c) ==> depth_entries(depth).dom().contains(c),
            forall|n: BasicBlockId| #[trigger] depth_entries(depth).dom().contains(n) && !popped.contains(n) ==> queue@.contains(n),
        decreases count_missing(depth_entries(depth).dom(), ids), queue@.len(),
    {
        let ghost q0 = queue@;
        let ghost d0 = depth_entries(depth);
        let node = queue.pop_front().unwrap();
        let ghost q1 = queue@;
        assert(q1 == q0.subrange(1, q0.len() as int));
        let node_depth = depth_get(&depth, node).unwrap();
        proof {
            assert(q0[0] == node);
            assert(d0.dom().contains(node) && !popped.contains(node));
            popped = popped.insert(node);
            assert forall|n: BasicBlockId| #[trigger] d0.dom().contains(n) && !popped.contains(n) implies queue@.contains(n) by {
                assert(q0.contains(n));
                let k = choose|k: int| 0 <= k < q0.len() && q0[k] == n;
                assert(k != 0);
                assert(queue@[k - 1] == n);
            }
            assert(queue@.no_duplicates());
        }
        match children_get(children, node) {
            Some(kids) => {
                let ghost kv = kids@;
                proof {
                    assert(cv.dom().contains(node) && cv[node] == kv);
                    assert forall|j: int| 0 <= j < kv.len() implies is_child(im, node, #[trigger] kv[j]) && !d0.dom().contains(kv[j]) by {
                        assert(cv[node].contains(kv[j]));
                        assert(is_child(im, node, kv[j]));
                        if d0.dom().contains(kv[j]) {
                            assert(kv[j] != entry);
                            assert(popped.remove(node).contains(im[kv[j]]) || im[kv[j]] == node);
                        }
                    }
                }
                let mut j: usize = 0;
                while j < kids.len()
                    invariant
                        im == idom_entries(*idom),
                        ids == all_block_ids(),
                        idom_closed(im, entry),
                        kv == kids@,
                        kv.no_duplicates(),
                        j <= kv.len(),
                        forall|k: int| 0 <= k < kv.len() ==> is_child(im, node, #[trigger] kv[k]) && !d0.dom().contains(kv[k]),
                        d0.dom().contains(node),
                        d0[node] == node_depth,
                        popped.contains(node),
                        depth_entries(depth).dom() == d0.dom() + kv.subrange(0, j as int).to_set(),
                        forall|n: BasicBlockId| #[trigger] d0.dom().contains(n) ==> depth_entries(depth)[n] == d0[n],
                        forall|k: int| 0 <= k < j ==> depth_entries(depth)[#[trigger] kv[k]] == node_depth + 1,
                        queue@ == q1 + kv.subrange(0, j as int),
                        forall|n: BasicBlockId|
                            #[trigger] depth_entries(depth).dom().contains(n) ==> depth_entries(depth)[n] + count_missing(depth_entries(depth).dom(), ids) < ids.len(),
                        node_depth + count_missing(depth_entries(depth).dom(), ids) < ids.len(),
                        count_missing(depth_entries(depth).dom(), ids) + j <= count_missing(d0.dom(), ids),
                    decreases kv.len() - j,
                {
                    let child = kids[j];
                    let ghost dm = depth_entries(depth);
                    proof {
                        lemma_all_block_ids_has(child);
                        assert(!dm.dom().contains(child)) by {
                            if dm.dom().contains(child) {
                                assert(!d0.dom().contains(kv[j as int]));
                                assert(kv.subrange(0, j as int).to_set().contains(child));
                                let k = choose|k: int| 0 <= k < j && kv.subrange(0, j as int)[k] == child;
                                assert(kv[k] == kv[j as int]);
                            }
                        }
                        lemma_count_missing_insert(dm.dom(), ids, child);
                    }
                    depth_insert(&mut depth, child, node_depth + 1);
                    queue.push_back(child);
                    proof {
                        let d2 = depth_entries(depth);
                        assert(d2 == dm.insert(child, (node_depth + 1) as usize));
                        assert(kv.subrange(0, j + 1) == kv.subrange(0, j as int).push(child));
                        assert forall|n: BasicBlockId| d2.dom().contains(n) <==> (d0.dom() + kv.subrange(0, j + 1).to_set()).contains(n) by {
                            let s1 = kv.subrange(0, j + 1);
                            let s0 = kv.subrange(0, j as int);
                            if s1.contains(n) && n != child {
                                let k = choose|k: int| 0 <= k < s1.len() && s1[k] == n;
                                assert(s0[k] == n);
                            }
                            if s0.contains(n) {
                                let k = choose|k: int| 0 <= k < s0.len() && s0[k] == n;
                                assert(s1[k] == n);
                            }
                            if n == child {
                                assert(s1[j as int] == n);
                            }
                        }
                        assert(d2.dom() =~= d0.dom() + kv.subrange(0, j + 1).to_set());
                        assert forall|k: int| 0 <= k < j + 1 implies d2[#[trigger] kv[k]] == node_depth + 1 by {
                            if k < j {
                                assert(kv[k] != child);
                            }
                        }
                        assert forall|n: BasicBlockId| #[trigger] d2.dom().contains(n) implies d2[n] + count_missing(d2.dom(), ids) < ids.len() by {
                            if n != child {
                                assert(dm.dom().contains(n));
                            }
                        }
                    }
                    j = j + 1;
                }
                proof {
                    let d2 = depth_entries(depth);
                    assert(kv.subrange(0, kv.len() as int) == kv);
                    assert forall|i: int| 0 <= i < queue@.len() implies d2.dom().contains(#[trigger] queue@[i]) && !popped.contains(queue@[i]) by {
                        if i < q1.len() {
                            assert(queue@[i] == q1[i]);
                            assert(q1[i] == q0[i + 1]);
                        } else {
                            assert(queue@[i] == kv[i - q1.len()]);
                            assert(kv.to_set().contains(kv[i - q1.len()]));
                            assert(!d0.dom().contains(kv[i - q1.len()]));
                        }
                    }
                    assert forall|a: int, b: int| 0 <= a < b < queue@.len() implies queue@[a] != queue@[b] by {
                        if b < q1.len() {
                        } else if a < q1.len() {
                            assert(queue@[a] == q1[a]);
                            assert(q1[a] == q0[a + 1]);
                            assert(d0.dom().contains(q0[a + 1]));
                            assert(!d0.dom().contains(kv[b - q1.len()]));
                        } else {
                            assert(queue@[a] == kv[a - q1.len()]);
                            assert(queue@[b] == kv[b - q1.len()]);
                        }
                    }
                    assert forall|n: BasicBlockId| #[trigger] d2.dom().contains(n) && n != entry implies d2[n] > 0
                        && popped.contains(im[n]) && d2.dom().contains(im[n]) && d2[im[n]] + 1 == d2[n] by {
                        if !d0.dom().contains(n) {
                            assert(kv.to_set().contains(n));
                            let k = choose|k: int| 0 <= k < kv.len() && kv[k] == n;
                            assert(is_child(im, node, kv[k]));
                        }
                    }
                    assert forall|p: BasicBlockId, c: BasicBlockId| #[trigger] popped.contains(p) && #[trigger] is_child(im, p, c) implies d2.dom().contains(c) by {
                        if p == node {
                            assert(cv[node].contains(c));
                            let k = choose|k: int| 0 <= k < kv.len() && kv[k] == c;
                            assert(kv.to_set().contains(kv[k]));
                        }
                    }
                    assert forall|n: BasicBlockId| #[trigger] d2.dom().contains(n) && !popped.contains(n) implies queue@.contains(n) by {
                        if d0.dom().contains(n) {
                            let k = choose|k: int| 0 <= k < q1.len() && q1[k] == n;
                            assert(queue@[k] == n);
                        } else {
                            let k = choose|k: int| 0 <= k < kv.len() && kv[k] == n;
                            assert(queue@[q1.len() + k] == n);
                        }
                    }
                }
            }
            None => {
                proof {
                    assert forall|p: BasicBlockId, c: BasicBlockId| #[trigger] popped.contains(p) && #[trigger] is_child(im, p, c) implies d0.dom().contains(c) by {
                        if p == node {
                            assert(cv.dom().contains(node) && cv[node].contains(c));
                        }
                    }
                    assert forall|i: int| 0 <= i < queue@.len() implies d0.dom().contains(#[trigger] queue@[i]) && !popped.contains(queue@[i]) by {
                        assert(queue@[i] == q0[i + 1]);
                    }
                }
            }
        }
    }
    proof {
        let d = depth_entries(depth);
        assert forall|p: BasicBlockId, c: BasicBlockId| #[trigger] d.dom().contains(p) && #[trigger] is_child(im, p, c) implies d.dom().contains(c) by {
            if !popped.contains(p) {
                assert(queue@.contains(p));
            }
        }
        assert forall|n: BasicBlockId| #[trigger] d.dom().contains(n) implies d[n] <= u32::MAX by {
            assert(d[n] + count_missing(d.dom(), ids) < ids.len());
        }
    }
    depth
}

/// `a` dominates `b` by the immediate-dominator map: they are equal, or walking up
/// from `b` meets `a`.
pub open spec fn dominates_in(idom: Map<BasicBlockId, BasicBlockId>, a: BasicBlockId, b: BasicBlockId) -> bool {
    a == b || walk_meets(idom, a, b, round_limit() as nat)
}

/// The number of blocks of `s` that dominate `b`.
pub open spec fn dominator_count(blocks: Seq<crate::semantic::flow::cfg::BasicBlock>, entry: BasicBlockId, s: Seq<BasicBlockId>, b: BasicBlockId) -> nat
    decreases s.len(),
{
    if s.len() == 0 {
        0
    } else {
        dominator_count(blocks, entry, s.drop_last(), b) + if dominates_on_paths(blocks, entry, s.last(), b) {
            1nat
        } else {
            0nat
        }
    }
}

/// A block whose dominators all dominate `b`, and that misses one of `b`'s dominators
/// listed in `s`, has fewer dominators in `s`.
proof fn lemma_dominator_count_less(
    blocks: Seq<crate::semantic::flow::cfg::BasicBlock>,
    entry: BasicBlockId,
    s: Seq<BasicBlockId>,
    d: BasicBlockId,
    b: BasicBlockId,
    y: BasicBlockId,
)
    requires
        forall|x: BasicBlockId| #[trigger] dominates_on_paths(blocks, entry, x, d) ==> dominates_on_paths(blocks, entry, x, b),
        dominates_on_paths(blocks, entry, y, b),
        !dominates_on_paths(blocks, entry, y, d),
    ensures
        dominator_count(blocks, entry, s, d) <= dominator_count(blocks, entry, s, b),
        s.contains(y) ==> dominator_count(blocks, entry, s, d) < dominator_count(blocks, entry, s, b),
    decreases s.len(),
{
    if s.len() > 0 {
        lemma_dominator_count_less(blocks, entry, s.drop_last(), d, b, y);
        if s.contains(y) && s.last() != y {
            let k = choose|k: int| 0 <= k < s.len() && s[k] == y;
            assert(s.drop_last()[k] == y);
        }
    }
}

/// Under the immediate dominators of a graph, with depths closed under the children,
/// every reachable block has a depth.
proof fn lemma_reachable_has_depth(
    blocks: Seq<crate::semantic::flow::cfg::BasicBlock>,
    entry: BasicBlockId,
    idom: Map<BasicBlockId, BasicBlockId>,
    depth: Map<BasicBlockId, usize>,
    reach: Seq<BasicBlockId>,
    b: BasicBlockId,
)
    requires
        forall|x: BasicBlockId| reach.contains(x) <==> reachable(blocks, entry, x),
        forall|x: BasicBlockId| #[trigger] idom.dom().contains(x) <==> reachable(blocks, entry, x),
        forall|x: BasicBlockId|
            #[trigger] reachable(blocks, entry, x) && x != entry ==> is_immediate_dominator(blocks, entry, idom[x], x),
        depth.dom().contains(entry),
        forall|p: BasicBlockId, c: BasicBlockId| #[trigger] depth.dom().contains(p) && #[trigger] is_child(idom, p, c) ==> depth.dom().contains(c),
        reachable(blocks, entry, b),
    ensures
        depth.dom().contains(b),
    decreases dominator_count(blocks, entry, reach, b),
{
    if b != entry {
        let d = idom[b];
        assert(is_immediate_dominator(blocks, entry, d, b));
        lemma_dominator_reachable(blocks, entry, d, b);
        lemma_dominates_self(blocks, entry, b);
        assert forall|x: BasicBlockId| #[trigger] dominates_on_paths(blocks, entry, x, d) implies dominates_on_paths(blocks, entry, x, b) by {
            lemma_dominates_trans(blocks, entry, x, d, b);
        }
        if dominates_on_paths(blocks, entry, b, d) {
            lemma_dominates_antisym(blocks, entry, b, d);
        }
        assert(reach.contains(b));
        lemma_dominator_count_less(blocks, entry, reach, d, b, b);
        lemma_reachable_has_depth(blocks, entry, idom, depth, reach, d);
        assert(is_child(idom, d, b));
    }
}

/// Walking up the immediate dominators from a reachable block `b` meets `a` (or `a`
/// is `b`) exactly when `a` dominates `b`, given fuel beyond the depth of `b`.
proof fn lemma_walk_is_dominance(
    blocks: Seq<crate::semantic::flow::cfg::BasicBlock>,
    entry: BasicBlockId,
    idom: Map<BasicBlockId, BasicBlockId>,
    depth: Map<BasicBlockId, usize>,
    a: BasicBlockId,
    b: BasicBlockId,
    fuel: nat,
)
    requires
        forall|x: BasicBlockId| #[trigger] idom.dom().contains(x) <==> reachable(blocks, entry, x),
        idom[entry] == entry,
        forall|x: BasicBlockId|
            #[trigger] reachable(blocks, entry, x) && x != entry ==> is_immediate_dominator(blocks, entry, idom[x], x),
        depth_consistent(idom, depth),
        depth.dom().contains(entry),
        depth[entry] == 0,
        forall|x: BasicBlockId| reachable(blocks, entry, x) ==> #[trigger] depth.dom().contains(x),
        reachable(blocks, entry, b),
        fuel > depth[b],
    ensures
        (a == b || walk_meets(idom, a, b, fuel)) <==> dominates_on_paths(blocks, entry, a, b),
    decreases depth[b],
{
    lemma_dominates_self(blocks, entry, b);
    assert(depth.dom().contains(b));
    if depth[b] == 0 {
        assert(b == entry);
        if a != entry {
            lemma_entry_dominators(blocks, entry, a);
        }
    } else {
        let d = idom[b];
        assert(depth[d] + 1 == depth[b]);
        assert(d != b);
        assert(b != entry);
        assert(is_immediate_dominator(blocks, entry, d, b));
        lemma_dominator_reachable(blocks, entry, d, b);
        lemma_walk_is_dominance(blocks, entry, idom, depth, a, d, (fuel - 1) as nat);
        if dominates_on_paths(blocks, entry, a, d) {
            lemma_dominates_trans(blocks, entry, a, d, b);
        }
    }
}

impl DominatorTree {
    #[verifier::type_invariant]
    spec fn tree_invariant(self) -> bool {
        depth_consistent(idom_entries(self.idom), depth_entries(self.depth))
    }

    /// Immediate dominators, by block.
    pub closed spec fn spec_idom(self) -> Map<BasicBlockId, BasicBlockId> {
        idom_entries(self.idom)
    }

    /// Tree children, by block.
    pub closed spec fn spec_children(self) -> Map<BasicBlockId, Seq<BasicBlockId>> {
        children_view(children_entries(self.children))
    }

    /// Tree depths, by block.
    pub closed spec fn spec_depth(self) -> Map<BasicBlockId, usize> {
        depth_entries(self.depth)
    }

    /// The depths are consistent with the immediate dominators.
    pub open spec fn valid(self) -> bool {
        depth_consistent(self.spec_idom(), self.spec_depth())
    }

    /// The depths of every tree are consistent with its immediate dominators.
    pub fn lemma_valid(&self)
        ensures
            self.valid(),
    {
        proof {
            use_type_invariant(self);
        }
    }

    /// The dominator tree of `cfg`: each block reachable from the entry gets its
    /// immediate dominator (the entry is its own), found from which blocks each block
    /// cuts off from the entry; blocks that are not reachable get none. Walking up the
    /// immediate dominators from a reachable block meets exactly the blocks that every
    /// walk from the entry to it visits. The children of a block are the other blocks
    /// whose immediate dominator it is; depths count the steps from the entry down the
    /// children, and every reachable block has one.
    pub fn compute(cfg: &ControlFlowGraph) -> (r: Self)
        requires
            reachable_blocks_exist(*cfg),
        ensures
            forall|b: BasicBlockId| #[trigger] r.spec_idom().dom().contains(b) <==> reachable(cfg.blocks@, cfg.entry, b),
            r.spec_idom()[cfg.entry] == cfg.entry,
            forall|b: BasicBlockId|
                #[trigger] reachable(cfg.blocks@, cfg.entry, b) && b != cfg.entry ==> is_immediate_dominator(
                    cfg.blocks@,
                    cfg.entry,
                    r.spec_idom()[b],
                    b,
                ),
            forall|a: BasicBlockId, b: BasicBlockId|
                #[trigger] reachable(cfg.blocks@, cfg.entry, b) ==> (dominates_in(r.spec_idom(), a, b)
                    <==> #[trigger] dominates_on_paths(cfg.blocks@, cfg.entry, a, b)),
            forall|p: BasicBlockId, c: BasicBlockId|
                #[trigger] r.spec_children().dom().contains(p) && r.spec_children()[p].contains(c)
                    <==> #[trigger] is_child(r.spec_idom(), p, c),
            forall|p: BasicBlockId|
                #[trigger] r.spec_children().dom().contains(p) ==> r.spec_children()[p].no_duplicates() && r.spec_children()[p].len() > 0,
            forall|b: BasicBlockId| #[trigger] r.spec_depth().dom().contains(b) <==> reachable(cfg.blocks@, cfg.entry, b),
            r.spec_depth()[cfg.entry] == 0,
            r.valid(),
    {
        let ghost blocks = cfg.blocks@;
        let entry = cfg.entry;
        let reach = postorder_traversal(cfg);
        let idom = immediate_dominators(cfg, &reach);
        let ghost im = idom_entries(idom);
        proof {
            lemma_reachable_self(blocks, entry);
            assert forall|n: BasicBlockId| #[trigger] im.dom().contains(n) implies im.dom().contains(im[n]) by {
                if n != entry {
                    lemma_dominator_reachable(blocks, entry, im[n], n);
                }
            }
            assert(idom_closed(im, entry));
        }
        let children = build_children(&idom);
        let depth = compute_depths(&idom, &children, entry);
        let ghost dm = depth_entries(depth);
        proof {
            assert forall|b: BasicBlockId| reachable(blocks, entry, b) implies #[trigger] dm.dom().contains(b) by {
                lemma_reachable_has_depth(blocks, entry, im, dm, reach@, b);
            }
            assert forall|a: BasicBlockId, b: BasicBlockId| #[trigger] reachable(blocks, entry, b) implies (dominates_in(im, a, b)
                <==> #[trigger] dominates_on_paths(blocks, entry, a, b)) by {
                assert(dm.dom().contains(b));
                lemma_walk_is_dominance(blocks, entry, im, dm, a, b, round_limit() as nat);
            }
            assert forall|b: BasicBlockId| #[trigger] dm.dom().contains(b) implies reachable(blocks, entry, b) by {
                assert(im.dom().contains(b));
            }
        }
        DominatorTree { idom, children, depth }
    }

    /// The immediate dominator of `block`, if it has one.
    pub fn idom(&self, block: BasicBlockId) -> (r: Option<BasicBlockId>)
        ensures
            r == lookup_opt(self.spec_idom(), block),
    {
        idom_get(&self.idom, block)
    }

    /// The children of `block` in the tree; none when it has no children.
    pub fn children(&self, block: BasicBlockId) -> (r: &[BasicBlockId])
        ensures
            self.spec_children().dom().contains(block) ==> r@ == self.spec_children()[block],
            !self.spec_children().dom().contains(block) ==> r@.len() == 0,
    {
        match children_get(&self.children, block) {
            Some(v) => v.as_slice(),
            None => &[],
        }
    }

    /// The depth of `block` in the tree, if it is in the tree.
    pub fn depth(&self, block: BasicBlockId) -> (r: Option<usize>)
        ensures
            r == lookup_opt(self.spec_depth(), block),
    {
        depth_get(&self.depth, block)
    }

    /// Whether `a` dominates `b`: they are equal, or walking up the immediate
    /// dominators from `b` meets `a` (for at most `round_limit()` steps).
    pub fn dominates(&self, a: BasicBlockId, b: BasicBlockId) -> (r: bool)
        ensures
            r == dominates_in(self.spec_idom(), a, b),
    {
        if a == b {
            return true;
        }
        let ghost im = self.spec_idom();
        let mut cur = b;
        let mut steps: u64 = 0;
        while steps < u64::MAX
            invariant
                im == self.spec_idom(),
                a != b,
                walk_meets(im, a, cur, (u64::MAX - steps) as nat) == walk_meets(im, a, b, round_limit() as nat),
            decreases u64::MAX - steps,
        {
            match idom_get(&self.idom, cur) {
                None => {
                    return false;
                },
                Some(d) => {
                    if d == a {
                        return true;
                    }
                    if d == cur {
                        return false;
                    }
                    cur = d;
                },
            }
            steps = steps + 1;
        }
        false
    }

    /// Whether `a` dominates `b` and differs from it.
    pub fn strictly_dominates(&self, a: BasicBlockId, b: BasicBlockId) -> (r: bool)
        ensures
            r == (a != b && dominates_in(self.spec_idom(), a, b)),
    {
        a != b && self.dominates(a, b)
    }

    /// The nearest common dominator of `a` and `b` in the tree: `None` when either
    /// has no depth.
    pub fn common_dominator(&self, a: BasicBlockId, b: BasicBlockId) -> (r: Option<BasicBlockId>)
        ensures
            r == nearest_common(self.spec_idom(), self.spec_depth(), a, b),
    {
        proof {
            use_type_invariant(self);
        }
        let ghost im = self.spec_idom();
        let ghost dm = self.spec_depth();
        let mut x = a;
        let mut y = b;
        loop
            invariant
                im == self.spec_idom(),
                dm == self.spec_depth(),
                depth_consistent(im, dm),
                nearest_common(im, dm, x, y) == nearest_common(im, dm, a, b),
            decreases dm[x] + dm[y],
        {
            let dx = match depth_get(&self.depth, x) {
                Some(d) => d,
                None => return None,
            };
            let dy = match depth_get(&self.depth, y) {
                Some(d) => d,
                None => return None,
            };
            if dx > dy {
                x = match idom_get(&self.idom, x) {
                    Some(p) => p,
                    None => return None,
                };
            } else if dy > dx {
                y = match idom_get(&self.idom, y) {
                    Some(p) => p,
                    None => return None,
                };
            } else if x == y {
                return Some(x);
            } else {
                proof {
                    if dx == 0 {
                        assert(x == y);
                    }
                }
                x = match idom_get(&self.idom, x) {
                    Some(p) => p,
                    None => return None,
                };
                y = match idom_get(&self.idom, y) {
                    Some(p) => p,
                    None => return None,
                };
            }
        }
    }
}

/// Walking up from a block of the tree, the walk gives the same answer for any fuel
/// beyond its depth.
proof fn lemma_walk_fuel(idom: Map<BasicBlockId, BasicBlockId>, depth: Map<BasicBlockId, usize>, x: BasicBlockId, b: BasicBlockId, f1: nat, f2: nat)
    requires
        depth_consistent(idom, depth),
        depth.dom().contains(b),
        f1 > depth[b],
        f2 > depth[b],
    ensures
        walk_meets(idom, x, b, f1) == walk_meets(idom, x, b, f2),
    decreases depth[b],
{
    if idom[b] != x && idom[b] != b {
        lemma_walk_fuel(idom, depth, x, idom[b], (f1 - 1) as nat, (f2 - 1) as nat);
    }
}

/// A block of the tree that dominates the immediate dominator of `b` dominates `b`.
proof fn lemma_dominates_up(idom: Map<BasicBlockId, BasicBlockId>, depth: Map<BasicBlockId, usize>, x: BasicBlockId, b: BasicBlockId)
    requires
        depth_consistent(idom, depth),
        depth.dom().contains(b),
        depth[b] > 0,
        dominates_in(idom, x, idom[b]),
    ensures
        dominates_in(idom, x, b),
{
    if idom[b] != x {
        assert(idom[b] != b);
        lemma_walk_fuel(idom, depth, x, idom[b], round_limit() as nat, (round_limit() - 1) as nat);
    }
}

/// The block of depth 0 dominates every block of the tree.
pub proof fn lemma_root_dominates(t: DominatorTree, root: BasicBlockId, b: BasicBlockId)
    requires
        t.valid(),
        t.spec_depth().dom().contains(root),
        t.spec_depth()[root] == 0,
        t.spec_depth().dom().contains(b),
    ensures
        dominates_in(t.spec_idom(), root, b),
    decreases t.spec_depth()[b],
{
    let idom = t.spec_idom();
    let depth = t.spec_depth();
    if depth[b] > 0 {
        lemma_root_dominates(t, root, idom[b]);
        lemma_dominates_up(idom, depth, root, b);
    }
}

/// The nearest common dominator of two blocks of the tree exists and dominates both.
pub proof fn lemma_common_dominator_dominates(t: DominatorTree, a: BasicBlockId, b: BasicBlockId)
    requires
        t.valid(),
        t.spec_depth().dom().contains(a),
        t.spec_depth().dom().contains(b),
    ensures
        nearest_common(t.spec_idom(), t.spec_depth(), a, b) matches Some(x) && dominates_in(t.spec_idom(), x, a)
            && dominates_in(t.spec_idom(), x, b),
    decreases t.spec_depth()[a] + t.spec_depth()[b],
{
    let idom = t.spec_idom();
    let depth = t.spec_depth();
    if depth[a] > depth[b] {
        lemma_common_dominator_dominates(t, idom[a], b);
        let x = nearest_common(idom, depth, idom[a], b)->0;
        lemma_dominates_up(idom, depth, x, a);
    } else if depth[b] > depth[a] {
        lemma_common_dominator_dominates(t, a, idom[b]);
        let x = nearest_common(idom, depth, a, idom[b])->0;
        lemma_dominates_up(idom, depth, x, b);
    } else if a != b {
        if depth[a] == 0 {
            assert(a == b);
        }
        lemma_common_dominator_dominates(t, idom[a], idom[b]);
        let x = nearest_common(idom, depth, idom[a], idom[b])->0;
        lemma_dominates_up(idom, depth, x, a);
        lemma_dominates_up(idom, depth, x, b);
    }
}

/// Another block that walking up the tree from `b` meets is less deep than `b`.
proof fn lemma_dominator_shallower(idom: Map<BasicBlockId, BasicBlockId>, depth: Map<BasicBlockId, usize>, d: BasicBlockId, b: BasicBlockId, fuel: nat)
    requires
        depth_consistent(idom, depth),
        depth.dom().contains(b),
        walk_meets(idom, d, b, fuel),
        d != b,
    ensures
        depth.dom().contains(d),
        depth[d] < depth[b],
    decreases fuel,
{
    if idom[b] != d {
        lemma_dominator_shallower(idom, depth, d, idom[b], (fuel - 1) as nat);
    }
}

/// A block other than `b` that dominates `b` in the tree dominates its immediate
/// dominator.
proof fn lemma_dominates_down(idom: Map<BasicBlockId, BasicBlockId>, depth: Map<BasicBlockId, usize>, d: BasicBlockId, b: BasicBlockId)
    requires
        depth_consistent(idom, depth),
        depth.dom().contains(b),
        dominates_in(idom, d, b),
        d != b,
    ensures
        depth[b] > 0,
        dominates_in(idom, d, idom[b]),
{
    lemma_dominator_shallower(idom, depth, d, b, round_limit() as nat);
    if idom[b] != d {
        lemma_walk_fuel(idom, depth, d, idom[b], (round_limit() - 1) as nat, round_limit() as nat);
    }
}

/// The nearest common dominator of two blocks of the tree is dominated by every
/// block that dominates both.
pub proof fn lemma_common_dominator_nearest(t: DominatorTree, a: BasicBlockId, b: BasicBlockId, d: BasicBlockId)
    requires
        t.valid(),
        t.spec_depth().dom().contains(a),
        t.spec_depth().dom().contains(b),
        dominates_in(t.spec_idom(), d, a),
        dominates_in(t.spec_idom(), d, b),
    ensures
        nearest_common(t.spec_idom(), t.spec_depth(), a, b) matches Some(x) && dominates_in(t.spec_idom(), d, x),
    decreases t.spec_depth()[a] + t.spec_depth()[b],
{
    let idom = t.spec_idom();
    let depth = t.spec_depth();
    if d != a {
        lemma_dominator_shallower(idom, depth, d, a, round_limit() as nat);
    }
    if d != b {
        lemma_dominator_shallower(idom, depth, d, b, round_limit() as nat);
    }
    if depth[a] > depth[b] {
        lemma_dominates_down(idom, depth, d, a);
        lemma_common_dominator_nearest(t, idom[a], b, d);
    } else if depth[b] > depth[a] {
        lemma_dominates_down(idom, depth, d, b);
        lemma_common_dominator_nearest(t, a, idom[b], d);
    } else if a != b {
        lemma_dominates_down(idom, depth, d, a);
        lemma_dominates_down(idom, depth, d, b);
        lemma_common_dominator_nearest(t, idom[a], idom[b], d);
    }
}

/// Of a tree with what `compute` gives for `cfg` (a depth for exactly the blocks
/// reachable from the entry, and dominance in the tree as on paths), the common
/// dominator of two reachable blocks is on every walk from the entry to each of them,
/// and every block on all those walks is on every walk to it.
pub proof fn lemma_common_dominator_on_paths(cfg: ControlFlowGraph, t: DominatorTree, a: BasicBlockId, b: BasicBlockId)
    requires
        t.valid(),
        forall|n: BasicBlockId| #[trigger] t.spec_depth().dom().contains(n) <==> reachable(cfg.blocks@, cfg.entry, n),
        forall|x: BasicBlockId, y: BasicBlockId|
            #[trigger] reachable(cfg.blocks@, cfg.entry, y) ==> (dominates_in(t.spec_idom(), x, y)
                <==> #[trigger] dominates_on_paths(cfg.blocks@, cfg.entry, x, y)),
        reachable(cfg.blocks@, cfg.entry, a),
        reachable(cfg.blocks@, cfg.entry, b),
    ensures
        nearest_common(t.spec_idom(), t.spec_depth(), a, b) matches Some(x) && {
            &&& dominates_on_paths(cfg.blocks@, cfg.entry, x, a)
            &&& dominates_on_paths(cfg.blocks@, cfg.entry, x, b)
            &&& forall|d: BasicBlockId|
                dominates_on_paths(cfg.blocks@, cfg.entry, d, a) && dominates_on_paths(cfg.blocks@, cfg.entry, d, b)
                    ==> #[trigger] dominates_on_paths(cfg.blocks@, cfg.entry, d, x)
        },
{
    let idom = t.spec_idom();
    let depth = t.spec_depth();
    assert(depth.dom().contains(a));
    assert(depth.dom().contains(b));
    lemma_common_dominator_dominates(t, a, b);
    let x = nearest_common(idom, depth, a, b)->0;
    assert(dominates_on_paths(cfg.blocks@, cfg.entry, x, a));
    assert(dominates_on_paths(cfg.blocks@, cfg.entry, x, b));
    if x != a {
        lemma_dominator_shallower(idom, depth, x, a, round_limit() as nat);
    }
    assert(depth.dom().contains(x));
    assert(reachable(cfg.blocks@, cfg.entry, x));
    assert forall|d: BasicBlockId|
        dominates_on_paths(cfg.blocks@, cfg.entry, d, a) && dominates_on_paths(cfg.blocks@, cfg.entry, d, b)
            implies #[trigger] dominates_on_paths(cfg.blocks@, cfg.entry, d, x) by {
        assert(dominates_in(idom, d, a));
        assert(dominates_in(idom, d, b));
        lemma_common_dominator_nearest(t, a, b, d);
    }
}

} // verus!
