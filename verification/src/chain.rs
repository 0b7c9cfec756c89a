//! What it means for the records of a function to form the chains of its
//! blocks, and how the chains change under the basic edits.
//!
//! Everything here is stated over plain maps: the records by handle, the
//! blocks by handle, and for each block the sequence of its instructions.

use vstd::prelude::*;
use crate::handle::{BBId, InstId};
use crate::inst::{BasicBlock, Tac};
use crate::linkedlist::{with_next, with_prev};

verus! {

/// The instruction of each record.
pub open spec fn bodies(m: Map<InstId, Tac>) -> Map<InstId, crate::inst::Inst> {
    m.map_values(|t: Tac| t.inst)
}

/// The branches of each block.
pub open spec fn jumps_of(blocks: Map<BBId, BasicBlock>) -> Map<BBId, Seq<crate::inst::Branch>> {
    blocks.map_values(|b: BasicBlock| b.jumps@)
}

/// The neighbours of each block in the order of blocks.
pub open spec fn order_of(blocks: Map<BBId, BasicBlock>) -> Map<BBId, (Option<BBId>, Option<BBId>)> {
    blocks.map_values(|b: BasicBlock| (b.prev, b.next))
}

/// The handle at position `k` of `c`, if `k` is a position of `c`.
pub open spec fn at(c: Seq<InstId>, k: int) -> Option<InstId> {
    if 0 <= k < c.len() {
        Some(c[k])
    } else {
        None
    }
}

/// The record at position `k` of the chain `c` of block `bb` is held, knows
/// its block, and points at its neighbours in `c`.
pub open spec fn link_at(insts: Map<InstId, Tac>, bb: BBId, c: Seq<InstId>, k: int) -> bool {
    &&& insts.dom().contains(c[k])
    &&& insts[c[k]].bb == bb
    &&& insts[c[k]].prev == at(c, k - 1)
    &&& insts[c[k]].next == at(c, k + 1)
}

/// `c` is the chain of the block `block` with the handle `bb`: no
/// instruction occurs twice, each is linked to its neighbours in `c`, and the
/// block's `head` and `tail` are the ends of `c`.
pub open spec fn chain_ok(insts: Map<InstId, Tac>, block: BasicBlock, bb: BBId, c: Seq<InstId>) -> bool {
    &&& c.no_duplicates()
    &&& forall|k: int| 0 <= k < c.len() ==> #[trigger] link_at(insts, bb, c, k)
    &&& block.head == at(c, 0)
    &&& block.tail == at(c, c.len() - 1)
}

/// The record `i` is either in no block and without neighbours, or in the
/// chain of the block it names.
pub open spec fn placed_ok(
    insts: Map<InstId, Tac>,
    blocks: Map<BBId, BasicBlock>,
    chains: Map<BBId, Seq<InstId>>,
    i: InstId,
) -> bool {
    if insts[i].bb.is_null() {
        insts[i].prev.is_none() && insts[i].next.is_none()
    } else {
        blocks.dom().contains(insts[i].bb) && chains[insts[i].bb].contains(i)
    }
}

/// The records and blocks form exactly the chains `chains`.
pub open spec fn linked(
    insts: Map<InstId, Tac>,
    blocks: Map<BBId, BasicBlock>,
    chains: Map<BBId, Seq<InstId>>,
) -> bool {
    &&& insts.dom().finite()
    &&& blocks.dom().finite()
    &&& !insts.dom().contains(InstId::null())
    &&& !blocks.dom().contains(BBId::null())
    &&& chains.dom() == blocks.dom()
    &&& forall|bb: BBId|
        blocks.dom().contains(bb) ==> #[trigger] chain_ok(insts, blocks[bb], bb, chains[bb])
    &&& forall|i: InstId| insts.dom().contains(i) ==> #[trigger] placed_ok(insts, blocks, chains, i)
}

/// Two chains of one block agree up to position `k`.
proof fn lemma_chain_prefix(
    insts: Map<InstId, Tac>,
    block: BasicBlock,
    bb: BBId,
    c1: Seq<InstId>,
    c2: Seq<InstId>,
    k: int,
)
    requires
        chain_ok(insts, block, bb, c1),
        chain_ok(insts, block, bb, c2),
        0 <= k < c1.len(),
    ensures
        k < c2.len(),
        c1[k] == c2[k],
    decreases k,
{
    if k == 0 {
        assert(block.head == Some(c1[0]));
    } else {
        lemma_chain_prefix(insts, block, bb, c1, c2, k - 1);
        assert(link_at(insts, bb, c1, k - 1));
        assert(link_at(insts, bb, c2, k - 1));
    }
}

/// A block has one chain only.
pub proof fn lemma_chain_unique(
    insts: Map<InstId, Tac>,
    block: BasicBlock,
    bb: BBId,
    c1: Seq<InstId>,
    c2: Seq<InstId>,
)
    requires
        chain_ok(insts, block, bb, c1),
        chain_ok(insts, block, bb, c2),
    ensures
        c1 == c2,
{
    if c1.len() > 0 {
        lemma_chain_prefix(insts, block, bb, c1, c2, c1.len() - 1);
    }
    if c2.len() > 0 {
        lemma_chain_prefix(insts, block, bb, c2, c1, c2.len() - 1);
    }
    assert forall|k: int| 0 <= k < c1.len() implies c1[k] == c2[k] by {
        lemma_chain_prefix(insts, block, bb, c1, c2, k);
    }
    assert(c1 =~= c2);
}

/// The records and blocks of a function form one family of chains only.
pub proof fn lemma_linked_unique(
    insts: Map<InstId, Tac>,
    blocks: Map<BBId, BasicBlock>,
    c1: Map<BBId, Seq<InstId>>,
    c2: Map<BBId, Seq<InstId>>,
)
    requires
        linked(insts, blocks, c1),
        linked(insts, blocks, c2),
    ensures
        c1 == c2,
{
    assert forall|bb: BBId| c1.dom().contains(bb) implies c1[bb] == c2[bb] by {
        assert(chain_ok(insts, blocks[bb], bb, c1[bb]));
        assert(chain_ok(insts, blocks[bb], bb, c2[bb]));
        lemma_chain_unique(insts, blocks[bb], bb, c1[bb], c2[bb]);
    }
    assert(c1 =~= c2);
}

/// A chain stays the chain of its block when the records of that block and
/// the ends of the block stay as they are.
pub proof fn lemma_chain_frame(
    insts: Map<InstId, Tac>,
    insts2: Map<InstId, Tac>,
    block: BasicBlock,
    block2: BasicBlock,
    bb: BBId,
    c: Seq<InstId>,
)
    requires
        chain_ok(insts, block, bb, c),
        forall|i: InstId|
            insts.dom().contains(i) && insts[i].bb == bb ==> insts2.dom().contains(i) && #[trigger] insts2[i]
                == insts[i],
        block2.head == block.head,
        block2.tail == block.tail,
    ensures
        chain_ok(insts2, block2, bb, c),
{
    assert forall|k: int| 0 <= k < c.len() implies #[trigger] link_at(insts2, bb, c, k) by {
        assert(link_at(insts, bb, c, k));
        assert(insts2[c[k]] == insts[c[k]]);
    }
}

/// In a family of chains, the position of a placed record in the chain of
/// its block.
pub open spec fn position(chains: Map<BBId, Seq<InstId>>, insts: Map<InstId, Tac>, i: InstId) -> int {
    chains[insts[i].bb].index_of(i)
}

/// A placed record sits at its position in the chain of its block.
pub proof fn lemma_position(
    insts: Map<InstId, Tac>,
    blocks: Map<BBId, BasicBlock>,
    chains: Map<BBId, Seq<InstId>>,
    i: InstId,
)
    requires
        linked(insts, blocks, chains),
        insts.dom().contains(i),
        !insts[i].bb.is_null(),
    ensures
        blocks.dom().contains(insts[i].bb),
        0 <= position(chains, insts, i) < chains[insts[i].bb].len(),
        chains[insts[i].bb][position(chains, insts, i)] == i,
        link_at(insts, insts[i].bb, chains[insts[i].bb], position(chains, insts, i)),
        chain_ok(insts, blocks[insts[i].bb], insts[i].bb, chains[insts[i].bb]),
{
    assert(placed_ok(insts, blocks, chains, i));
    let bb = insts[i].bb;
    assert(chain_ok(insts, blocks[bb], bb, chains[bb]));
    let c = chains[bb];
    assert(c.contains(i));
    c.index_of_first_ensures(i);
    let k = c.index_of(i);
    assert(0 <= k < c.len() && c[k] == i);
    assert(link_at(insts, bb, c, k));
}

/// A record in a chain belongs to the block of that chain, and a record in
/// no block is in no chain.
pub proof fn lemma_member(
    insts: Map<InstId, Tac>,
    blocks: Map<BBId, BasicBlock>,
    chains: Map<BBId, Seq<InstId>>,
    bb: BBId,
    k: int,
)
    requires
        linked(insts, blocks, chains),
        blocks.dom().contains(bb),
        0 <= k < chains[bb].len(),
    ensures
        insts.dom().contains(chains[bb][k]),
        insts[chains[bb][k]].bb == bb,
        !bb.is_null(),
        link_at(insts, bb, chains[bb], k),
{
    assert(chain_ok(insts, blocks[bb], bb, chains[bb]));
    assert(link_at(insts, bb, chains[bb], k));
}

/// `block` with its ends set to the ends of `c`.
pub open spec fn with_ends(block: BasicBlock, c: Seq<InstId>) -> BasicBlock {
    BasicBlock {
        head: at(c, 0),
        tail: at(c, c.len() - 1),
        prev: block.prev,
        next: block.next,
        jumps: block.jumps,
    }
}

/// The record `t` placed in block `bb` between `prev` and `next`.
pub open spec fn placed(t: Tac, bb: BBId, prev: Option<InstId>, next: Option<InstId>) -> Tac {
    Tac { inst: t.inst, bb, prev, next }
}

/// The records after `x` was put at position `p` of the chain `c` of `bb`.
pub open spec fn inserted(m: Map<InstId, Tac>, c: Seq<InstId>, bb: BBId, p: int, x: InstId) -> Map<
    InstId,
    Tac,
> {
    with_prev(
        with_next(m.insert(x, placed(m[x], bb, at(c, p - 1), at(c, p))), at(c, p - 1), Some(x)),
        at(c, p),
        Some(x),
    )
}

/// The records after the instruction at position `p` of the chain `c` was
/// taken out of it.
pub open spec fn removed(m: Map<InstId, Tac>, c: Seq<InstId>, p: int) -> Map<InstId, Tac> {
    with_prev(with_next(m, at(c, p - 1), at(c, p + 1)), at(c, p + 1), at(c, p - 1)).insert(
        c[p],
        placed(m[c[p]], BBId::null(), None, None),
    )
}

/// Putting a record that is in no block into a chain keeps the function
/// linked; the chain gains the record at that position.
pub proof fn lemma_insert_linked(
    m: Map<InstId, Tac>,
    blocks: Map<BBId, BasicBlock>,
    chains: Map<BBId, Seq<InstId>>,
    bb: BBId,
    p: int,
    x: InstId,
)
    requires
        linked(m, blocks, chains),
        blocks.dom().contains(bb),
        0 <= p <= chains[bb].len(),
        m.dom().contains(x),
        m[x].bb.is_null(),
    ensures
        !chains[bb].contains(x),
        linked(
            inserted(m, chains[bb], bb, p, x),
            blocks.insert(bb, with_ends(blocks[bb], chains[bb].insert(p, x))),
            chains.insert(bb, chains[bb].insert(p, x)),
        ),
{
    let c = chains[bb];
    let c2 = c.insert(p, x);
    let m2 = inserted(m, c, bb, p, x);
    let blocks2 = blocks.insert(bb, with_ends(blocks[bb], c2));
    let chains2 = chains.insert(bb, c2);
    assert(chain_ok(m, blocks[bb], bb, c));
    assert forall|k: int| 0 <= k < c.len() implies c[k] != x && m[#[trigger] c[k]].bb == bb by {
        assert(link_at(m, bb, c, k));
    }
    assert(!c.contains(x));
    if p > 0 {
        assert(link_at(m, bb, c, p - 1));
    }
    if p < c.len() {
        assert(link_at(m, bb, c, p));
    }
    assert(m2.dom() =~= m.dom());
    assert(c2.no_duplicates());
    assert(c2.len() == c.len() + 1);
    assert forall|k: int| 0 <= k < c2.len() implies #[trigger] link_at(m2, bb, c2, k) by {
        if k < p {
            assert(c2[k] == c[k]);
            assert(link_at(m, bb, c, k));
        } else if k > p {
            assert(c2[k] == c[k - 1]);
            assert(link_at(m, bb, c, k - 1));
        }
        if p > 0 {
            assert(link_at(m, bb, c, p - 1));
        }
        if p < c.len() {
            assert(link_at(m, bb, c, p));
        }
    }
    assert(chain_ok(m2, blocks2[bb], bb, c2));
    assert forall|b: BBId| blocks2.dom().contains(b) implies #[trigger] chain_ok(
        m2,
        blocks2[b],
        b,
        chains2[b],
    ) by {
        if b != bb {
            assert(chain_ok(m, blocks[b], b, chains[b]));
            assert forall|i: InstId| m.dom().contains(i) && m[i].bb == b implies m2.dom().contains(i)
                && #[trigger] m2[i] == m[i] by {
                if p > 0 {
                    assert(link_at(m, bb, c, p - 1));
                }
                if p < c.len() {
                    assert(link_at(m, bb, c, p));
                }
            }
            lemma_chain_frame(m, m2, blocks[b], blocks2[b], b, chains[b]);
        }
    }
    assert forall|i: InstId| m2.dom().contains(i) implies #[trigger] placed_ok(m2, blocks2, chains2, i) by {
        assert(placed_ok(m, blocks, chains, i));
        if p > 0 {
            assert(link_at(m, bb, c, p - 1));
        }
        if p < c.len() {
            assert(link_at(m, bb, c, p));
        }
        if i == x {
            assert(c2[p] == x);
        } else if m[i].bb == bb {
            let k = c.index_of(i);
            c.index_of_first_ensures(i);
            if k < p {
                assert(c2[k] == i);
            } else {
                assert(c2[k + 1] == i);
            }
        }
    }
    assert(chains2.dom() =~= blocks2.dom());
}

/// Taking the instruction at position `p` out of a chain keeps the function
/// linked; the instruction is then in no block.
pub proof fn lemma_remove_linked(
    m: Map<InstId, Tac>,
    blocks: Map<BBId, BasicBlock>,
    chains: Map<BBId, Seq<InstId>>,
    bb: BBId,
    p: int,
)
    requires
        linked(m, blocks, chains),
        blocks.dom().contains(bb),
        0 <= p < chains[bb].len(),
    ensures
        linked(
            removed(m, chains[bb], p),
            blocks.insert(bb, with_ends(blocks[bb], chains[bb].remove(p))),
            chains.insert(bb, chains[bb].remove(p)),
        ),
{
    let c = chains[bb];
    let x = c[p];
    let c2 = c.remove(p);
    let m2 = removed(m, c, p);
    let blocks2 = blocks.insert(bb, with_ends(blocks[bb], c2));
    let chains2 = chains.insert(bb, c2);
    assert(chain_ok(m, blocks[bb], bb, c));
    assert forall|k: int| 0 <= k < c.len() implies m[#[trigger] c[k]].bb == bb && m.dom().contains(c[k]) by {
        assert(link_at(m, bb, c, k));
    }
    assert(m.dom().contains(c[p]));
    if p > 0 {
        assert(m.dom().contains(c[p - 1]));
    }
    if p + 1 < c.len() {
        assert(m.dom().contains(c[p + 1]));
    }
    assert(m2.dom() =~= m.dom());
    assert(c2.len() == c.len() - 1);
    assert forall|k: int| 0 <= k < c2.len() implies c2[k] == (if k < p {
        c[k]
    } else {
        c[k + 1]
    }) by {}
    assert(c2.no_duplicates()) by {
        assert forall|i: int, j: int| 0 <= i < c2.len() && 0 <= j < c2.len() && i != j implies c2[i]
            != c2[j] by {
            let iu = if i < p { i } else { i + 1 };
            let ju = if j < p { j } else { j + 1 };
            assert(c[iu] != c[ju]);
        }
    }
    assert forall|k: int| 0 <= k < c2.len() implies #[trigger] link_at(m2, bb, c2, k) by {
        let k1 = if k < p { k } else { k + 1 };
        assert(link_at(m, bb, c, k1));
        assert(c2[k] == c[k1]);
        assert(c[k1] != c[p]);
        if p > 0 {
            assert(link_at(m, bb, c, p - 1));
            if k1 != p - 1 {
                assert(c[k1] != c[p - 1]);
            }
        }
        if p + 1 < c.len() {
            assert(link_at(m, bb, c, p + 1));
            if k1 != p + 1 {
                assert(c[k1] != c[p + 1]);
            }
        }
        if p > 0 && p + 1 < c.len() {
            assert(c[p - 1] != c[p + 1]);
        }
    }
    assert(chain_ok(m2, blocks2[bb], bb, c2));
    assert forall|b: BBId| blocks2.dom().contains(b) implies #[trigger] chain_ok(
        m2,
        blocks2[b],
        b,
        chains2[b],
    ) by {
        if b != bb {
            assert(chain_ok(m, blocks[b], b, chains[b]));
            lemma_chain_frame(m, m2, blocks[b], blocks2[b], b, chains[b]);
        }
    }
    assert forall|i: InstId| m2.dom().contains(i) implies #[trigger] placed_ok(m2, blocks2, chains2, i) by {
        assert(placed_ok(m, blocks, chains, i));
        if i != x {
            assert(m2[i].bb == m[i].bb);
            if m[i].bb == bb {
                let k = c.index_of(i);
                c.index_of_first_ensures(i);
                if k < p {
                    assert(c2[k] == i);
                } else {
                    assert(c2[k - 1] == i);
                }
            } else if m[i].bb.is_null() {
                assert(m2[i] == m[i]);
            }
        }
    }
    assert(chains2.dom() =~= blocks2.dom());
}

/// The records with the instruction of the record `i` replaced.
pub open spec fn with_body(m: Map<InstId, Tac>, i: InstId, inst: crate::inst::Inst) -> Map<InstId, Tac> {
    m.insert(i, Tac { inst, bb: m[i].bb, prev: m[i].prev, next: m[i].next })
}

/// Replacing the instruction of a record changes no chain.
pub proof fn lemma_body_linked(
    m: Map<InstId, Tac>,
    blocks: Map<BBId, BasicBlock>,
    chains: Map<BBId, Seq<InstId>>,
    i: InstId,
    inst: crate::inst::Inst,
)
    requires
        linked(m, blocks, chains),
        m.dom().contains(i),
    ensures
        linked(with_body(m, i, inst), blocks, chains),
{
    let m2 = with_body(m, i, inst);
    assert(m2.dom() =~= m.dom());
    assert forall|bb: BBId| blocks.dom().contains(bb) implies #[trigger] chain_ok(
        m2,
        blocks[bb],
        bb,
        chains[bb],
    ) by {
        assert(chain_ok(m, blocks[bb], bb, chains[bb]));
        let c = chains[bb];
        assert forall|k: int| 0 <= k < c.len() implies #[trigger] link_at(m2, bb, c, k) by {
            assert(link_at(m, bb, c, k));
        }
    }
    assert forall|j: InstId| m2.dom().contains(j) implies #[trigger] placed_ok(m2, blocks, chains, j) by {
        assert(placed_ok(m, blocks, chains, j));
    }
}

/// The blocks with the branches of the block `bb` replaced.
pub open spec fn with_jumps(blocks: Map<BBId, BasicBlock>, bb: BBId, jumps: Vec<crate::inst::Branch>) -> Map<
    BBId,
    BasicBlock,
> {
    blocks.insert(
        bb,
        BasicBlock {
            head: blocks[bb].head,
            tail: blocks[bb].tail,
            prev: blocks[bb].prev,
            next: blocks[bb].next,
            jumps,
        },
    )
}

/// The blocks with the neighbours of the block `bb` replaced.
pub open spec fn with_neighbours(
    blocks: Map<BBId, BasicBlock>,
    bb: BBId,
    prev: Option<BBId>,
    next: Option<BBId>,
) -> Map<BBId, BasicBlock> {
    blocks.insert(
        bb,
        BasicBlock { head: blocks[bb].head, tail: blocks[bb].tail, prev, next, jumps: blocks[bb].jumps },
    )
}

/// Blocks that keep their ends keep their chains.
pub proof fn lemma_blocks_linked(
    m: Map<InstId, Tac>,
    blocks: Map<BBId, BasicBlock>,
    blocks2: Map<BBId, BasicBlock>,
    chains: Map<BBId, Seq<InstId>>,
)
    requires
        linked(m, blocks, chains),
        blocks2.dom() == blocks.dom(),
        forall|bb: BBId|
            blocks.dom().contains(bb) ==> (#[trigger] blocks2[bb]).head == blocks[bb].head && blocks2[bb].tail
                == blocks[bb].tail,
    ensures
        linked(m, blocks2, chains),
{
    assert forall|bb: BBId| blocks2.dom().contains(bb) implies #[trigger] chain_ok(
        m,
        blocks2[bb],
        bb,
        chains[bb],
    ) by {
        assert(chain_ok(m, blocks[bb], bb, chains[bb]));
        assert(blocks2[bb].head == blocks[bb].head);
        lemma_chain_frame(m, m, blocks[bb], blocks2[bb], bb, chains[bb]);
    }
    assert forall|j: InstId| m.dom().contains(j) implies #[trigger] placed_ok(m, blocks2, chains, j) by {
        assert(placed_ok(m, blocks, chains, j));
    }
}

/// True if `i` stands in `c` at a position from `from` up to, not
/// including, `to`.
pub open spec fn within(c: Seq<InstId>, from: int, to: int, i: InstId) -> bool {
    exists|k: int| 0 <= k < c.len() && from <= k < to && #[trigger] c[k] == i
}

/// The record `t` with its block replaced.
pub open spec fn moved(t: Tac, bb: BBId) -> Tac {
    Tac { inst: t.inst, bb, prev: t.prev, next: t.next }
}

/// The records after those at the positions from `from` up to `to` of `c`
/// were handed to the block `bb`.
pub open spec fn rehomed(m: Map<InstId, Tac>, c: Seq<InstId>, from: int, to: int, bb: BBId) -> Map<
    InstId,
    Tac,
> {
    Map::new(
        |i: InstId| m.dom().contains(i),
        |i: InstId|
            if within(c, from, to, i) {
                moved(m[i], bb)
            } else {
                m[i]
            },
    )
}

/// The records after the chain `c` was cut behind position `k`.
pub open spec fn cut(m: Map<InstId, Tac>, c: Seq<InstId>, k: int) -> Map<InstId, Tac> {
    with_prev(with_next(m, at(c, k), None), at(c, k + 1), None)
}

/// The records after the chain `c` was cut behind position `k` and the part
/// behind the cut was handed to the block `bb`.
pub open spec fn split_off(m: Map<InstId, Tac>, c: Seq<InstId>, k: int, bb: BBId) -> Map<InstId, Tac> {
    rehomed(cut(m, c, k), c, k + 1, c.len() as int, bb)
}

/// The records after the chain `cb` was linked behind the chain `cf`.
pub open spec fn glued(m: Map<InstId, Tac>, cf: Seq<InstId>, cb: Seq<InstId>) -> Map<InstId, Tac> {
    if cf.len() > 0 && cb.len() > 0 {
        with_prev(with_next(m, Some(cf[cf.len() - 1]), Some(cb[0])), Some(cb[0]), Some(cf[cf.len() - 1]))
    } else {
        m
    }
}

/// The records after the chain `cb` was linked behind the chain `cf` and
/// handed to the block `bb`.
pub open spec fn joined(m: Map<InstId, Tac>, cf: Seq<InstId>, cb: Seq<InstId>, bb: BBId) -> Map<
    InstId,
    Tac,
> {
    rehomed(glued(m, cf, cb), cb, 0, cb.len() as int, bb)
}

/// Handing one more record over extends the range of records handed over.
pub proof fn lemma_rehome_step(m: Map<InstId, Tac>, c: Seq<InstId>, from: int, q: int, bb: BBId)
    requires
        c.no_duplicates(),
        0 <= from <= q < c.len(),
        m.dom().contains(c[q]),
    ensures
        rehomed(m, c, from, q, bb).insert(c[q], moved(rehomed(m, c, from, q, bb)[c[q]], bb)) == rehomed(
            m,
            c,
            from,
            q + 1,
            bb,
        ),
        rehomed(m, c, from, q, bb)[c[q]] == m[c[q]],
        rehomed(m, c, from, from, bb) == m,
{
    let a = rehomed(m, c, from, q, bb);
    let b = rehomed(m, c, from, q + 1, bb);
    assert(!within(c, from, q, c[q]));
    assert forall|i: InstId| a.dom().contains(i) implies #[trigger] a.insert(c[q], moved(a[c[q]], bb))[i]
        == b[i] by {
        if i == c[q] {
            assert(within(c, from, q + 1, i));
        } else {
            if within(c, from, q, i) {
                let k = choose|k: int| 0 <= k < c.len() && from <= k < q && #[trigger] c[k] == i;
                assert(within(c, from, q + 1, i));
            }
            if within(c, from, q + 1, i) {
                let k = choose|k: int| 0 <= k < c.len() && from <= k < q + 1 && #[trigger] c[k] == i;
                assert(k != q);
                assert(within(c, from, q, i));
            }
        }
    }
    assert(a.insert(c[q], moved(a[c[q]], bb)) =~= b);
    assert(rehomed(m, c, from, from, bb) =~= m);
}

/// Cutting a chain behind position `k` and handing the part behind the cut
/// to a new block keeps the function linked.
pub proof fn lemma_split_linked(
    m: Map<InstId, Tac>,
    blocks: Map<BBId, BasicBlock>,
    chains: Map<BBId, Seq<InstId>>,
    bb: BBId,
    k: int,
    fresh: BBId,
    blocks2: Map<BBId, BasicBlock>,
)
    requires
        linked(m, blocks, chains),
        blocks.dom().contains(bb),
        0 <= k < chains[bb].len(),
        !blocks.dom().contains(fresh),
        !fresh.is_null(),
        blocks2.dom() == blocks.dom().insert(fresh),
        blocks2[bb].head == at(chains[bb], 0),
        blocks2[bb].tail == at(chains[bb], k),
        blocks2[fresh].head == at(chains[bb], k + 1),
        blocks2[fresh].tail == (if k + 1 < chains[bb].len() {
            at(chains[bb], chains[bb].len() - 1)
        } else {
            None
        }),
        forall|b: BBId|
            blocks.dom().contains(b) && b != bb ==> (#[trigger] blocks2[b]).head == blocks[b].head
                && blocks2[b].tail == blocks[b].tail,
    ensures
        linked(
            split_off(m, chains[bb], k, fresh),
            blocks2,
            chains.insert(bb, chains[bb].subrange(0, k + 1)).insert(
                fresh,
                chains[bb].subrange(k + 1, chains[bb].len() as int),
            ),
        ),
{
    let c = chains[bb];
    let n = c.len() as int;
    let c1 = c.subrange(0, k + 1);
    let c2 = c.subrange(k + 1, n);
    let mc = cut(m, c, k);
    let m2 = split_off(m, c, k, fresh);
    let chains2 = chains.insert(bb, c1).insert(fresh, c2);
    assert(chain_ok(m, blocks[bb], bb, c));
    assert forall|q: int| 0 <= q < n implies m.dom().contains(#[trigger] c[q]) && m[c[q]].bb == bb by {
        assert(link_at(m, bb, c, q));
    }
    assert(mc.dom() =~= m.dom());
    assert(m2.dom() =~= m.dom());
    assert(chains2.dom() =~= blocks2.dom());
    assert forall|q: int| 0 <= q < n implies (#[trigger] within(c, k + 1, n, c[q]) <==> q > k) by {
        if within(c, k + 1, n, c[q]) {
            let j = choose|j: int| 0 <= j < c.len() && k + 1 <= j < n && #[trigger] c[j] == c[q];
            assert(j == q);
        }
    }
    assert forall|q: int| 0 <= q < c1.len() implies #[trigger] link_at(m2, bb, c1, q) by {
        assert(link_at(m, bb, c, q));
        assert(c1[q] == c[q]);
        assert(!within(c, k + 1, n, c[q]));
        if q != k {
            assert(c[q] != c[k]);
        }
        if k + 1 < n {
            assert(c[q] != c[k + 1]);
        }
    }
    assert forall|q: int| 0 <= q < c2.len() implies #[trigger] link_at(m2, fresh, c2, q) by {
        assert(link_at(m, bb, c, k + 1 + q));
        assert(c2[q] == c[k + 1 + q]);
        assert(within(c, k + 1, n, c[k + 1 + q]));
        assert(c[k + 1 + q] != c[k]);
        if q != 0 {
            assert(c[k + 1 + q] != c[k + 1]);
        }
    }
    assert(c1.no_duplicates());
    assert(c2.no_duplicates());
    assert forall|b: BBId| blocks2.dom().contains(b) implies #[trigger] chain_ok(
        m2,
        blocks2[b],
        b,
        chains2[b],
    ) by {
        if b != bb && b != fresh {
            assert(chain_ok(m, blocks[b], b, chains[b]));
            assert forall|i: InstId| m.dom().contains(i) && m[i].bb == b implies m2.dom().contains(i)
                && #[trigger] m2[i] == m[i] by {
                if within(c, k + 1, n, i) {
                    let j = choose|j: int| 0 <= j < c.len() && k + 1 <= j < n && #[trigger] c[j] == i;
                }
            }
            lemma_chain_frame(m, m2, blocks[b], blocks2[b], b, chains[b]);
        }
    }
    assert forall|i: InstId| m2.dom().contains(i) implies #[trigger] placed_ok(m2, blocks2, chains2, i) by {
        assert(placed_ok(m, blocks, chains, i));
        if m[i].bb == bb {
            let q = c.index_of(i);
            c.index_of_first_ensures(i);
            if q > k {
                assert(within(c, k + 1, n, c[q]));
                assert(c2[q - k - 1] == i);
            } else {
                assert(!within(c, k + 1, n, c[q]));
                assert(c1[q] == i);
            }
        } else {
            if within(c, k + 1, n, i) {
                let j = choose|j: int| 0 <= j < c.len() && k + 1 <= j < n && #[trigger] c[j] == i;
            }
            assert(m2[i] == m[i]);
        }
    }
}

/// Linking the chain of `back` behind the chain of `front` and handing it
/// to `front` keeps the function linked; `back` is then empty.
pub proof fn lemma_join_linked(
    m: Map<InstId, Tac>,
    blocks: Map<BBId, BasicBlock>,
    chains: Map<BBId, Seq<InstId>>,
    front: BBId,
    back: BBId,
    blocks2: Map<BBId, BasicBlock>,
)
    requires
        linked(m, blocks, chains),
        blocks.dom().contains(front),
        blocks.dom().contains(back),
        front != back,
        blocks2.dom() == blocks.dom(),
        blocks2[front].head == at(chains[front] + chains[back], 0),
        blocks2[front].tail == at(chains[front] + chains[back], (chains[front] + chains[back]).len() - 1),
        blocks2[back].head.is_none(),
        blocks2[back].tail.is_none(),
        forall|b: BBId|
            blocks.dom().contains(b) && b != front && b != back ==> (#[trigger] blocks2[b]).head
                == blocks[b].head && blocks2[b].tail == blocks[b].tail,
    ensures
        linked(
            joined(m, chains[front], chains[back], front),
            blocks2,
            chains.insert(front, chains[front] + chains[back]).insert(back, Seq::empty()),
        ),
{
    let cf = chains[front];
    let cb = chains[back];
    let nf = cf.len() as int;
    let nb = cb.len() as int;
    let c = cf + cb;
    let mg = glued(m, cf, cb);
    let m2 = joined(m, cf, cb, front);
    let chains2 = chains.insert(front, c).insert(back, Seq::<InstId>::empty());
    assert(chain_ok(m, blocks[front], front, cf));
    assert(chain_ok(m, blocks[back], back, cb));
    assert forall|q: int| 0 <= q < nf implies m.dom().contains(#[trigger] cf[q]) && m[cf[q]].bb == front by {
        assert(link_at(m, front, cf, q));
    }
    assert forall|q: int| 0 <= q < nb implies m.dom().contains(#[trigger] cb[q]) && m[cb[q]].bb == back by {
        assert(link_at(m, back, cb, q));
    }
    assert(mg.dom() =~= m.dom());
    assert(m2.dom() =~= m.dom());
    assert(chains2.dom() =~= blocks2.dom());
    assert forall|i: InstId| m.dom().contains(i) implies (#[trigger] within(cb, 0, nb, i) <==> m[i].bb
        == back) by {
        assert(placed_ok(m, blocks, chains, i));
        if within(cb, 0, nb, i) {
            let j = choose|j: int| 0 <= j < cb.len() && 0 <= j < nb && #[trigger] cb[j] == i;
        }
        if m[i].bb == back {
            let q = cb.index_of(i);
            cb.index_of_first_ensures(i);
            assert(cb[q] == i);
        }
    }
    assert(c.no_duplicates()) by {
        assert forall|i: int, j: int| 0 <= i < c.len() && 0 <= j < c.len() && i != j implies c[i] != c[j] by {
            if i < nf && j < nf {
                assert(cf[i] != cf[j]);
            } else if i >= nf && j >= nf {
                assert(cb[i - nf] != cb[j - nf]);
            } else if i < nf {
                assert(m[cf[i]].bb == front && m[cb[j - nf]].bb == back);
            } else {
                assert(m[cf[j]].bb == front && m[cb[i - nf]].bb == back);
            }
        }
    }
    assert forall|q: int| 0 <= q < c.len() implies #[trigger] link_at(m2, front, c, q) by {
        if q < nf {
            assert(c[q] == cf[q]);
            assert(link_at(m, front, cf, q));
            if q != nf - 1 {
                assert(cf[q] != cf[nf - 1]);
            }
            if q + 1 < nf {
                assert(c[q + 1] == cf[q + 1]);
            } else if nb > 0 {
                assert(c[q + 1] == cb[0]);
            }
            if q > 0 {
                assert(c[q - 1] == cf[q - 1]);
            }
        } else {
            let r = q - nf;
            assert(c[q] == cb[r]);
            assert(link_at(m, back, cb, r));
            if r != 0 {
                assert(cb[r] != cb[0]);
                assert(c[q - 1] == cb[r - 1]);
            } else if nf > 0 {
                assert(c[q - 1] == cf[nf - 1]);
            }
            if r + 1 < nb {
                assert(c[q + 1] == cb[r + 1]);
            }
        }
    }
    assert forall|b: BBId| blocks2.dom().contains(b) implies #[trigger] chain_ok(
        m2,
        blocks2[b],
        b,
        chains2[b],
    ) by {
        if b != front && b != back {
            assert(chain_ok(m, blocks[b], b, chains[b]));
            lemma_chain_frame(m, m2, blocks[b], blocks2[b], b, chains[b]);
        }
    }
    assert forall|i: InstId| m2.dom().contains(i) implies #[trigger] placed_ok(m2, blocks2, chains2, i) by {
        assert(placed_ok(m, blocks, chains, i));
        if m[i].bb == back {
            let q = cb.index_of(i);
            cb.index_of_first_ensures(i);
            assert(c[nf + q] == i);
        } else if m[i].bb == front {
            let q = cf.index_of(i);
            cf.index_of_first_ensures(i);
            assert(c[q] == i);
        } else {
            assert(m2[i] == m[i]);
        }
    }
}

} // verus!
