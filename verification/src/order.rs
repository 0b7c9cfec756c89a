//! The order of the blocks of a function: a doubly linked list through the
//! blocks, entered at the function's first block.

use vstd::prelude::*;
use crate::arena::block_arena_get;
use crate::func::{FuncView, TacFunc};
use crate::handle::BBId;
use crate::linkedlist::connected;
use crate::handle::InstId;

verus! {

/// The two neighbours of each block.
pub type Order = Map<BBId, (Option<BBId>, Option<BBId>)>;

/// True if `i` names no block or one that the order knows.
pub open spec fn order_known(o: Order, i: Option<BBId>) -> bool {
    match i {
        Some(i) => o.dom().contains(i),
        None => true,
    }
}

/// `o` with the block before `i` replaced, if `i` names a block.
pub open spec fn order_with_prev(o: Order, i: Option<BBId>, prev: Option<BBId>) -> Order {
    match i {
        Some(i) => o.insert(i, (prev, o[i].1)),
        None => o,
    }
}

/// `o` with the block after `i` replaced, if `i` names a block.
pub open spec fn order_with_next(o: Order, i: Option<BBId>, next: Option<BBId>) -> Order {
    match i {
        Some(i) => o.insert(i, (o[i].0, next)),
        None => o,
    }
}

/// The order after `x` was spliced in behind `anchor`.
pub open spec fn order_attached_after(o: Order, anchor: BBId, x: BBId) -> Order {
    let after = o[anchor].1;
    order_with_prev(order_with_next(o.insert(x, (Some(anchor), after)), Some(anchor), Some(x)), after, Some(x))
}

/// The order after `x` was spliced in before `anchor`.
pub open spec fn order_attached_before(o: Order, anchor: BBId, x: BBId) -> Order {
    let before = o[anchor].0;
    order_with_next(order_with_prev(o.insert(x, (before, Some(anchor))), Some(anchor), Some(x)), before, Some(x))
}

/// The order after `x` was unlinked from its neighbours, which are linked to
/// each other instead.
pub open spec fn order_detached(o: Order, x: BBId) -> Order {
    let before = o[x].0;
    let after = o[x].1;
    order_with_prev(order_with_next(o, before, after), after, before).insert(x, (None, None))
}

/// The blocks met from `cur` on by going to the next block at most `fuel`
/// times, up to the first handle that names no block.
pub open spec fn order_walk(o: Order, cur: Option<BBId>, fuel: nat) -> Seq<BBId>
    decreases fuel,
{
    if fuel == 0 {
        Seq::empty()
    } else {
        match cur {
            Some(b) => if o.dom().contains(b) {
                seq![b] + order_walk(o, o[b].1, (fuel - 1) as nat)
            } else {
                Seq::empty()
            },
            None => Seq::empty(),
        }
    }
}

/// Where the walk through `c` from position `from` on stops: at the first
/// position that holds `end`, or behind the last position.
pub open spec fn stop_at(c: Seq<InstId>, from: int, end: Option<InstId>) -> int
    decreases c.len() - from,
{
    if from < 0 || from >= c.len() {
        c.len() as int
    } else if Some(c[from]) == end {
        from
    } else {
        stop_at(c, from + 1, end)
    }
}

/// Splicing a block without neighbours in before `x` and unlinking it again
/// gives back the order as it was, provided the block before `x`, if any,
/// points at `x`.
pub proof fn lemma_order_attach_before_detach(o: Order, x: BBId, y: BBId)
    requires
        o.dom().contains(x),
        o.dom().contains(y),
        x != y,
        o[y] == (None::<BBId>, None::<BBId>),
        order_known(o, o[x].0),
        o[x].0 != Some(x),
        o[x].0 != Some(y),
        o[x].0 matches Some(p) ==> o[p].1 == Some(x),
    ensures
        order_detached(order_attached_before(o, x, y), y) == o,
{
    assert(order_detached(order_attached_before(o, x, y), y) =~= o);
}

impl TacFunc {
    /// Puts the block `bb` directly before the block `before` in the order
    /// of blocks.
    pub fn bb_set_before(&mut self, before: BBId, bb: BBId)
        requires
            old(self).wf(),
            old(self).has_bb(before),
            old(self).has_bb(bb),
            order_known(old(self)@.order, old(self)@.order[before].0),
        ensures
            final(self).wf(),
            final(self)@ == (FuncView {
                order: order_attached_before(old(self)@.order, before, bb),
                ..old(self)@
            }),
    {
        proof {
            self.lemma_wf();
        }
        let p = self.bb_get(before).prev;
        self.bb_relink(bb, p, Some(before));
        let n = self.bb_get(before).next;
        proof {
            self.lemma_wf();
        }
        self.bb_relink(before, Some(bb), n);
        if let Some(p) = p {
            proof {
                self.lemma_wf();
            }
            let pp = self.bb_get(p).prev;
            self.bb_relink(p, pp, Some(bb));
        }
    }

    /// Puts the block `bb` directly behind the block `after` in the order of
    /// blocks.
    pub fn bb_set_after(&mut self, after: BBId, bb: BBId)
        requires
            old(self).wf(),
            old(self).has_bb(after),
            old(self).has_bb(bb),
            order_known(old(self)@.order, old(self)@.order[after].1),
        ensures
            final(self).wf(),
            final(self)@ == (FuncView {
                order: order_attached_after(old(self)@.order, after, bb),
                ..old(self)@
            }),
    {
        proof {
            self.lemma_wf();
        }
        let n = self.bb_get(after).next;
        self.bb_relink(bb, Some(after), n);
        let p = self.bb_get(after).prev;
        proof {
            self.lemma_wf();
        }
        self.bb_relink(after, p, Some(bb));
        if let Some(n) = n {
            proof {
                self.lemma_wf();
            }
            let nn = self.bb_get(n).next;
            self.bb_relink(n, Some(bb), nn);
        }
    }

    /// Takes the block `bb` out of the order of blocks and links its
    /// neighbours to each other.
    pub fn bb_detach(&mut self, bb: BBId)
        requires
            old(self).wf(),
            old(self).has_bb(bb),
            order_known(old(self)@.order, old(self)@.order[bb].0),
            order_known(old(self)@.order, old(self)@.order[bb].1),
        ensures
            final(self).wf(),
            final(self)@ == (FuncView { order: order_detached(old(self)@.order, bb), ..old(self)@ }),
    {
        proof {
            self.lemma_wf();
        }
        let b = self.bb_get(bb);
        let p = b.prev;
        let n = b.next;
        if let Some(p) = p {
            let pp = self.bb_get(p).prev;
            self.bb_relink(p, pp, n);
        }
        if let Some(n) = n {
            proof {
                self.lemma_wf();
            }
            let nn = self.bb_get(n).next;
            self.bb_relink(n, p, nn);
        }
        proof {
            self.lemma_wf();
        }
        self.bb_relink(bb, None, None);
    }

    /// The blocks in order, from the first block on. The walk ends at a
    /// block without successor, at a handle that names no block, or after as
    /// many steps as there are blocks.
    pub fn bb_iter(&self) -> (r: Vec<BBId>)
        ensures
            r@ == order_walk(self@.order, self@.first_block, self@.order.dom().len()),
    {
        let total = self.bb_count();
        let mut out: Vec<BBId> = Vec::new();
        let mut cur = self.first_block;
        let mut fuel: usize = total;
        let ghost o = self@.order;
        assert(o.dom() =~= self.blocks().dom());
        while fuel > 0 && cur.is_some()
            invariant
                o == self@.order,
                o.dom() == self.blocks().dom(),
                out@ + order_walk(o, cur, fuel as nat) == order_walk(o, self@.first_block, total as nat),
            decreases fuel,
        {
            let b = cur.unwrap();
            match block_arena_get(&self.basic_block_arena, b) {
                Some(block) => {
                    proof {
                        assert(out@.push(b) + order_walk(o, block.next, (fuel - 1) as nat) =~= out@ + (seq![b]
                            + order_walk(o, o[b].1, (fuel - 1) as nat)));
                    }
                    out.push(b);
                    cur = block.next;
                },
                None => {
                    cur = None;
                    proof {
                        assert(order_walk(o, None, (fuel - 1) as nat) =~= Seq::<BBId>::empty());
                    }
                },
            }
            fuel -= 1;
        }
        proof {
            assert(order_walk(o, cur, fuel as nat) =~= Seq::<BBId>::empty());
            assert(out@ + Seq::<BBId>::empty() =~= out@);
        }
        out
    }

    /// The instructions of a block from `start` on, up to `end` or, if
    /// `end` does not follow, to the end of the block. An instruction in
    /// no block has nothing behind it: from it on there is only itself,
    /// unless it is `end`. Without `start`, there are none.
    pub fn inst_iter(&self, start: Option<InstId>, end: Option<InstId>) -> (r: Vec<InstId>)
        requires
            self.wf(),
            start matches Some(s) ==> self.has_inst(s),
        ensures
            r@ == (match start {
                Some(s) => if self.home(s).is_null() {
                    if end == Some(s) {
                        Seq::empty()
                    } else {
                        seq![s]
                    }
                } else {
                    self.chain(self.home(s)).subrange(
                        self.pos(s),
                        stop_at(self.chain(self.home(s)), self.pos(s), end),
                    )
                },
                None => Seq::empty(),
            }),
    {
        let mut out: Vec<InstId> = Vec::new();
        let first = match start {
            Some(s) => s,
            None => {
                return out;
            },
        };
        if self.tac_get(first).bb.bits == 0 {
            if start != end {
                out.push(first);
                proof {
                    assert(out@ =~= seq![first]);
                }
            }
            return out;
        }
        let ghost bb = self.home(first);
        let ghost c = self.chain(bb);
        let ghost p = self.pos(first);
        let ghost mut k = p;
        let mut cur = start;
        proof {
            self.lemma_home(first);
            assert(c.subrange(p, p) =~= Seq::<InstId>::empty());
        }
        while cur.is_some() && cur != end
            invariant
                self.wf(),
                self.has_bb(bb),
                c == self.chain(bb),
                0 <= p <= k <= c.len(),
                cur == crate::chain::at(c, k),
                out@ == c.subrange(p, k),
                stop_at(c, k, end) == stop_at(c, p, end),
            decreases c.len() - k,
        {
            let i = cur.unwrap();
            proof {
                self.lemma_chain_at(bb, k);
            }
            out.push(i);
            cur = self.inst_next(i);
            proof {
                assert(out@ =~= c.subrange(p, k + 1));
                k = k + 1;
            }
        }
        out
    }

    /// Links the instruction `head` behind the instruction `tail`. The two
    /// must differ. Nothing else is changed: the caller answers for the
    /// chains.
    pub fn inst_connect(&mut self, tail: InstId, head: InstId)
        requires
            tail != head,
            old(self).has_inst(tail),
            old(self).has_inst(head),
        ensures
            final(self).insts() == connected(old(self).insts(), tail, head),
            final(self).blocks() == old(self).blocks(),
            final(self).header() == old(self).header(),
    {
        crate::linkedlist::connect(&mut self.instructions_arena, tail, head);
    }
}

} // verus!
