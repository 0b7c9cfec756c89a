//! The tables that the construction of SSA form keeps: which instruction
//! defines a variable at the end of a block, and sets of blocks.

use vstd::prelude::*;
use crate::handle::{BBId, InstId};
use crate::ty::Ty;

verus! {

/// A variable of the source program: a number that tells it from the other
/// variables, and its type.
#[derive(Clone, Copy, Debug, PartialEq, Eq, Hash, Structural)]
pub struct Variable {
    pub id: u32,
    pub ty: Ty,
}

/// One entry of the table of definitions.
#[derive(Clone, Copy, Debug, PartialEq, Eq, Structural)]
pub struct Def {
    pub var: Variable,
    pub bb: BBId,
    pub inst: InstId,
}

/// True if some entry of `s` is for `var` in `bb`.
pub open spec fn has_def(s: Seq<Def>, var: Variable, bb: BBId) -> bool {
    exists|i: int| 0 <= i < s.len() && (#[trigger] s[i]).var == var && s[i].bb == bb
}

/// The position of an entry of `s` for `var` in `bb`.
pub open spec fn def_index(s: Seq<Def>, var: Variable, bb: BBId) -> int {
    choose|i: int| 0 <= i < s.len() && (#[trigger] s[i]).var == var && s[i].bb == bb
}

/// True if no two entries of `s` are for the same variable in the same
/// block.
pub open spec fn defs_distinct(s: Seq<Def>) -> bool {
    forall|i: int, j: int|
        0 <= i < s.len() && 0 <= j < s.len() && i != j ==> !((#[trigger] s[i]).var == (#[trigger] s[j]).var
            && s[i].bb == s[j].bb)
}

/// The mapping that a list of entries stands for.
pub open spec fn defs_map(s: Seq<Def>) -> Map<(Variable, BBId), InstId> {
    Map::new(|k: (Variable, BBId)| has_def(s, k.0, k.1), |k: (Variable, BBId)| s[def_index(s, k.0, k.1)].inst)
}

/// `inst` with `from` turned into `to`.
pub open spec fn rerouted(inst: InstId, from: InstId, to: InstId) -> InstId {
    if inst == from {
        to
    } else {
        inst
    }
}

/// With distinct keys, the entry at `i` is the one the mapping holds for its
/// key.
pub proof fn lemma_def_at(s: Seq<Def>, i: int)
    requires
        defs_distinct(s),
        0 <= i < s.len(),
    ensures
        has_def(s, s[i].var, s[i].bb),
        def_index(s, s[i].var, s[i].bb) == i,
        defs_map(s).dom().contains((s[i].var, s[i].bb)),
        defs_map(s)[(s[i].var, s[i].bb)] == s[i].inst,
{
    let j = def_index(s, s[i].var, s[i].bb);
    assert(0 <= j < s.len() && s[j].var == s[i].var && s[j].bb == s[i].bb);
}

/// The table of definitions: for a variable and a block, the instruction
/// that holds the value of the variable at the end of the block.
#[derive(Debug)]
pub struct DefTable {
    pub entries: Vec<Def>,
}

impl View for DefTable {
    type V = Map<(Variable, BBId), InstId>;

    open spec fn view(&self) -> Map<(Variable, BBId), InstId> {
        defs_map(self.entries@)
    }
}

impl DefTable {
    /// No variable in a block has two entries.
    pub open spec fn wf(&self) -> bool {
        defs_distinct(self.entries@)
    }

    /// A table without entries.
    pub fn new() -> (r: DefTable)
        ensures
            r.wf(),
            r@ == Map::<(Variable, BBId), InstId>::empty(),
    {
        let r = DefTable { entries: Vec::new() };
        assert(r@ =~= Map::<(Variable, BBId), InstId>::empty());
        r
    }

    /// The definition of `var` in `bb`, if there is one.
    pub fn get(&self, var: Variable, bb: BBId) -> (r: Option<InstId>)
        requires
            self.wf(),
        ensures
            r == (if self@.dom().contains((var, bb)) {
                Some(self@[(var, bb)])
            } else {
                None
            }),
    {
        let mut i: usize = 0;
        while i < self.entries.len()
            invariant
                i <= self.entries@.len(),
                self.wf(),
                forall|k: int| 0 <= k < i ==> !((#[trigger] self.entries@[k]).var == var && self.entries@[k].bb == bb),
            decreases self.entries.len() - i,
        {
            let e = self.entries[i];
            if e.var == var && e.bb == bb {
                proof {
                    lemma_def_at(self.entries@, i as int);
                }
                return Some(e.inst);
            }
            i += 1;
        }
        None
    }

    /// Makes `inst` the definition of `var` in `bb`.
    pub fn set(&mut self, var: Variable, bb: BBId, inst: InstId)
        requires
            old(self).wf(),
        ensures
            final(self).wf(),
            final(self)@ == old(self)@.insert((var, bb), inst),
    {
        let ghost before = self.entries@;
        let mut i: usize = 0;
        while i < self.entries.len()
            invariant
                i <= self.entries@.len(),
                self.entries@ == before,
                old(self).entries@ == before,
                defs_distinct(before),
                forall|k: int| 0 <= k < i ==> !((#[trigger] before[k]).var == var && before[k].bb == bb),
            decreases self.entries.len() - i,
        {
            let e = self.entries[i];
            if e.var == var && e.bb == bb {
                self.entries[i] = Def { var, bb, inst };
                proof {
                    let after = self.entries@;
                    assert(defs_distinct(after)) by {
                        assert forall|a: int, b: int|
                            0 <= a < after.len() && 0 <= b < after.len() && a != b implies !((
                        #[trigger] after[a]).var == (#[trigger] after[b]).var && after[a].bb == after[b].bb) by {
                            assert(before[a].var == after[a].var && before[a].bb == after[a].bb);
                            assert(before[b].var == after[b].var && before[b].bb == after[b].bb);
                        }
                    }
                    assert forall|k: (Variable, BBId)| has_def(after, k.0, k.1) <==> has_def(
                        before,
                        k.0,
                        k.1,
                    ) by {
                        if has_def(after, k.0, k.1) {
                            let j = def_index(after, k.0, k.1);
                            assert(before[j].var == k.0 && before[j].bb == k.1);
                        }
                        if has_def(before, k.0, k.1) {
                            let j = def_index(before, k.0, k.1);
                            assert(after[j].var == k.0 && after[j].bb == k.1);
                        }
                    }
                    lemma_def_at(before, i as int);
                    assert forall|k: (Variable, BBId)| has_def(after, k.0, k.1) implies #[trigger] defs_map(
                        after,
                    )[k] == defs_map(before).insert((var, bb), inst)[k] by {
                        let j = def_index(after, k.0, k.1);
                        lemma_def_at(after, j);
                        assert(before[j].var == k.0 && before[j].bb == k.1);
                        lemma_def_at(before, j);
                    }
                    assert(defs_map(after) =~= defs_map(before).insert((var, bb), inst));
                }
                return ;
            }
            i += 1;
        }
        self.entries.push(Def { var, bb, inst });
        proof {
            let after = self.entries@;
            let n = before.len() as int;
            assert(defs_distinct(after)) by {
                assert forall|a: int, b: int|
                    0 <= a < after.len() && 0 <= b < after.len() && a != b implies !((#[trigger] after[a]).var
                        == (#[trigger] after[b]).var && after[a].bb == after[b].bb) by {
                    if a < n && b < n {
                        assert(before[a] == after[a] && before[b] == after[b]);
                    } else if a < n {
                        assert(before[a] == after[a]);
                    } else {
                        assert(before[b] == after[b]);
                    }
                }
            }
            assert(!has_def(before, var, bb));
            assert forall|k: (Variable, BBId)| has_def(after, k.0, k.1) <==> (has_def(before, k.0, k.1) || k
                == (var, bb)) by {
                if has_def(after, k.0, k.1) {
                    let j = def_index(after, k.0, k.1);
                    if j < n {
                        assert(before[j] == after[j]);
                    }
                }
                if has_def(before, k.0, k.1) {
                    let j = def_index(before, k.0, k.1);
                    assert(after[j] == before[j]);
                }
                if k == (var, bb) {
                    assert(after[n].var == var && after[n].bb == bb);
                }
            }
            assert forall|k: (Variable, BBId)| has_def(after, k.0, k.1) implies #[trigger] defs_map(after)[k]
                == defs_map(before).insert((var, bb), inst)[k] by {
                let j = def_index(after, k.0, k.1);
                lemma_def_at(after, j);
                if j < n {
                    assert(before[j] == after[j]);
                    lemma_def_at(before, j);
                }
            }
            assert(defs_map(after) =~= defs_map(before).insert((var, bb), inst));
        }
    }

    /// Turns every definition that is `from` into `to`.
    pub fn reroute(&mut self, from: InstId, to: InstId)
        requires
            old(self).wf(),
        ensures
            final(self).wf(),
            final(self)@.dom() == old(self)@.dom(),
            forall|k: (Variable, BBId)|
                old(self)@.dom().contains(k) ==> #[trigger] final(self)@[k] == rerouted(old(self)@[k], from, to),
    {
        let ghost before = self.entries@;
        let mut i: usize = 0;
        while i < self.entries.len()
            invariant
                i <= self.entries@.len(),
                self.entries@.len() == before.len(),
                old(self).entries@ == before,
                defs_distinct(before),
                forall|k: int|
                    0 <= k < before.len() ==> (#[trigger] self.entries@[k]).var == before[k].var
                        && self.entries@[k].bb == before[k].bb && self.entries@[k].inst == (if k < i {
                        rerouted(before[k].inst, from, to)
                    } else {
                        before[k].inst
                    }),
            decreases self.entries.len() - i,
        {
            let e = self.entries[i];
            if e.inst == from {
                self.entries[i] = Def { var: e.var, bb: e.bb, inst: to };
            }
            i += 1;
        }
        proof {
            let after = self.entries@;
            assert(defs_distinct(after)) by {
                assert forall|a: int, b: int|
                    0 <= a < after.len() && 0 <= b < after.len() && a != b implies !((#[trigger] after[a]).var
                        == (#[trigger] after[b]).var && after[a].bb == after[b].bb) by {
                    assert(before[a].var == after[a].var && before[a].bb == after[a].bb);
                    assert(before[b].var == after[b].var && before[b].bb == after[b].bb);
                }
            }
            assert forall|k: (Variable, BBId)| has_def(after, k.0, k.1) <==> has_def(before, k.0, k.1) by {
                if has_def(after, k.0, k.1) {
                    let j = def_index(after, k.0, k.1);
                    assert(before[j].var == k.0 && before[j].bb == k.1);
                }
                if has_def(before, k.0, k.1) {
                    let j = def_index(before, k.0, k.1);
                    assert(after[j].var == k.0 && after[j].bb == k.1);
                }
            }
            assert(defs_map(after).dom() =~= defs_map(before).dom());
            assert forall|k: (Variable, BBId)| defs_map(before).dom().contains(k) implies #[trigger] defs_map(
                after,
            )[k] == rerouted(defs_map(before)[k], from, to) by {
                let j = def_index(after, k.0, k.1);
                lemma_def_at(after, j);
                assert(before[j].var == k.0 && before[j].bb == k.1);
                lemma_def_at(before, j);
            }
        }
    }
}

/// A set of blocks.
#[derive(Debug)]
pub struct BlockSet {
    pub items: Vec<BBId>,
}

impl View for BlockSet {
    type V = Set<BBId>;

    open spec fn view(&self) -> Set<BBId> {
        self.items@.to_set()
    }
}

impl BlockSet {
    /// The empty set.
    pub fn new() -> (r: BlockSet)
        ensures
            r@ == Set::<BBId>::empty(),
    {
        let r = BlockSet { items: Vec::new() };
        assert(r@ =~= Set::<BBId>::empty());
        r
    }

    /// True if `bb` is in the set.
    pub fn contains(&self, bb: BBId) -> (r: bool)
        ensures
            r == self@.contains(bb),
    {
        let mut i: usize = 0;
        while i < self.items.len()
            invariant
                i <= self.items@.len(),
                forall|k: int| 0 <= k < i ==> self.items@[k] != bb,
            decreases self.items.len() - i,
        {
            if self.items[i] == bb {
                assert(self.items@.contains(bb));
                return true;
            }
            i += 1;
        }
        assert(!self.items@.contains(bb));
        false
    }

    /// Puts `bb` into the set. Returns whether it was new.
    pub fn insert(&mut self, bb: BBId) -> (r: bool)
        ensures
            final(self)@ == old(self)@.insert(bb),
            r == !old(self)@.contains(bb),
    {
        if self.contains(bb) {
            assert(self@ =~= old(self)@.insert(bb));
            return false;
        }
        let ghost before = self.items@;
        self.items.push(bb);
        proof {
            assert forall|x: BBId| self.items@.contains(x) <==> before.contains(x) || x == bb by {
                if self.items@.contains(x) {
                    let k = choose|k: int| 0 <= k < self.items@.len() && self.items@[k] == x;
                    if k < before.len() {
                        assert(before[k] == x);
                    }
                }
                if before.contains(x) {
                    let k = choose|k: int| 0 <= k < before.len() && before[k] == x;
                    assert(self.items@[k] == x);
                }
                if x == bb {
                    assert(self.items@[before.len() as int] == x);
                }
            }
            assert(self@ =~= old(self)@.insert(bb));
        }
        true
    }
}

} // verus!
