//! The operand table of a phi instruction.

use vstd::prelude::*;
use crate::handle::{BBId, InstId};

verus! {

/// True if the keys of `s` strictly increase.
pub open spec fn keys_increase(s: Seq<(BBId, InstId)>) -> bool {
    forall|i: int, j: int| 0 <= i < j < s.len() ==> (#[trigger] s[i]).0.bits < (#[trigger] s[j]).0.bits
}

/// True if some entry of `s` has the key `bb`.
pub open spec fn has_key(s: Seq<(BBId, InstId)>, bb: BBId) -> bool {
    exists|i: int| 0 <= i < s.len() && (#[trigger] s[i]).0 == bb
}

/// The position of the first entry of `s` with the key `bb`.
pub open spec fn key_index(s: Seq<(BBId, InstId)>, bb: BBId) -> int {
    choose|i: int| 0 <= i < s.len() && (#[trigger] s[i]).0 == bb
}

/// The mapping that a list of entries stands for.
pub open spec fn entries_map(s: Seq<(BBId, InstId)>) -> Map<BBId, InstId> {
    Map::new(|bb: BBId| has_key(s, bb), |bb: BBId| s[key_index(s, bb)].1)
}

/// `s` with every value that is `from` turned into `to`.
pub open spec fn renamed_entries(s: Seq<(BBId, InstId)>, from: InstId, to: InstId) -> Seq<(BBId, InstId)> {
    Seq::new(
        s.len(),
        |i: int|
            (
                s[i].0,
                if s[i].1 == from {
                    to
                } else {
                    s[i].1
                },
            ),
    )
}

/// True if some entry of `s` has the value `inst`.
pub open spec fn has_value(s: Seq<(BBId, InstId)>, inst: InstId) -> bool {
    exists|i: int| 0 <= i < s.len() && (#[trigger] s[i]).1 == inst
}

/// The operands of a phi instruction: for each predecessor block, the
/// instruction whose value arrives from it. Entries are kept in increasing
/// order of the block handle, so no block occurs twice.
#[derive(Debug, PartialEq, Eq)]
pub struct PhiOperands {
    entries: Vec<(BBId, InstId)>,
}

impl View for PhiOperands {
    type V = Map<BBId, InstId>;

    closed spec fn view(&self) -> Map<BBId, InstId> {
        entries_map(self.entries@)
    }
}

impl Clone for PhiOperands {
    fn clone(&self) -> (r: PhiOperands)
        ensures
            r@ == self@,
            r.entries() == self.entries(),
    {
        proof {
            use_type_invariant(self);
        }
        let mut v: Vec<(BBId, InstId)> = Vec::new();
        let mut k: usize = 0;
        while k < self.entries.len()
            invariant
                k <= self.entries@.len(),
                v@ == self.entries@.subrange(0, k as int),
            decreases self.entries.len() - k,
        {
            v.push(self.entries[k]);
            k += 1;
            assert(v@ =~= self.entries@.subrange(0, k as int));
        }
        assert(v@ =~= self.entries@);
        PhiOperands { entries: v }
    }
}

impl PhiOperands {
    #[verifier::type_invariant]
    spec fn ordered(self) -> bool {
        keys_increase(self.entries@)
    }

    /// The entries in the order in which they are stored.
    pub closed spec fn entries(&self) -> Seq<(BBId, InstId)> {
        self.entries@
    }

    /// A table without operands.
    pub fn new() -> (r: PhiOperands)
        ensures
            r@ == Map::<BBId, InstId>::empty(),
            r.entries() == Seq::<(BBId, InstId)>::empty(),
    {
        let r = PhiOperands { entries: Vec::new() };
        assert(r@ =~= Map::<BBId, InstId>::empty());
        r
    }

    /// The number of operands.
    pub fn len(&self) -> (r: usize)
        ensures
            r == self@.dom().len(),
            r == self.entries().len(),
            self@.dom().finite(),
            keys_increase(self.entries()),
            self@ == entries_map(self.entries()),
    {
        proof {
            use_type_invariant(self);
            lemma_entries_len(self.entries@);
        }
        self.entries.len()
    }

    /// The `i`-th entry in key order.
    pub fn entry(&self, i: usize) -> (r: (BBId, InstId))
        requires
            i < self.entries().len(),
        ensures
            r == self.entries()[i as int],
            self@.dom().contains(r.0),
            self@[r.0] == r.1,
    {
        proof {
            use_type_invariant(self);
            lemma_entry_in_map(self.entries@, i as int);
        }
        self.entries[i]
    }

    /// Turns every operand that is `from` into `to`. Returns whether there
    /// was one.
    pub fn rename(&mut self, from: InstId, to: InstId) -> (changed: bool)
        ensures
            final(self).entries() == renamed_entries(old(self).entries(), from, to),
            final(self)@.dom() == old(self)@.dom(),
            changed == has_value(old(self).entries(), from),
    {
        proof {
            use_type_invariant(&*self);
        }
        let ghost before = self.entries@;
        let n = self.entries.len();
        let mut v: Vec<(BBId, InstId)> = Vec::new();
        let mut changed = false;
        let mut k: usize = 0;
        while k < n
            invariant
                k <= n,
                n == before.len(),
                self.entries@ == before,
                v@ == renamed_entries(before, from, to).subrange(0, k as int),
                changed == has_value(before.subrange(0, k as int), from),
            decreases n - k,
        {
            let e = self.entries[k];
            let ghost seen = before.subrange(0, k as int);
            if e.1 == from {
                v.push((e.0, to));
                changed = true;
                proof {
                    assert(before.subrange(0, k + 1)[k as int].1 == from);
                }
            } else {
                v.push(e);
                proof {
                    let wider = before.subrange(0, k + 1);
                    if has_value(wider, from) {
                        let i = choose|i: int| 0 <= i < wider.len() && (#[trigger] wider[i]).1 == from;
                        assert(seen[i].1 == from);
                    }
                    if has_value(seen, from) {
                        let i = choose|i: int| 0 <= i < k && (#[trigger] seen[i]).1 == from;
                        assert(before.subrange(0, k + 1)[i].1 == from);
                    }
                }
            }
            k += 1;
            proof {
                assert(v@ =~= renamed_entries(before, from, to).subrange(0, k as int));
            }
        }
        proof {
            let after = renamed_entries(before, from, to);
            assert(v@ =~= after);
            assert(before.subrange(0, n as int) =~= before);
            assert(keys_increase(after)) by {
                assert forall|i: int, j: int| 0 <= i < j < after.len() implies (#[trigger] after[i]).0.bits < (
                #[trigger] after[j]).0.bits by {
                    assert(before[i].0.bits < before[j].0.bits);
                }
            }
            assert forall|bb: BBId| has_key(after, bb) <==> has_key(before, bb) by {
                if has_key(after, bb) {
                    let i = key_index(after, bb);
                    assert(before[i].0 == bb);
                }
                if has_key(before, bb) {
                    let i = key_index(before, bb);
                    assert(after[i].0 == bb);
                }
            }
            assert(entries_map(after).dom() =~= entries_map(before).dom());
        }
        self.entries = v;
        changed
    }

    /// The operand that arrives from `bb`, if there is one.
    pub fn get(&self, bb: BBId) -> (r: Option<InstId>)
        ensures
            r == (if self@.dom().contains(bb) { Some(self@[bb]) } else { None }),
    {
        proof {
            use_type_invariant(self);
        }
        let mut i: usize = 0;
        while i < self.entries.len()
            invariant
                i <= self.entries@.len(),
                keys_increase(self.entries@),
                forall|k: int| 0 <= k < i ==> (#[trigger] self.entries@[k]).0 != bb,
            decreases self.entries.len() - i,
        {
            if self.entries[i].0 == bb {
                proof {
                    lemma_entry_in_map(self.entries@, i as int);
                }
                return Some(self.entries[i].1);
            }
            i += 1;
        }
        None
    }

    /// Sets the operand that arrives from `bb`, and returns the one it
    /// replaces.
    pub fn insert(&mut self, bb: BBId, inst: InstId) -> (r: Option<InstId>)
        ensures
            final(self)@ == old(self)@.insert(bb, inst),
            r == (if old(self)@.dom().contains(bb) { Some(old(self)@[bb]) } else { None }),
            forall|x: InstId|
                has_value(final(self).entries(), x) ==> x == inst || has_value(old(self).entries(), x),
    {
        proof {
            use_type_invariant(&*self);
        }
        let ghost before = self.entries@;
        let mut i: usize = 0;
        while i < self.entries.len() && self.entries[i].0.bits < bb.bits
            invariant
                i <= self.entries@.len(),
                self.entries@ == before,
                keys_increase(before),
                forall|k: int| 0 <= k < i ==> (#[trigger] before[k]).0.bits < bb.bits,
            decreases self.entries.len() - i,
        {
            i += 1;
        }
        let n = self.entries.len();
        let replaced = if i < n && self.entries[i].0 == bb {
            Some(self.entries[i].1)
        } else {
            None
        };
        let rest: usize = if replaced.is_some() { i + 1 } else { i };
        let mut v: Vec<(BBId, InstId)> = Vec::new();
        let mut k: usize = 0;
        while k < i
            invariant
                k <= i <= n,
                n == before.len(),
                self.entries@ == before,
                v@ == before.subrange(0, k as int),
            decreases i - k,
        {
            v.push(self.entries[k]);
            k += 1;
            assert(v@ =~= before.subrange(0, k as int));
        }
        v.push((bb, inst));
        let mut k: usize = rest;
        while k < n
            invariant
                i <= rest <= k <= n,
                n == before.len(),
                self.entries@ == before,
                v@ == before.subrange(0, i as int).push((bb, inst)) + before.subrange(rest as int, k as int),
            decreases n - k,
        {
            v.push(self.entries[k]);
            k += 1;
            assert(v@ =~= before.subrange(0, i as int).push((bb, inst)) + before.subrange(rest as int, k as int));
        }
        proof {
            if replaced.is_some() {
                lemma_entry_in_map(before, i as int);
                lemma_update_map(before, i as int, inst);
                assert(v@ =~= before.update(i as int, (bb, inst)));
            } else {
                lemma_insert_map(before, i as int, bb, inst);
                assert(v@ =~= before.insert(i as int, (bb, inst)));
            }
            assert forall|x: InstId| has_value(v@, x) implies x == inst || has_value(before, x) by {
                let k = choose|k: int| 0 <= k < v@.len() && (#[trigger] v@[k]).1 == x;
                if x != inst {
                    if replaced.is_some() {
                        assert(before[k].1 == x);
                    } else if k < i {
                        assert(before[k].1 == x);
                    } else {
                        assert(before[k - 1].1 == x);
                    }
                }
            }
        }
        self.entries = v;
        replaced
    }
}

/// The key of every entry of a table is a key of its mapping.
pub proof fn lemma_entry_key(ops: PhiOperands, k: int)
    requires
        0 <= k < ops.entries().len(),
    ensures
        ops@.dom().contains(ops.entries()[k].0),
{
    assert(ops.entries@[k].0 == ops.entries()[k].0);
}

/// The mapping of a table is the mapping that its entries stand for.
pub proof fn lemma_view_entries(ops: PhiOperands)
    ensures
        ops@ == entries_map(ops.entries()),
{
}

/// The operand that a table holds for a block is among its values.
pub proof fn lemma_value_of_key(ops: PhiOperands, bb: BBId)
    requires
        ops@.dom().contains(bb),
    ensures
        has_value(ops.entries(), ops@[bb]),
{
    let s = ops.entries();
    assert(has_key(s, bb));
    let i = key_index(s, bb);
    assert(s[i].1 == ops@[bb]);
}

/// A table whose mapping is empty has no entries.
pub proof fn lemma_no_entries(ops: PhiOperands)
    requires
        ops@ == Map::<BBId, InstId>::empty(),
    ensures
        ops.entries().len() == 0,
{
    let s = ops.entries();
    if s.len() > 0 {
        assert(has_key(s, s[0].0));
        assert(ops@.dom().contains(s[0].0));
    }
}

/// With increasing keys, the entry at `i` is the one the mapping holds for
/// its key.
pub proof fn lemma_entry_in_map(s: Seq<(BBId, InstId)>, i: int)
    requires
        keys_increase(s),
        0 <= i < s.len(),
    ensures
        has_key(s, s[i].0),
        key_index(s, s[i].0) == i,
        entries_map(s).dom().contains(s[i].0),
        entries_map(s)[s[i].0] == s[i].1,
{
    let j = key_index(s, s[i].0);
    assert(0 <= j < s.len() && s[j].0 == s[i].0);
    if j < i {
        assert(s[j].0.bits < s[i].0.bits);
    } else if i < j {
        assert(s[i].0.bits < s[j].0.bits);
    }
}

/// With increasing keys, the mapping has as many keys as the list has entries.
pub proof fn lemma_entries_len(s: Seq<(BBId, InstId)>)
    requires
        keys_increase(s),
    ensures
        entries_map(s).dom().finite(),
        entries_map(s).dom().len() == s.len(),
    decreases s.len(),
{
    if s.len() == 0 {
        assert(entries_map(s).dom() =~= Set::<BBId>::empty());
    } else {
        let t = s.drop_last();
        let last = s.last();
        assert(keys_increase(t)) by {
            assert forall|i: int, j: int| 0 <= i < j < t.len() implies (#[trigger] t[i]).0.bits < (#[trigger] t[j]).0.bits by {
                assert(t[i] == s[i] && t[j] == s[j]);
            }
        }
        lemma_entries_len(t);
        assert(!has_key(t, last.0)) by {
            if has_key(t, last.0) {
                let i = key_index(t, last.0);
                assert(t[i] == s[i]);
                assert(s[i].0.bits < s[s.len() - 1].0.bits);
            }
        }
        assert(entries_map(s).dom() =~= entries_map(t).dom().insert(last.0)) by {
            assert forall|bb: BBId| has_key(s, bb) <==> (has_key(t, bb) || bb == last.0) by {
                if has_key(s, bb) {
                    let i = key_index(s, bb);
                    if i < t.len() {
                        assert(t[i] == s[i]);
                    }
                }
                if has_key(t, bb) {
                    let i = key_index(t, bb);
                    assert(t[i] == s[i]);
                }
                if bb == last.0 {
                    assert(s[s.len() - 1].0 == bb);
                }
            }
        }
    }
}

/// Replacing the value of the entry at `i` sets that key in the mapping.
pub proof fn lemma_update_map(s: Seq<(BBId, InstId)>, i: int, inst: InstId)
    requires
        keys_increase(s),
        0 <= i < s.len(),
    ensures
        keys_increase(s.update(i, (s[i].0, inst))),
        entries_map(s.update(i, (s[i].0, inst))) == entries_map(s).insert(s[i].0, inst),
{
    let t = s.update(i, (s[i].0, inst));
    assert(keys_increase(t)) by {
        assert forall|a: int, b: int| 0 <= a < b < t.len() implies (#[trigger] t[a]).0.bits < (#[trigger] t[b]).0.bits by {
            assert(t[a].0 == s[a].0 && t[b].0 == s[b].0);
        }
    }
    assert forall|bb: BBId| has_key(t, bb) <==> has_key(s, bb) by {
        if has_key(t, bb) {
            let k = key_index(t, bb);
            assert(s[k].0 == bb);
        }
        if has_key(s, bb) {
            let k = key_index(s, bb);
            assert(t[k].0 == bb);
        }
    }
    assert forall|bb: BBId| has_key(t, bb) implies #[trigger] entries_map(t)[bb] == entries_map(s).insert(s[i].0, inst)[bb] by {
        let k = key_index(t, bb);
        lemma_entry_in_map(t, k);
        assert(s[k].0 == bb);
        lemma_entry_in_map(s, k);
    }
    assert(entries_map(t) =~= entries_map(s).insert(s[i].0, inst)) by {
        lemma_entry_in_map(s, i);
    }
}

/// Inserting a fresh key at its place in the order adds it to the mapping.
pub proof fn lemma_insert_map(s: Seq<(BBId, InstId)>, i: int, bb: BBId, inst: InstId)
    requires
        keys_increase(s),
        0 <= i <= s.len(),
        forall|k: int| 0 <= k < i ==> (#[trigger] s[k]).0.bits < bb.bits,
        i < s.len() ==> s[i].0 != bb && !(s[i].0.bits < bb.bits),
    ensures
        keys_increase(s.insert(i, (bb, inst))),
        !entries_map(s).dom().contains(bb),
        entries_map(s.insert(i, (bb, inst))) == entries_map(s).insert(bb, inst),
{
    let t = s.insert(i, (bb, inst));
    assert(forall|k: int| i <= k < s.len() ==> bb.bits < (#[trigger] s[k]).0.bits) by {
        assert forall|k: int| i <= k < s.len() implies bb.bits < (#[trigger] s[k]).0.bits by {
            if i < k {
                assert(s[i].0.bits < s[k].0.bits);
            }
        }
    }
    assert(keys_increase(t)) by {
        assert forall|a: int, b: int| 0 <= a < b < t.len() implies (#[trigger] t[a]).0.bits < (#[trigger] t[b]).0.bits by {
            if a < i {
                assert(t[a] == s[a]);
            } else if a > i {
                assert(t[a] == s[a - 1]);
            }
            if b < i {
                assert(t[b] == s[b]);
            } else if b > i {
                assert(t[b] == s[b - 1]);
            }
        }
    }
    assert(!has_key(s, bb)) by {
        if has_key(s, bb) {
            let k = key_index(s, bb);
            if k < i {
                assert(s[k].0.bits < bb.bits);
            } else {
                assert(bb.bits < s[k].0.bits);
            }
        }
    }
    assert forall|b: BBId| has_key(t, b) <==> (has_key(s, b) || b == bb) by {
        if has_key(t, b) {
            let k = key_index(t, b);
            if k < i {
                assert(s[k] == t[k]);
            } else if k > i {
                assert(s[k - 1] == t[k]);
            }
        }
        if has_key(s, b) {
            let k = key_index(s, b);
            if k < i {
                assert(t[k] == s[k]);
            } else {
                assert(t[k + 1] == s[k]);
            }
        }
        if b == bb {
            assert(t[i].0 == bb);
        }
    }
    assert forall|b: BBId| has_key(t, b) implies #[trigger] entries_map(t)[b] == entries_map(s).insert(bb, inst)[b] by {
        let k = key_index(t, b);
        lemma_entry_in_map(t, k);
        if k < i {
            assert(s[k] == t[k]);
            lemma_entry_in_map(s, k);
        } else if k > i {
            assert(s[k - 1] == t[k]);
            lemma_entry_in_map(s, k - 1);
        }
    }
    assert(entries_map(t) =~= entries_map(s).insert(bb, inst));
}

} // verus!
