//! Short lists of blocks, held in `tinyvec::TinyVec`: a list of at most 16
//! blocks needs no allocation.
//!
//! Verus does not look inside the list: what it holds is named by
//! [`small_bbs`], and the four functions that wrap `TinyVec` state, without
//! proof, what its operations do to that content.

use vstd::prelude::*;
use tinyvec::TinyVec;
use crate::handle::BBId;

verus! {

/// A list of blocks, held in a `tinyvec::TinyVec` with room for 16 blocks
/// before it allocates. The verifier does not look inside it.
#[verifier::external_body]
pub struct SmallBBIdVec {
    inner: TinyVec<[BBId; 16]>,
}

/// The blocks that a list holds, in order.
pub uninterp spec fn small_bbs(v: SmallBBIdVec) -> Seq<BBId>;

/// `TinyVec::new`: the new list holds nothing.
#[verifier::external_body]
fn small_new() -> (r: SmallBBIdVec)
    ensures
        small_bbs(r) == Seq::<BBId>::empty(),
{
    SmallBBIdVec { inner: TinyVec::new() }
}

/// `TinyVec::push`: the list holds one more element, at its end.
#[verifier::external_body]
fn small_push(v: &mut SmallBBIdVec, bb: BBId)
    ensures
        small_bbs(*final(v)) == small_bbs(*old(v)).push(bb),
{
    v.inner.push(bb)
}

/// `TinyVec::len`: the number of elements held.
#[verifier::external_body]
fn small_len(v: &SmallBBIdVec) -> (n: usize)
    ensures
        n == small_bbs(*v).len(),
{
    v.inner.len()
}

/// `TinyVec::as_slice`, indexed: the element at position `i`. Indexing
/// panics past the end.
#[verifier::external_body]
fn small_get(v: &SmallBBIdVec, i: usize) -> (bb: BBId)
    requires
        i < small_bbs(*v).len(),
    ensures
        bb == small_bbs(*v)[i as int],
{
    v.inner.as_slice()[i]
}

impl View for SmallBBIdVec {
    type V = Seq<BBId>;

    open spec fn view(&self) -> Seq<BBId> {
        small_bbs(*self)
    }
}

impl SmallBBIdVec {
    /// A list without elements.
    pub fn new() -> (r: SmallBBIdVec)
        ensures
            r@ == Seq::<BBId>::empty(),
    {
        small_new()
    }

    /// Adds `bb` at the end of the list.
    pub fn push(&mut self, bb: BBId)
        ensures
            final(self)@ == old(self)@.push(bb),
    {
        small_push(self, bb)
    }

    /// The number of elements.
    pub fn len(&self) -> (n: usize)
        ensures
            n == self@.len(),
    {
        small_len(self)
    }

    /// The element at position `i`, if there is one.
    pub fn get(&self, i: usize) -> (r: Option<BBId>)
        ensures
            r == (if i < self@.len() {
                Some(self@[i as int])
            } else {
                None
            }),
    {
        if i < small_len(self) {
            Some(small_get(self, i))
        } else {
            None
        }
    }

    /// The elements in order.
    pub fn to_vec(&self) -> (r: Vec<BBId>)
        ensures
            r@ == self@,
    {
        let n = small_len(self);
        let mut r: Vec<BBId> = Vec::new();
        let mut i: usize = 0;
        while i < n
            invariant
                i <= n,
                n == self@.len(),
                r@ == self@.subrange(0, i as int),
            decreases n - i,
        {
            r.push(small_get(self, i));
            i += 1;
            proof {
                assert(r@ =~= self@.subrange(0, i as int));
            }
        }
        proof {
            assert(self@.subrange(0, n as int) =~= self@);
        }
        r
    }
}

} // verus!
