use vstd::prelude::*;
use crate::map::LinkedHashMap;

verus! {

/// A double-ended cursor over the node handles of a `LinkedHashMap`: it walks
/// the order links from the head forward and from the tail backward, and the
/// exact number of handles still to yield is known up front.
#[derive(Clone, Copy, Debug)]
pub struct IterNodes {
    pub(crate) head: usize,
    pub(crate) tail: usize,
    pub(crate) remaining: usize,
}

impl IterNodes {
    /// The handles not yet yielded, in forward order.
    pub closed spec fn handles(self) -> Seq<int> {
        Seq::new(self.remaining as nat, |j: int| self.head + j)
    }

    /// The cursor addresses a map of `len` nodes: the handles left form a
    /// block inside the arena and the two ends agree on its width.
    pub closed spec fn wf_for(self, len: int) -> bool {
        &&& self.head + self.remaining <= len
        &&& (self.remaining > 0 ==> self.tail + 1 == self.head + self.remaining)
    }

    /// Yields the next handle from the front, following the node's forward
    /// link, or nothing once the count is exhausted.
    pub fn next<V>(&mut self, m: &LinkedHashMap<V>) -> (r: Option<usize>)
        requires
            m.ordered(),
            old(self).wf_for(m.entries().len() as int),
        ensures
            final(self).wf_for(m.entries().len() as int),
            old(self).handles().len() == 0 ==> r is None && final(self).handles() == old(
                self,
            ).handles(),
            old(self).handles().len() > 0 ==> {
                &&& r is Some
                &&& r.unwrap() as int == old(self).handles()[0]
                &&& r.unwrap() < m.entries().len()
                &&& final(self).handles() == old(self).handles().drop_first()
            },
    {
        if self.remaining == 0 {
            None
        } else {
            let h = self.head;
            self.remaining = self.remaining - 1;
            self.head = m.next_of(h);
            proof {
                assert(self.handles() =~= old(self).handles().drop_first());
            }
            Some(h)
        }
    }

    /// Yields the next handle from the back, following the node's backward
    /// link, or nothing once the count is exhausted.
    pub fn next_back<V>(&mut self, m: &LinkedHashMap<V>) -> (r: Option<usize>)
        requires
            m.ordered(),
            old(self).wf_for(m.entries().len() as int),
        ensures
            final(self).wf_for(m.entries().len() as int),
            old(self).handles().len() == 0 ==> r is None && final(self).handles() == old(
                self,
            ).handles(),
            old(self).handles().len() > 0 ==> {
                &&& r is Some
                &&& r.unwrap() as int == old(self).handles().last()
                &&& r.unwrap() < m.entries().len()
                &&& final(self).handles() == old(self).handles().drop_last()
            },
    {
        if self.remaining == 0 {
            None
        } else {
            let h = self.tail;
            self.remaining = self.remaining - 1;
            self.tail = m.prev_of(h);
            proof {
                assert(self.handles() =~= old(self).handles().drop_last());
            }
            Some(h)
        }
    }

    /// The exact number of handles still to yield, from both ends at once.
    pub fn size_hint(&self) -> (r: (usize, Option<usize>))
        ensures
            r.0 as int == self.handles().len(),
            r.1 == Some(r.0),
    {
        (self.remaining, Some(self.remaining))
    }

    /// Materialises the remaining handles as (key, value borrow) pairs, in
    /// forward order.
    pub fn iter<'a, V>(&self, m: &'a LinkedHashMap<V>) -> (r: Vec<(u64, &'a V)>)
        requires
            m.wf(),
            self.wf_for(m.entries().len() as int),
        ensures
            r@.len() == self.handles().len(),
            forall|j: int|
                0 <= j < r@.len() ==> {
                    &&& (#[trigger] r@[j]).0 == m.entries()[self.handles()[j]].0
                    &&& *r@[j].1 == m.entries()[self.handles()[j]].1
                },
    {
        let mut it = *self;
        let mut out: Vec<(u64, &'a V)> = Vec::new();
        let total = it.size_hint().0;
        while out.len() < total
            invariant
                m.wf(),
                total as int == self.handles().len(),
                out@.len() <= total,
                it.wf_for(m.entries().len() as int),
                it.handles() =~= self.handles().skip(out@.len() as int),
                forall|j: int|
                    0 <= j < out@.len() ==> {
                        &&& (#[trigger] out@[j]).0 == m.entries()[self.handles()[j]].0
                        &&& *out@[j].1 == m.entries()[self.handles()[j]].1
                    },
            decreases total - out.len(),
        {
            proof {
                crate::map::lemma_wf_ordered(*m);
            }
            let o = it.next(m);
            match o {
                Some(h) => {
                    proof {
                        assert(self.handles()[out@.len() as int] == h as int);
                        crate::map::lemma_wf_slot_full(*m, h as int);
                    }
                    let k = m.key_of(h);
                    let v = m.value_ref(h);
                    out.push((k, v));
                    proof {
                        assert(it.handles() =~= self.handles().skip(out@.len() as int));
                    }
                },
                None => {
                    proof {
                        assert(false);
                    }
                },
            }
        }
        out
    }
}

impl<V> LinkedHashMap<V> {
    /// A fresh cursor over all nodes: its handle sequence is exactly the
    /// insertion order of the map.
    pub fn iter_nodes(&self) -> (it: IterNodes)
        ensures
            it.wf_for(self.entries().len() as int),
            it.handles() == Seq::new(self.entries().len(), |j: int| j),
    {
        let n = self.len();
        let it = IterNodes { head: 0, tail: if n == 0 { 0 } else { n - 1 }, remaining: n };
        proof {
            assert(it.handles() =~= Seq::new(self.entries().len(), |j: int| j));
        }
        it
    }
}

/// The handle sequence `h` is the contiguous block of `0..n` that starts at `k`.
pub open spec fn is_block_at(h: Seq<int>, n: int, k: int) -> bool {
    &&& 0 <= k
    &&& k + h.len() <= n
    &&& h == Seq::new(n as nat, |j: int| j).subrange(k, k + h.len())
}

/// Law: at any point of a double-ended traversal the handles not yet yielded
/// are one contiguous block of the insertion order `0..n`; the handles already
/// consumed from the front, the remaining block, and the handles already
/// consumed from the back therefore account for all `n` with no duplicates.
pub proof fn lemma_cursor_partition(c: IterNodes, n: int)
    requires
        c.wf_for(n),
    ensures
        exists|k: int| #[trigger] is_block_at(c.handles(), n, k),
{
    let k = c.head as int;
    assert(c.handles() =~= Seq::new(n as nat, |j: int| j).subrange(k, k + c.handles().len()));
    assert(is_block_at(c.handles(), n, k));
}

} // verus!
