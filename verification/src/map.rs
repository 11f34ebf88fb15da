use vstd::prelude::*;

verus! {

/// First index (if any) at which `s` carries key `k`.
pub open spec fn seq_has_key<V>(s: Seq<(u64, V)>, k: u64) -> bool {
    exists|j: int| 0 <= j < s.len() && (#[trigger] s[j]).0 == k
}

/// The index at which `s` carries key `k` (meaningful when `seq_has_key`).
pub open spec fn seq_key_idx<V>(s: Seq<(u64, V)>, k: u64) -> int {
    choose|j: int| 0 <= j < s.len() && (#[trigger] s[j]).0 == k
}

/// The value that `s` associates with `k`, if any.
pub open spec fn seq_lookup<V>(s: Seq<(u64, V)>, k: u64) -> Option<V> {
    if seq_has_key(s, k) {
        Some(s[seq_key_idx(s, k)].1)
    } else {
        None
    }
}

/// No key occurs twice.
pub open spec fn keys_unique<V>(s: Seq<(u64, V)>) -> bool {
    forall|i: int, j: int| 0 <= i < j < s.len() ==> (#[trigger] s[i]).0 != (#[trigger] s[j]).0
}

/// The keys of `s`, in order.
pub open spec fn seq_keys<V>(s: Seq<(u64, V)>) -> Seq<u64> {
    s.map_values(|e: (u64, V)| e.0)
}

pub proof fn lemma_key_idx<V>(s: Seq<(u64, V)>, k: u64)
    requires
        seq_has_key(s, k),
    ensures
        0 <= seq_key_idx(s, k) < s.len(),
        s[seq_key_idx(s, k)].0 == k,
{
}

pub proof fn lemma_key_idx_unique<V>(s: Seq<(u64, V)>, k: u64, j: int)
    requires
        keys_unique(s),
        0 <= j < s.len(),
        s[j].0 == k,
    ensures
        seq_has_key(s, k),
        seq_key_idx(s, k) == j,
{
    assert(seq_has_key(s, k));
    let i = seq_key_idx(s, k);
    lemma_key_idx(s, k);
    if i < j {
        assert(s[i].0 != s[j].0);
    } else if j < i {
        assert(s[j].0 != s[i].0);
    }
}

/// Law: hiding exactly one position of a uniquely-keyed sequence keeps the
/// keys unique, yields one entry fewer, omits exactly the hidden key, answers
/// every other key as the full sequence does, and preserves relative order.
pub proof fn lemma_remove_omits_exactly<V>(s: Seq<(u64, V)>, i: int)
    requires
        keys_unique(s),
        0 <= i < s.len(),
    ensures
        s.remove(i).len() == s.len() - 1,
        keys_unique(s.remove(i)),
        !seq_has_key(s.remove(i), s[i].0),
        forall|k: u64|
            k != s[i].0 ==> #[trigger] seq_lookup(s.remove(i), k) == seq_lookup(s, k),
        forall|k: u64| k != s[i].0 ==> (seq_has_key(s.remove(i), k) == seq_has_key(s, k)),
        forall|j: int| 0 <= j < i ==> #[trigger] s.remove(i)[j] == s[j],
        forall|j: int| i <= j < s.len() - 1 ==> #[trigger] s.remove(i)[j] == s[j + 1],
{
    let r = s.remove(i);
    assert forall|p: int, q: int|
        0 <= p < q < r.len() implies (#[trigger] r[p]).0 != (#[trigger] r[q]).0 by {
        let p2 = if p < i { p } else { p + 1 };
        let q2 = if q < i { q } else { q + 1 };
        assert(s[p2].0 != s[q2].0);
    }
    assert forall|j: int| 0 <= j < r.len() implies (#[trigger] r[j]).0 != s[i].0 by {
        let j2 = if j < i { j } else { j + 1 };
        assert(r[j] == s[j2]);
        if j2 < i {
            assert(s[j2].0 != s[i].0);
        } else {
            assert(s[i].0 != s[j2].0);
        }
    }
    if seq_has_key(r, s[i].0) {
        let j = seq_key_idx(r, s[i].0);
        lemma_key_idx(r, s[i].0);
    }
    assert forall|k: u64| k != s[i].0 implies #[trigger] seq_lookup(r, k) == seq_lookup(s, k) by {
        if seq_has_key(s, k) {
            let j = seq_key_idx(s, k);
            lemma_key_idx(s, k);
            let j2 = if j < i { j } else { j - 1 };
            assert(r[j2] == s[j]);
            lemma_key_idx_unique(r, k, j2);
        } else {
            if seq_has_key(r, k) {
                let j = seq_key_idx(r, k);
                lemma_key_idx(r, k);
                let j2 = if j < i { j } else { j + 1 };
                assert(s[j2].0 == k);
            }
        }
    }
    assert forall|k: u64|
        k != s[i].0 implies (seq_has_key(r, k) == #[trigger] seq_has_key(s, k)) by {
        assert(seq_lookup(r, k) == seq_lookup(s, k));
    }
}

/// Updating a position other than the hidden one commutes with hiding.
pub proof fn lemma_remove_update<V>(s: Seq<(u64, V)>, h: int, i: int, e: (u64, V))
    requires
        0 <= h < s.len(),
        0 <= i < s.len(),
        i != h,
    ensures
        s.update(i, e).remove(h) =~= s.remove(h).update(if i < h { i } else { i - 1 }, e),
{
}

/// Hiding a position and then putting an entry back there is an update.
pub proof fn lemma_remove_insert<V>(s: Seq<(u64, V)>, i: int, e: (u64, V))
    requires
        0 <= i < s.len(),
    ensures
        s.remove(i).insert(i, e) =~= s.update(i, e),
{
}

/// Hiding a position commutes with taking the key sequence.
pub proof fn lemma_seq_keys_remove<V>(s: Seq<(u64, V)>, i: int)
    requires
        0 <= i < s.len(),
    ensures
        seq_keys(s.remove(i)) =~= seq_keys(s).remove(i),
{
}

/// Two arenas of equal length whose nodes agree on keys and links (only the
/// values may differ) share their order structure and key sequence.
proof fn lemma_same_shape<V>(m1: LinkedHashMap<V>, m2: LinkedHashMap<V>)
    requires
        m2.nodes@.len() == m1.nodes@.len(),
        forall|j: int|
            0 <= j < m1.nodes@.len() ==> {
                &&& (#[trigger] m2.nodes@[j]).key == m1.nodes@[j].key
                &&& m2.nodes@[j].next == m1.nodes@[j].next
                &&& m2.nodes@[j].prev == m1.nodes@[j].prev
            },
    ensures
        m1.ordered() ==> m2.ordered(),
        seq_keys(m2.entries()) =~= seq_keys(m1.entries()),
        m2.entries().len() == m1.entries().len(),
{
    if m1.ordered() {
        assert forall|p: int, q: int| 0 <= p < q < m2.entries().len() implies (#[trigger] m2
            .entries()[p]).0 != (#[trigger] m2.entries()[q]).0 by {
            assert(m1.entries()[p].0 != m1.entries()[q].0);
        }
    }
    assert(seq_keys(m2.entries()) =~= seq_keys(m1.entries()));
}

/// One storage cell of the arena: a key, its value, and the two order-list
/// links. The value sits in an `Option` so a traversal can move it out while
/// exclusive access to every other entry is handed elsewhere; outside such a
/// window every slot is full.
pub struct Node<V> {
    pub(crate) key: u64,
    pub(crate) value: Option<V>,
    pub(crate) next: usize,
    pub(crate) prev: usize,
}

/// An insertion-ordered key-value store: an arena of nodes whose order links
/// thread them from the first inserted to the last.
pub struct LinkedHashMap<V> {
    pub(crate) nodes: Vec<Node<V>>,
}

impl<V> LinkedHashMap<V> {
    /// The entries in insertion order. (At a vacated slot the value component
    /// is unspecified; `wf` forbids such slots, `wf_hole` names the one
    /// exception.)
    pub closed spec fn entries(self) -> Seq<(u64, V)> {
        self.nodes@.map_values(|n: Node<V>| (n.key, n.value.unwrap()))
    }

    /// Order links are exactly the insertion order and no key occurs twice.
    pub closed spec fn ordered(self) -> bool {
        &&& forall|i: int|
            0 <= i < self.nodes@.len() ==> (#[trigger] self.nodes@[i]).next == i + 1
        &&& forall|i: int|
            0 <= i < self.nodes@.len() ==> (#[trigger] self.nodes@[i]).prev == if i == 0 {
                0int
            } else {
                i - 1
            }
        &&& keys_unique(self.entries())
    }

    /// Slot `i` holds its value.
    pub closed spec fn slot_full(self, i: int) -> bool {
        self.nodes@[i].value is Some
    }

    /// Well-formed: ordered and every slot holds its value.
    pub closed spec fn wf(self) -> bool {
        &&& self.ordered()
        &&& forall|i: int| 0 <= i < self.nodes@.len() ==> #[trigger] self.slot_full(i)
    }

    /// Well-formed but for one vacated slot `h`, whose value has been moved
    /// out (its key and links stay in place).
    pub closed spec fn wf_hole(self, h: int) -> bool {
        &&& self.ordered()
        &&& 0 <= h < self.nodes@.len()
        &&& !self.slot_full(h)
        &&& forall|i: int|
            0 <= i < self.nodes@.len() && i != h ==> #[trigger] self.slot_full(i)
    }

    pub fn new() -> (m: Self)
        ensures
            m.wf(),
            m.entries() == Seq::<(u64, V)>::empty(),
    {
        let m = LinkedHashMap { nodes: Vec::new() };
        proof {
            assert(m.entries() =~= Seq::<(u64, V)>::empty());
        }
        m
    }

    pub fn len(&self) -> (n: usize)
        ensures
            n == self.entries().len(),
    {
        self.nodes.len()
    }

    /// The index of the node that carries `key`, scanning the order list.
    pub(crate) fn find_idx(&self, key: u64) -> (r: Option<usize>)
        requires
            self.ordered(),
        ensures
            r is Some <==> seq_has_key(self.entries(), key),
            r matches Some(i) ==> {
                &&& i < self.entries().len()
                &&& self.entries()[i as int].0 == key
                &&& i as int == seq_key_idx(self.entries(), key)
            },
    {
        let n = self.nodes.len();
        let mut i: usize = 0;
        while i < n
            invariant
                n == self.nodes@.len(),
                0 <= i <= n,
                self.ordered(),
                forall|j: int| 0 <= j < i ==> (#[trigger] self.entries()[j]).0 != key,
            decreases n - i,
        {
            if self.nodes[i].key == key {
                proof {
                    assert(self.entries()[i as int].0 == key);
                    lemma_key_idx_unique(self.entries(), key, i as int);
                }
                return Some(i);
            }
            proof {
                assert(self.entries()[i as int].0 == self.nodes@[i as int].key);
            }
            i += 1;
        }
        proof {
            if seq_has_key(self.entries(), key) {
                let j = choose|j: int| 0 <= j < self.entries().len() && (#[trigger] self.entries()[j]).0 == key;
                assert(self.entries()[j].0 != key);
            }
        }
        None
    }

    /// A borrow of the value in slot `i`.
    pub(crate) fn value_ref(&self, i: usize) -> (r: &V)
        requires
            i < self.entries().len(),
            self.slot_full(i as int),
        ensures
            *r == self.entries()[i as int].1,
    {
        self.nodes[i].value.as_ref().unwrap()
    }

    /// A mutable borrow of the value in slot `i`; everything else is kept.
    pub(crate) fn value_mut(&mut self, i: usize) -> (r: &mut V)
        requires
            i < old(self).entries().len(),
            old(self).slot_full(i as int),
        ensures
            *r == old(self).entries()[i as int].1,
            final(self).entries() =~= old(self).entries().update(
                i as int,
                (old(self).entries()[i as int].0, *final(r)),
            ),
            old(self).ordered() ==> final(self).ordered(),
            old(self).wf() ==> final(self).wf(),
            forall|h: int| old(self).wf_hole(h) && h != i ==> final(self).wf_hole(h),
    {
        proof {
            assert(old(self).slot_full(i as int));
        }
        let node = &mut self.nodes[i];
        let r = node.value.as_mut().unwrap();
        proof {
            let m1 = *old(self);
            let m2 = *after_borrow(self);
            assert(m2.nodes@ =~= m1.nodes@.update(
                i as int,
                Node {
                    key: m1.nodes@[i as int].key,
                    value: Some(*final(r)),
                    next: m1.nodes@[i as int].next,
                    prev: m1.nodes@[i as int].prev,
                },
            ));
            lemma_same_shape(m1, m2);
            assert(m2.entries() =~= m1.entries().update(
                i as int,
                (m1.entries()[i as int].0, *final(r)),
            ));
            if m1.wf() {
                assert forall|j: int| 0 <= j < m2.nodes@.len() implies #[trigger] m2.slot_full(
                    j,
                ) by {
                    assert(m1.slot_full(j));
                }
            }
            assert forall|h: int| m1.wf_hole(h) && h != i implies m2.wf_hole(h) by {
                assert(!m2.slot_full(h));
                assert forall|j: int|
                    0 <= j < m2.nodes@.len() && j != h implies #[trigger] m2.slot_full(j) by {
                    if j != i {
                        assert(m1.slot_full(j));
                    }
                }
            }
        }
        r
    }

    /// The key stored in slot `i`.
    pub(crate) fn key_of(&self, i: usize) -> (k: u64)
        requires
            i < self.entries().len(),
        ensures
            k == self.entries()[i as int].0,
    {
        self.nodes[i].key
    }

    /// The forward order link of slot `i` (one past the end after the last).
    pub(crate) fn next_of(&self, i: usize) -> (r: usize)
        requires
            self.ordered(),
            i < self.entries().len(),
        ensures
            r == i + 1,
    {
        self.nodes[i].next
    }

    /// The backward order link of slot `i` (the first node points at itself).
    pub(crate) fn prev_of(&self, i: usize) -> (r: usize)
        requires
            self.ordered(),
            i < self.entries().len(),
        ensures
            r as int == if i == 0 { 0int } else { i - 1 },
    {
        self.nodes[i].prev
    }

    /// Moves the value out of slot `i`, leaving the one permitted hole.
    pub(crate) fn take_value(&mut self, i: usize) -> (v: V)
        requires
            old(self).wf(),
            i < old(self).entries().len(),
        ensures
            v == old(self).entries()[i as int].1,
            final(self).wf_hole(i as int),
            final(self).entries().len() == old(self).entries().len(),
            forall|j: int|
                0 <= j < old(self).entries().len() && j != i ==> final(self).entries()[j]
                    == old(self).entries()[j],
            final(self).entries()[i as int].0 == old(self).entries()[i as int].0,
            seq_keys(final(self).entries()) =~= seq_keys(old(self).entries()),
    {
        proof {
            assert(old(self).slot_full(i as int));
        }
        let node = &mut self.nodes[i];
        let o = node.value.take();
        proof {
            let m1 = *old(self);
            assert(self.nodes@ =~= m1.nodes@.update(
                i as int,
                Node {
                    key: m1.nodes@[i as int].key,
                    value: None,
                    next: m1.nodes@[i as int].next,
                    prev: m1.nodes@[i as int].prev,
                },
            ));
            lemma_same_shape(m1, *self);
            assert forall|j: int|
                0 <= j < self.nodes@.len() && j != i implies #[trigger] self.slot_full(j) by {
                assert(m1.slot_full(j));
            }
            assert forall|j: int|
                0 <= j < m1.entries().len() && j != i implies self.entries()[j] == m1.entries()[j] by {
                assert(self.nodes@[j] == m1.nodes@[j]);
            }
        }
        o.unwrap()
    }

    /// Fills the hole at slot `i` back in.
    pub(crate) fn put_value(&mut self, i: usize, v: V)
        requires
            old(self).wf_hole(i as int),
        ensures
            final(self).wf(),
            final(self).entries() =~= old(self).entries().update(
                i as int,
                (old(self).entries()[i as int].0, v),
            ),
    {
        let node = &mut self.nodes[i];
        node.value = Some(v);
        proof {
            let m1 = *old(self);
            assert(self.nodes@ =~= m1.nodes@.update(
                i as int,
                Node {
                    key: m1.nodes@[i as int].key,
                    value: Some(v),
                    next: m1.nodes@[i as int].next,
                    prev: m1.nodes@[i as int].prev,
                },
            ));
            lemma_same_shape(m1, *self);
            assert forall|j: int| 0 <= j < self.nodes@.len() implies #[trigger] self.slot_full(
                j,
            ) by {
                if j != i {
                    assert(m1.slot_full(j));
                }
            }
            assert(self.entries() =~= m1.entries().update(
                i as int,
                (m1.entries()[i as int].0, v),
            ));
        }
    }

    /// Inserts `key`: updates the value in place when the key is present,
    /// appends a fresh node at the back of the order otherwise.
    pub fn insert(&mut self, key: u64, value: V)
        requires
            old(self).wf(),
            old(self).entries().len() < usize::MAX,
        ensures
            final(self).wf(),
            seq_has_key(old(self).entries(), key) ==> final(self).entries() =~= old(
                self,
            ).entries().update(seq_key_idx(old(self).entries(), key), (key, value)),
            !seq_has_key(old(self).entries(), key) ==> final(self).entries() =~= old(
                self,
            ).entries().push((key, value)),
    {
        match self.find_idx(key) {
            Some(i) => {
                proof {
                    assert(old(self).slot_full(i as int));
                }
                let node = &mut self.nodes[i];
                node.value = Some(value);
                proof {
                    let m1 = *old(self);
                    assert(self.nodes@ =~= m1.nodes@.update(
                        i as int,
                        Node {
                            key: m1.nodes@[i as int].key,
                            value: Some(value),
                            next: m1.nodes@[i as int].next,
                            prev: m1.nodes@[i as int].prev,
                        },
                    ));
                    lemma_same_shape(m1, *self);
                    assert forall|j: int|
                        0 <= j < self.nodes@.len() implies #[trigger] self.slot_full(j) by {
                        if j != i {
                            assert(m1.slot_full(j));
                        }
                    }
                    assert(self.entries() =~= m1.entries().update(i as int, (key, value)));
                }
            },
            None => {
                let i = self.nodes.len();
                self.nodes.push(
                    Node {
                        key,
                        value: Some(value),
                        next: i + 1,
                        prev: if i == 0 { 0 } else { i - 1 },
                    },
                );
                proof {
                    let e2 = self.entries();
                    let e1 = old(self).entries();
                    assert(self.nodes@ =~= old(self).nodes@.push(
                        Node {
                            key,
                            value: Some(value),
                            next: (i + 1) as usize,
                            prev: if i == 0 { 0 } else { (i - 1) as usize },
                        },
                    ));
                    assert(e2 =~= e1.push((key, value)));
                    assert forall|p: int, q: int|
                        0 <= p < q < e2.len() implies (#[trigger] e2[p]).0 != (#[trigger] e2[q]).0 by {
                        if q == e1.len() {
                            assert(e2[p].0 == e1[p].0);
                            assert(!seq_has_key(e1, key));
                        } else {
                            assert(e2[p].0 == e1[p].0 && e2[q].0 == e1[q].0);
                        }
                    }
                    assert forall|j: int|
                        0 <= j < self.nodes@.len() implies #[trigger] self.slot_full(j) by {
                        if j < old(self).nodes@.len() {
                            assert(old(self).slot_full(j));
                        }
                    }
                }
            },
        }
    }

    pub fn contains_key(&self, key: u64) -> (r: bool)
        requires
            self.wf(),
        ensures
            r == seq_has_key(self.entries(), key),
    {
        self.find_idx(key).is_some()
    }

    pub fn get(&self, key: u64) -> (r: Option<&V>)
        requires
            self.wf(),
        ensures
            r is Some <==> seq_has_key(self.entries(), key),
            r matches Some(v) ==> seq_lookup(self.entries(), key) == Some(*v),
    {
        match self.find_idx(key) {
            Some(i) => Some(self.value_ref(i)),
            None => None,
        }
    }

    pub fn get_mut(&mut self, key: u64) -> (r: Option<&mut V>)
        requires
            old(self).wf(),
        ensures
            r is Some <==> seq_has_key(old(self).entries(), key),
            r is Some ==> {
                &&& *r.unwrap() == old(self).entries()[seq_key_idx(old(self).entries(), key)].1
                &&& final(self).entries() == old(self).entries().update(
                    seq_key_idx(old(self).entries(), key),
                    (key, *final(r.unwrap())),
                )
                &&& final(self).wf()
            },
            r is None ==> *final(self) == *old(self),
    {
        match self.find_idx(key) {
            Some(i) => Some(self.value_mut(i)),
            None => None,
        }
    }

    /// Resolves `key` to the handle (arena index) of its node.
    pub fn find_node(&self, key: u64) -> (r: Option<usize>)
        requires
            self.wf(),
        ensures
            r is Some <==> seq_has_key(self.entries(), key),
            r matches Some(i) ==> {
                &&& i < self.entries().len()
                &&& self.entries()[i as int].0 == key
                &&& i as int == seq_key_idx(self.entries(), key)
            },
    {
        self.find_idx(key)
    }
}

pub proof fn lemma_wf_ordered<V>(m: LinkedHashMap<V>)
    requires
        m.wf(),
    ensures
        m.ordered(),
{
}

pub proof fn lemma_wf_hole_ordered<V>(m: LinkedHashMap<V>, h: int)
    requires
        m.wf_hole(h),
    ensures
        m.ordered(),
        0 <= h < m.entries().len(),
{
}

pub proof fn lemma_wf_slot_full<V>(m: LinkedHashMap<V>, i: int)
    requires
        m.wf(),
        0 <= i < m.entries().len(),
    ensures
        m.slot_full(i),
{
}

pub proof fn lemma_wf_hole_slot_full<V>(m: LinkedHashMap<V>, h: int, i: int)
    requires
        m.wf_hole(h),
        0 <= i < m.entries().len(),
        i != h,
    ensures
        m.slot_full(i),
{
}

pub proof fn lemma_ordered_unique<V>(m: LinkedHashMap<V>)
    requires
        m.ordered(),
    ensures
        keys_unique(m.entries()),
{
}

} // verus!
