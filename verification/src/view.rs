use vstd::prelude::*;
use crate::map::{
    lemma_key_idx, lemma_key_idx_unique, lemma_ordered_unique, lemma_remove_insert,
    lemma_remove_omits_exactly, lemma_remove_update, lemma_seq_keys_remove, lemma_wf_hole_ordered,
    lemma_wf_hole_slot_full, lemma_wf_ordered, keys_unique, seq_has_key, seq_key_idx, seq_keys,
    seq_lookup, LinkedHashMap,
};

verus! {

/// Exclusive access to a map with exactly one entry hidden: every lookup and
/// every iteration step provably resolves to a node other than the excluded
/// one, so a mutable borrow of that entry's value may live elsewhere for as
/// long as the view does. While the view exists it owns the rest of the map:
/// the excluded entry's slot is the one vacated slot of the arena.
pub struct LinkedHashMapExceptView<V> {
    pub(crate) m: LinkedHashMap<V>,
    pub(crate) ignore_key: u64,
    pub(crate) ignore_node: usize,
}

impl<V> LinkedHashMapExceptView<V> {
    /// The key of the hidden entry.
    pub closed spec fn excluded_key(self) -> u64 {
        self.ignore_key
    }

    /// The arena index (node handle) of the hidden entry.
    pub closed spec fn excluded_node(self) -> int {
        self.ignore_node as int
    }

    /// The visible entries, in map order: everything but the hidden one.
    pub closed spec fn entries(self) -> Seq<(u64, V)> {
        self.m.entries().remove(self.ignore_node as int)
    }

    /// The wrapped arena is whole but for the hidden slot, and that slot
    /// indeed carries the excluded key.
    pub closed spec fn wf(self) -> bool {
        &&& self.m.wf_hole(self.ignore_node as int)
        &&& self.m.entries()[self.ignore_node as int].0 == self.ignore_key
    }

    /// Builds the view over a map whose slot `ignore_node` has been vacated.
    /// Only the traversal driver and the single-entry accessor construct
    /// views, which is what keeps the invariant closed against misuse.
    pub(crate) fn new(m: LinkedHashMap<V>, ignore_key: u64, ignore_node: usize) -> (v: Self)
        requires
            m.wf_hole(ignore_node as int),
            m.entries()[ignore_node as int].0 == ignore_key,
        ensures
            v.wf(),
            v.entries() == m.entries().remove(ignore_node as int),
            v.excluded_key() == ignore_key,
            v.excluded_node() == ignore_node as int,
    {
        LinkedHashMapExceptView { m, ignore_key, ignore_node }
    }

    /// Looks `key` up among the visible entries: the excluded key reads as
    /// absent, every other key answers as the underlying map does.
    pub fn get(&self, key: u64) -> (r: Option<&V>)
        requires
            self.wf(),
        ensures
            key == self.excluded_key() ==> r is None,
            r is Some <==> seq_has_key(self.entries(), key),
            r matches Some(v) ==> seq_lookup(self.entries(), key) == Some(*v),
    {
        proof {
            lemma_wf_hole_ordered(self.m, self.ignore_node as int);
            lemma_ordered_unique(self.m);
            lemma_remove_omits_exactly(self.m.entries(), self.ignore_node as int);
        }
        if key == self.ignore_key {
            None
        } else {
            match self.m.find_idx(key) {
                Some(i) => {
                    proof {
                        lemma_wf_hole_slot_full(self.m, self.ignore_node as int, i as int);
                        lemma_key_idx(self.m.entries(), key);
                    }
                    Some(self.m.value_ref(i))
                },
                None => None,
            }
        }
    }

    /// Like `get`, with a mutable borrow: the returned reference can alias no
    /// entry reachable through the view afterwards, and certainly not the
    /// hidden one.
    pub fn get_mut(&mut self, key: u64) -> (r: Option<&mut V>)
        requires
            old(self).wf(),
        ensures
            key == old(self).excluded_key() ==> r is None,
            r is Some <==> seq_has_key(old(self).entries(), key),
            r is Some ==> {
                &&& *r.unwrap() == old(self).entries()[seq_key_idx(old(self).entries(), key)].1
                &&& final(self).wf()
                &&& final(self).excluded_key() == old(self).excluded_key()
                &&& final(self).excluded_node() == old(self).excluded_node()
                &&& final(self).entries() == old(self).entries().update(
                    seq_key_idx(old(self).entries(), key),
                    (key, *final(r.unwrap())),
                )
            },
            r is None ==> *final(self) == *old(self),
    {
        proof {
            lemma_wf_hole_ordered(self.m, self.ignore_node as int);
            lemma_ordered_unique(self.m);
            lemma_remove_omits_exactly(self.m.entries(), self.ignore_node as int);
        }
        if key == self.ignore_key {
            None
        } else {
            let found = self.m.find_idx(key);
            match found {
                Some(i) => {
                    let ghost h = self.ignore_node as int;
                    let ghost full1 = self.m.entries();
                    proof {
                        lemma_wf_hole_slot_full(self.m, h, i as int);
                        lemma_key_idx(full1, key);
                    }
                    let r = self.m.value_mut(i);
                    proof {
                        let v2 = *after_borrow(self);
                        lemma_remove_update(full1, h, i as int, (key, *final(r)));
                        let i2: int = if (i as int) < h { i as int } else { i as int - 1 };
                        assert(full1.remove(h)[i2] == full1[i as int]);
                        lemma_key_idx_unique(full1.remove(h), key, i2);
                        assert(v2.entries() =~= old(self).entries().update(
                            i2,
                            (key, *final(r)),
                        ));
                    }
                    Some(r)
                },
                None => None,
            }
        }
    }

    /// The visible entries in map order, each as (key, value borrow): exactly
    /// the underlying order with the excluded node skipped.
    pub fn iter(&self) -> (r: Vec<(u64, &V)>)
        requires
            self.wf(),
        ensures
            r@.len() == self.entries().len(),
            forall|j: int|
                0 <= j < r@.len() ==> {
                    &&& (#[trigger] r@[j]).0 == self.entries()[j].0
                    &&& *r@[j].1 == self.entries()[j].1
                },
    {
        proof {
            lemma_wf_hole_ordered(self.m, self.ignore_node as int);
            lemma_ordered_unique(self.m);
            lemma_remove_omits_exactly(self.m.entries(), self.ignore_node as int);
        }
        let mut it = self.m.iter_nodes();
        let total = it.size_hint().0;
        let mut out: Vec<(u64, &V)> = Vec::new();
        let mut consumed: usize = 0;
        while consumed < total
            invariant
                self.wf(),
                total as int == self.m.entries().len(),
                consumed <= total,
                it.wf_for(total as int),
                it.handles() =~= Seq::new(total as nat, |j: int| j).skip(consumed as int),
                out@.len() == if consumed <= self.ignore_node {
                    consumed as int
                } else {
                    consumed - 1
                },
                forall|j: int|
                    0 <= j < out@.len() ==> {
                        &&& (#[trigger] out@[j]).0 == self.entries()[j].0
                        &&& *out@[j].1 == self.entries()[j].1
                    },
            decreases total - consumed,
        {
            proof {
                lemma_wf_hole_ordered(self.m, self.ignore_node as int);
                lemma_ordered_unique(self.m);
                lemma_remove_omits_exactly(self.m.entries(), self.ignore_node as int);
            }
            let o = it.next(&self.m);
            match o {
                Some(h) => {
                    proof {
                        assert(it.handles() =~= Seq::new(total as nat, |j: int| j).skip(
                            consumed as int + 1,
                        ));
                        assert(h as int == consumed as int);
                    }
                    if h != self.ignore_node {
                        proof {
                            lemma_wf_hole_slot_full(self.m, self.ignore_node as int, h as int);
                        }
                        let k = self.m.key_of(h);
                        let v = self.m.value_ref(h);
                        out.push((k, v));
                        proof {
                            let j = out@.len() - 1;
                            if h < self.ignore_node {
                                assert(self.entries()[j] == self.m.entries()[h as int]);
                            } else {
                                assert(self.entries()[j] == self.m.entries()[h as int]);
                            }
                        }
                    }
                    consumed += 1;
                },
                None => {
                    proof {
                        assert(false);
                    }
                },
            }
        }
        out
    }
}

/// Law: an exclusion view answers exactly as the base order it was carved
/// from: the excluded key reads as absent, and every other key resolves to
/// the base sequence's own answer.
pub proof fn lemma_view_answers_base<V>(base: Seq<(u64, V)>, i: int, k: u64)
    requires
        keys_unique(base),
        0 <= i < base.len(),
    ensures
        k == base[i].0 ==> !seq_has_key(base.remove(i), k),
        k != base[i].0 ==> seq_lookup(base.remove(i), k) == seq_lookup(base, k),
        k != base[i].0 ==> seq_has_key(base.remove(i), k) == seq_has_key(base, k),
{
    lemma_remove_omits_exactly(base, i);
}


/// Resolves one key to (its value, an exclusion view over every other entry)
/// without a full traversal. While the accessor lives it holds the single
/// exclusive borrow of the map; `finish` writes the possibly updated value
/// and the view's entries back.
pub struct LinkedHashMapEntryAndRes<'a, V> {
    pub dst: &'a mut LinkedHashMap<V>,
    pub cur: V,
    pub view: LinkedHashMapExceptView<V>,
}

impl<'a, V> LinkedHashMapEntryAndRes<'a, V> {
    /// Resolves `key` directly to its node, moves the value out, and wraps the
    /// rest of the map in an exclusion view. Absent keys are ruled out by
    /// contract - the fail-fast case; see `get_checked` for the recoverable
    /// variant.
    pub fn get(map: &'a mut LinkedHashMap<V>, key: &u64) -> (r: Self)
        requires
            old(map).wf(),
            seq_has_key(old(map).entries(), *key),
        ensures
            Some(r.cur) == seq_lookup(old(map).entries(), *key),
            r.view.wf(),
            r.view.excluded_key() == *key,
            r.view.excluded_node() == seq_key_idx(old(map).entries(), *key),
            r.view.entries() == old(map).entries().remove(
                seq_key_idx(old(map).entries(), *key),
            ),
            *final(map) == *final(r.dst),
    {
        let found = map.find_node(*key);
        let i = match found {
            Some(i) => i,
            None => {
                proof {
                    assert(false);
                }
                0
            },
        };
        let v = map.take_value(i);
        let mut placeholder = LinkedHashMap::new();
        core::mem::swap(map, &mut placeholder);
        let view = LinkedHashMapExceptView::new(placeholder, *key, i);
        proof {
            assert(view.entries() =~= old(map).entries().remove(i as int));
        }
        LinkedHashMapEntryAndRes { dst: map, cur: v, view }
    }

    /// The explicit-outcome variant: `None` when the key is absent, the
    /// accessor otherwise. The map is untouched in the `None` case.
    pub fn get_checked(map: &'a mut LinkedHashMap<V>, key: &u64) -> (r: Option<Self>)
        requires
            old(map).wf(),
        ensures
            r is Some <==> seq_has_key(old(map).entries(), *key),
            r is None ==> *final(map) == *old(map),
            r is Some ==> {
                &&& Some(r.unwrap().cur) == seq_lookup(old(map).entries(), *key)
                &&& r.unwrap().view.wf()
                &&& r.unwrap().view.excluded_key() == *key
                &&& r.unwrap().view.excluded_node() == seq_key_idx(old(map).entries(), *key)
                &&& r.unwrap().view.entries() == old(map).entries().remove(
                    seq_key_idx(old(map).entries(), *key),
                )
                &&& *final(map) == *final(r.unwrap().dst)
            },
    {
        if map.contains_key(*key) {
            Some(Self::get(map, key))
        } else {
            None
        }
    }

    /// A borrow of the resolved entry's value.
    pub fn value(&self) -> (r: &V)
        ensures
            *r == self.cur,
    {
        &self.cur
    }

    /// A mutable borrow of the resolved entry's value; the view and the held
    /// map borrow stay as they are.
    pub fn value_mut(&mut self) -> (r: &mut V)
        ensures
            *r == old(self).cur,
            final(self).cur == *final(r),
            final(self).view == old(self).view,
            final(self).dst == old(self).dst,
    {
        &mut self.cur
    }

    /// A borrow of the exclusion view over every other entry.
    pub fn view(&self) -> (r: &LinkedHashMapExceptView<V>)
        ensures
            *r == self.view,
    {
        &self.view
    }

    /// A mutable borrow of the exclusion view; the resolved value and the held
    /// map borrow stay as they are.
    pub fn view_mut(&mut self) -> (r: &mut LinkedHashMapExceptView<V>)
        ensures
            *r == old(self).view,
            final(self).view == *final(r),
            final(self).cur == old(self).cur,
            final(self).dst == old(self).dst,
    {
        &mut self.view
    }

    /// Ends the accessor: the (possibly updated) value and the view's entries
    /// are written back into the map the accessor was opened on, in the
    /// order they had.
    pub fn finish(self)
        requires
            self.view.wf(),
        ensures
            final(self.dst).wf(),
            final(self.dst).entries() == self.view.entries().insert(
                self.view.excluded_node(),
                (self.view.excluded_key(), self.cur),
            ),
    {
        let LinkedHashMapEntryAndRes { dst, cur, view } = self;
        let LinkedHashMapExceptView { m: mut back, ignore_key: _, ignore_node } = view;
        let ghost full = back.entries();
        proof {
            lemma_wf_hole_ordered(back, ignore_node as int);
        }
        back.put_value(ignore_node, cur);
        proof {
            lemma_remove_insert(full, ignore_node as int, (full[ignore_node as int].0, cur));
        }
        core::mem::swap(dst, &mut back);
    }
}


/// The arena position visited at step `j` of a traversal over `n` entries.
pub open spec fn visit_pos(n: int, rev: bool, j: int) -> int {
    if rev {
        n - 1 - j
    } else {
        j
    }
}

/// The shape of the argument handed to the traversal callback at step `j`
/// over a map whose key order is `keys`: the key at the visited position,
/// some value, and a well-formed exclusion view over all the other entries.
pub open spec fn step_arg_ok<V>(
    keys: Seq<u64>,
    rev: bool,
    j: int,
    a: (u64, (V, LinkedHashMapExceptView<V>)),
) -> bool {
    let pos = visit_pos(keys.len() as int, rev, j);
    &&& a.0 == keys[pos]
    &&& a.1.1.wf()
    &&& a.1.1.excluded_key() == keys[pos]
    &&& a.1.1.excluded_node() == pos
    &&& seq_keys(a.1.1.entries()) == keys.remove(pos)
}

/// One traversal step under callback `f`: the entries `before` the step fix
/// the argument (the visited entry's key and value plus a view of the rest),
/// and `after` is what the callback's returned value and view leave in place.
pub open spec fn step_rel<
    V,
    F: Fn((u64, (V, LinkedHashMapExceptView<V>))) -> (V, LinkedHashMapExceptView<V>),
>(f: F, rev: bool, j: int, before: Seq<(u64, V)>, after: Seq<(u64, V)>) -> bool {
    let pos = visit_pos(before.len() as int, rev, j);
    exists|a: (u64, (V, LinkedHashMapExceptView<V>)), out: (V, LinkedHashMapExceptView<V>)|
        {
            &&& #[trigger] call_ensures(f, (a,), out)
            &&& a.0 == before[pos].0
            &&& a.1.0 == before[pos].1
            &&& a.1.1.wf()
            &&& a.1.1.excluded_key() == before[pos].0
            &&& a.1.1.excluded_node() == pos
            &&& a.1.1.entries() == before.remove(pos)
            &&& after == out.1.entries().insert(pos, (before[pos].0, out.0))
        }
}

/// A whole traversal record over `n` entries: `tr[j]` is the entry sequence
/// before step `j`, every step is one callback invocation at its position in
/// the chosen direction, and the key order never changes.
pub open spec fn trace_ok<
    V,
    F: Fn((u64, (V, LinkedHashMapExceptView<V>))) -> (V, LinkedHashMapExceptView<V>),
>(f: F, rev: bool, tr: Seq<Seq<(u64, V)>>, n: int) -> bool {
    &&& tr.len() == n + 1
    &&& forall|j: int| 0 <= j <= n ==> seq_keys(#[trigger] tr[j]) == seq_keys(tr[0])
    &&& forall|j: int| 0 <= j < n ==> #[trigger] step_rel(f, rev, j, tr[j], tr[j + 1])
}

/// Drives one whole traversal of a map, forward by default, handing each
/// entry's key, its value, and an exclusion view over every other entry to a
/// callback, exactly once per entry, in the chosen order.
pub struct LinkedHashMapIterExt<'a, V> {
    pub m: &'a mut LinkedHashMap<V>,
    pub rev: bool,
}

impl<'a, V> LinkedHashMapIterExt<'a, V> {
    /// Wraps exclusive access to the map; the direction starts out forward.
    pub fn new(m: &'a mut LinkedHashMap<V>) -> (r: Self)
        ensures
            *r.m == *old(m),
            *final(m) == *final(r.m),
            !r.rev,
    {
        LinkedHashMapIterExt { m, rev: false }
    }

    /// The same driver with the direction toggled; nothing else changes.
    pub fn rev(self) -> (r: Self)
        ensures
            *r.m == *old(self.m),
            *final(self.m) == *final(r.m),
            r.rev == !self.rev,
    {
        LinkedHashMapIterExt { m: self.m, rev: !self.rev }
    }

    /// Visits every entry present when the traversal starts, in the chosen
    /// direction (forward: head to tail; backward: tail to head), and invokes
    /// `f` exactly once per entry with (key, (value, exclusion view over all
    /// the others)). The value and view that `f` returns are what the map
    /// keeps. The recorded trace pins the order: step `j` visits position `j`
    /// forward and position `n - 1 - j` backward.
    pub fn for_each<
        F: Fn((u64, (V, LinkedHashMapExceptView<V>))) -> (V, LinkedHashMapExceptView<V>),
    >(self, f: F)
        requires
            (*self.m).wf(),
            forall|j: int, a: (u64, (V, LinkedHashMapExceptView<V>))|
                0 <= j < (*self.m).entries().len() && #[trigger] step_arg_ok(
                    seq_keys((*self.m).entries()),
                    self.rev,
                    j,
                    a,
                ) ==> call_requires(f, (a,)),
            forall|a: (u64, (V, LinkedHashMapExceptView<V>)), out: (V, LinkedHashMapExceptView<V>)|
                a.1.1.wf() && #[trigger] call_ensures(f, (a,), out) ==> {
                    &&& out.1.wf()
                    &&& out.1.excluded_key() == a.1.1.excluded_key()
                    &&& out.1.excluded_node() == a.1.1.excluded_node()
                    &&& seq_keys(out.1.entries()) == seq_keys(a.1.1.entries())
                },
        ensures
            final(self.m).wf(),
            seq_keys(final(self.m).entries()) == seq_keys(old(self.m).entries()),
            exists|tr: Seq<Seq<(u64, V)>>|
                {
                    &&& #[trigger] trace_ok(f, self.rev, tr, old(self.m).entries().len() as int)
                    &&& tr[0] == old(self.m).entries()
                    &&& tr[old(self.m).entries().len() as int] == final(self.m).entries()
                },
    {
        Self::traverse(self.m, self.rev, f)
    }

    /// The traversal loop behind `for_each`.
    fn traverse<
        F: Fn((u64, (V, LinkedHashMapExceptView<V>))) -> (V, LinkedHashMapExceptView<V>),
    >(m: &mut LinkedHashMap<V>, rev: bool, f: F)
        requires
            old(m).wf(),
            forall|j: int, a: (u64, (V, LinkedHashMapExceptView<V>))|
                0 <= j < old(m).entries().len() && #[trigger] step_arg_ok(
                    seq_keys(old(m).entries()),
                    rev,
                    j,
                    a,
                ) ==> call_requires(f, (a,)),
            forall|a: (u64, (V, LinkedHashMapExceptView<V>)), out: (V, LinkedHashMapExceptView<V>)|
                a.1.1.wf() && #[trigger] call_ensures(f, (a,), out) ==> {
                    &&& out.1.wf()
                    &&& out.1.excluded_key() == a.1.1.excluded_key()
                    &&& out.1.excluded_node() == a.1.1.excluded_node()
                    &&& seq_keys(out.1.entries()) == seq_keys(a.1.1.entries())
                },
        ensures
            final(m).wf(),
            seq_keys(final(m).entries()) == seq_keys(old(m).entries()),
            exists|tr: Seq<Seq<(u64, V)>>|
                {
                    &&& #[trigger] trace_ok(f, rev, tr, old(m).entries().len() as int)
                    &&& tr[0] == old(m).entries()
                    &&& tr[old(m).entries().len() as int] == final(m).entries()
                },
    {
        let ghost e0 = (*m).entries();
        let ghost keys0 = seq_keys(e0);
        let ghost n = e0.len() as int;
        let mut it = m.iter_nodes();
        let total = it.size_hint().0;
        let mut steps: usize = 0;
        let ghost mut tr: Seq<Seq<(u64, V)>> = seq![e0];
        proof {
            if rev {
                assert(it.handles() =~= Seq::new(n as nat, |j: int| j).take(n - steps));
            }
        }
        while steps < total
            invariant
                total as int == n,
                n == e0.len(),
                keys0 == seq_keys(e0),
                keys0.len() == n,
                0 <= steps <= total,
                (*m).wf(),
                seq_keys((*m).entries()) == keys0,
                it.wf_for(n),
                it.handles() == if rev {
                    Seq::new(n as nat, |j: int| j).take(n - steps)
                } else {
                    Seq::new(n as nat, |j: int| j).skip(steps as int)
                },
                tr.len() == steps + 1,
                tr[0] == e0,
                tr[steps as int] == (*m).entries(),
                forall|j: int| 0 <= j <= steps ==> seq_keys(#[trigger] tr[j]) == keys0,
                forall|j: int| 0 <= j < steps ==> #[trigger] step_rel(f, rev, j, tr[j], tr[j + 1]),
                forall|j: int, a: (u64, (V, LinkedHashMapExceptView<V>))|
                    0 <= j < n && #[trigger] step_arg_ok(keys0, rev, j, a) ==> call_requires(
                        f,
                        (a,),
                    ),
                forall|
                    a: (u64, (V, LinkedHashMapExceptView<V>)),
                    out: (V, LinkedHashMapExceptView<V>),
                |
                    a.1.1.wf() && #[trigger] call_ensures(f, (a,), out) ==> {
                        &&& out.1.wf()
                        &&& out.1.excluded_key() == a.1.1.excluded_key()
                        &&& out.1.excluded_node() == a.1.1.excluded_node()
                        &&& seq_keys(out.1.entries()) == seq_keys(a.1.1.entries())
                    },
            decreases total - steps,
        {
            proof {
                lemma_wf_ordered(*m);
            }
            let o = if rev {
                it.next_back(m)
            } else {
                it.next(m)
            };
            let pos = match o {
                Some(h) => h,
                None => {
                    proof {
                        assert(false);
                    }
                    0
                },
            };
            proof {
                assert(pos as int == visit_pos(n, rev, steps as int));
                if rev {
                    assert(it.handles() =~= Seq::new(n as nat, |j: int| j).take(n - (steps + 1)));
                } else {
                    assert(it.handles() =~= Seq::new(n as nat, |j: int| j).skip(steps as int + 1));
                }
                lemma_ordered_unique(*m);
            }
            let ghost before = (*m).entries();
            let k = m.key_of(pos);
            let v = m.take_value(pos);
            let ghost gv = v;
            let ghost holed = *m;
            proof {
                assert(holed.entries().remove(pos as int) =~= before.remove(pos as int));
            }
            let mut placeholder = LinkedHashMap::new();
            core::mem::swap(m, &mut placeholder);
            let view = LinkedHashMapExceptView::new(placeholder, k, pos);
            let ghost gview = view;
            proof {
                lemma_seq_keys_remove(before, pos as int);
                assert(seq_keys(before.remove(pos as int)) =~= keys0.remove(pos as int));
                assert(step_arg_ok(keys0, rev, steps as int, (k, (gv, gview))));
            }
            let res = f((k, (v, view)));
            let ghost gout = res;
            let (v2, view2) = res;
            let LinkedHashMapExceptView { m: mut back, ignore_key: _, ignore_node: back_node } =
                view2;
            let ghost holed2 = back.entries();
            proof {
                lemma_wf_hole_ordered(back, pos as int);
            }
            back.put_value(back_node, v2);
            proof {
                lemma_remove_insert(holed2, pos as int, (k, gout.0));
                assert(back.entries() =~= gout.1.entries().insert(pos as int, (k, gout.0)));
            }
            core::mem::swap(m, &mut back);
            proof {
                let after = (*m).entries();
                assert(after == gout.1.entries().insert(pos as int, (before[pos as int].0, gout.0)));
                assert(call_ensures(f, ((k, (gv, gview)),), gout));
                assert(step_rel(f, rev, steps as int, before, after));
                // the key order is unchanged
                lemma_seq_keys_remove(before, pos as int);
                assert(seq_keys(after) =~= keys0) by {
                    assert forall|j: int| 0 <= j < n implies seq_keys(after)[j] == keys0[j] by {
                        if j < pos as int {
                            assert(after[j] == gout.1.entries()[j]);
                            assert(seq_keys(gout.1.entries())[j] == seq_keys(gview.entries())[j]);
                            assert(gview.entries()[j] == before.remove(pos as int)[j]);
                        } else if j == pos as int {
                            assert(after[j].0 == k);
                        } else {
                            assert(after[j] == gout.1.entries()[j - 1]);
                            assert(seq_keys(gout.1.entries())[j - 1] == seq_keys(
                                gview.entries(),
                            )[j - 1]);
                            assert(gview.entries()[j - 1] == before.remove(pos as int)[j - 1]);
                        }
                    }
                }
                tr = tr.push(after);
            }
            steps += 1;
        }
        proof {
            assert(tr[n] == (*m).entries());
            assert(trace_ok(f, rev, tr, n));
        }
    }
}


/// Law: a traversal trace over `n` entries records, for every step `j`, one
/// callback invocation whose argument key is the key at the visited position
/// of the starting order: position `j` forward, position `n - 1 - j` backward.
/// So every entry is visited exactly once, in the chosen order.
pub proof fn lemma_trace_visits_in_order<
    V,
    F: Fn((u64, (V, LinkedHashMapExceptView<V>))) -> (V, LinkedHashMapExceptView<V>),
>(f: F, rev: bool, tr: Seq<Seq<(u64, V)>>, n: int, j: int)
    requires
        trace_ok(f, rev, tr, n),
        tr[0].len() == n,
        0 <= j < n,
    ensures
        exists|a: (u64, (V, LinkedHashMapExceptView<V>)), out: (V, LinkedHashMapExceptView<V>)|
            #[trigger] call_ensures(f, (a,), out) && a.0 == seq_keys(tr[0])[visit_pos(n, rev, j)],
{
    assert(step_rel(f, rev, j, tr[j], tr[j + 1]));
    assert(seq_keys(tr[j]) == seq_keys(tr[0]));
    assert(seq_keys(tr[j]).len() == tr[j].len());
    assert(seq_keys(tr[0]).len() == tr[0].len());
    assert(tr[j].len() == n);
    let pos = visit_pos(n, rev, j);
    assert(0 <= pos < n);
    let (a, out) = choose|
        a: (u64, (V, LinkedHashMapExceptView<V>)),
        out: (V, LinkedHashMapExceptView<V>),
    |
        {
            &&& #[trigger] call_ensures(f, (a,), out)
            &&& a.0 == tr[j][pos].0
            &&& a.1.0 == tr[j][pos].1
            &&& a.1.1.wf()
            &&& a.1.1.excluded_key() == tr[j][pos].0
            &&& a.1.1.excluded_node() == pos
            &&& a.1.1.entries() == tr[j].remove(pos)
            &&& tr[j + 1] == out.1.entries().insert(pos, (tr[j][pos].0, out.0))
        };
    assert(seq_keys(tr[j])[pos] == tr[j][pos].0);
    assert(a.0 == seq_keys(tr[0])[pos]);
}

} // verus!
