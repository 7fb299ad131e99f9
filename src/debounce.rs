use std::collections::VecDeque;
use vstd::laws_cmp::obeys_partial_cmp_spec_properties;
use vstd::laws_eq::{obeys_eq, obeys_eq_spec_properties};
use vstd::prelude::*;
use vstd::std_specs::cmp::{PartialEqSpec, PartialOrdSpec};

verus! {

/// A work item: the latest `version` of the work for `key`.
pub struct Entry<K, V, W> {
    pub key: K,
    pub value: V,
    pub version: W,
}

/// `a` and `b` name the same key.
pub open spec fn same_key<K: PartialEq>(a: K, b: K) -> bool {
    a.eq_spec(&b)
}

/// Version `a` comes before version `b`.
pub open spec fn older<W: PartialOrd>(a: W, b: W) -> bool {
    a.partial_cmp_spec(&b) == Some(core::cmp::Ordering::Less)
}

/// Keys and versions compare as `==` and `<` say, consistently.
pub open spec fn lawful<K: PartialEq, W: PartialOrd>() -> bool {
    &&& obeys_eq::<K>()
    &&& W::obeys_partial_cmp_spec()
    &&& obeys_partial_cmp_spec_properties::<W>()
}

/// No key occurs twice in `q`.
pub open spec fn distinct_keys<K: PartialEq, V, W>(q: Seq<Entry<K, V, W>>) -> bool {
    forall|i: int, j: int|
        0 <= i < q.len() && 0 <= j < q.len() && i != j ==> !same_key(
            #[trigger] q[i].key,
            #[trigger] q[j].key,
        )
}

pub open spec fn holds_key<K: PartialEq, V, W>(q: Seq<Entry<K, V, W>>, k: K) -> bool {
    exists|i: int| 0 <= i < q.len() && same_key(#[trigger] q[i].key, k)
}

/// The position of key `k` in `q`, where `holds_key(q, k)`.
pub open spec fn key_index<K: PartialEq, V, W>(q: Seq<Entry<K, V, W>>, k: K) -> int {
    choose|i: int| 0 <= i < q.len() && same_key(#[trigger] q[i].key, k)
}

/// The pending entries after `item` arrives: a newer version replaces the entry of
/// its key where that entry stands, an older or equal one is dropped, and an entry
/// for a new key goes to the back.
pub open spec fn absorb<K: PartialEq, V, W: PartialOrd>(
    q: Seq<Entry<K, V, W>>,
    item: Entry<K, V, W>,
) -> Seq<Entry<K, V, W>> {
    if holds_key(q, item.key) {
        let i = key_index(q, item.key);
        if older(q[i].version, item.version) {
            q.update(i, item)
        } else {
            q
        }
    } else {
        q.push(item)
    }
}

/// The pending entries after each of `items` arrives in turn.
pub open spec fn absorb_all<K: PartialEq, V, W: PartialOrd>(
    q: Seq<Entry<K, V, W>>,
    items: Seq<Entry<K, V, W>>,
) -> Seq<Entry<K, V, W>>
    decreases items.len(),
{
    if items.len() == 0 {
        q
    } else {
        absorb(absorb_all(q, items.drop_last()), items.last())
    }
}

/// What the consumer gets when it asks for the next entry.
pub enum Polled<T> {
    Ready(T),
    NotReady,
    Finished,
}

/// The consumer side of the debounce queue: at most one pending entry per key, the
/// newest seen, in the order in which the keys first arrived.
pub struct UniqueStream<K, V, W> {
    queue: VecDeque<Entry<K, V, W>>,
    exhausted: bool,
}

proof fn lemma_absorb_facts<K: PartialEq, V, W: PartialOrd>(
    q: Seq<Entry<K, V, W>>,
    item: Entry<K, V, W>,
)
    requires
        lawful::<K, W>(),
        distinct_keys(q),
    ensures
        distinct_keys(absorb(q, item)),
        absorb(q, item).len() == if holds_key(q, item.key) {
            q.len()
        } else {
            q.len() + 1
        },
        forall|i: int|
            0 <= i < q.len() ==> #[trigger] absorb(q, item)[i] == q[i] || (same_key(
                q[i].key,
                item.key,
            ) && absorb(q, item)[i] == item),
        !holds_key(q, item.key) ==> absorb(q, item).last() == item,
{
    reveal(obeys_eq_spec_properties);
    let r = absorb(q, item);
    if holds_key(q, item.key) {
        let i = key_index(q, item.key);
        assert(same_key(q[i].key, item.key));
        assert forall|a: int, b: int|
            0 <= a < r.len() && 0 <= b < r.len() && a != b implies !same_key(
            #[trigger] r[a].key,
            #[trigger] r[b].key,
        ) by {
            if a == i && r[a] == item {
                if same_key(item.key, q[b].key) {
                    assert(same_key(q[i].key, q[b].key));
                }
            } else if b == i && r[b] == item {
                if same_key(q[a].key, item.key) {
                    assert(same_key(item.key, q[i].key));
                    assert(same_key(q[a].key, q[i].key));
                }
            }
        }
    } else {
        assert forall|a: int, b: int|
            0 <= a < r.len() && 0 <= b < r.len() && a != b implies !same_key(
            #[trigger] r[a].key,
            #[trigger] r[b].key,
        ) by {
            if a == q.len() as int {
                assert(!same_key(q[b].key, item.key));
            } else if b == q.len() as int {
                assert(!same_key(q[a].key, item.key));
            }
        }
    }
}

impl<K: PartialEq, V, W: Ord> UniqueStream<K, V, W> {
    /// The pending entries, front first.
    pub closed spec fn pending(&self) -> Seq<Entry<K, V, W>> {
        self.queue@
    }

    /// Every producer is gone: nothing more will arrive.
    pub closed spec fn closed(&self) -> bool {
        self.exhausted
    }

    pub open spec fn wf(&self) -> bool {
        distinct_keys(self.pending())
    }

    /// An empty queue whose producers are still there.
    pub fn new() -> (r: Self)
        ensures
            r.wf(),
            r.pending() == Seq::<Entry<K, V, W>>::empty(),
            !r.closed(),
    {
        let r = UniqueStream { queue: VecDeque::new(), exhausted: false };
        assert(r.queue@ =~= Seq::<Entry<K, V, W>>::empty());
        r
    }

    /// Takes in an entry that a producer sent.
    pub fn receive(&mut self, item: Entry<K, V, W>)
        requires
            lawful::<K, W>(),
            old(self).wf(),
        ensures
            final(self).wf(),
            final(self).pending() == absorb(old(self).pending(), item),
            final(self).closed() == old(self).closed(),
    {
        proof {
            reveal(obeys_eq_spec_properties);
            lemma_absorb_facts(self.queue@, item);
        }
        let n = self.queue.len();
        let mut i: usize = 0;
        while i < n
            invariant
                lawful::<K, W>(),
                n == self.queue@.len(),
                0 <= i <= n,
                self.queue@ == old(self).queue@,
                self.exhausted == old(self).exhausted,
                distinct_keys(self.queue@),
                distinct_keys(absorb(self.queue@, item)),
                forall|j: int| 0 <= j < i ==> !same_key(#[trigger] self.queue@[j].key, item.key),
            decreases n - i,
        {
            if self.queue[i].key == item.key {
                proof {
                    reveal(obeys_eq_spec_properties);
                    let k = key_index(self.queue@, item.key);
                    assert(holds_key(self.queue@, item.key));
                    assert(same_key(self.queue@[k].key, item.key));
                    if k != i as int {
                        assert(same_key(item.key, self.queue@[k].key));
                        assert(same_key(self.queue@[i as int].key, self.queue@[k].key));
                    }
                }
                if self.queue[i].version < item.version {
                    self.queue.remove(i);
                    self.queue.insert(i, item);
                    assert(self.queue@ =~= old(self).queue@.update(i as int, item));
                }
                return;
            }
            i += 1;
        }
        assert(!holds_key(self.queue@, item.key));
        self.queue.push_back(item);
    }

    /// Notes that every producer is gone.
    pub fn close(&mut self)
        ensures
            final(self).pending() == old(self).pending(),
            final(self).closed(),
    {
        self.exhausted = true;
    }

    pub fn is_closed(&self) -> (r: bool)
        ensures
            r == self.closed(),
    {
        self.exhausted
    }

    /// Hands out the front entry. With none pending, `Finished` once every producer is
    /// gone (and on every later call), else `NotReady`.
    pub fn poll(&mut self) -> (r: Polled<Entry<K, V, W>>)
        requires
            old(self).wf(),
        ensures
            final(self).wf(),
            final(self).closed() == old(self).closed(),
            old(self).pending().len() > 0 ==> r == Polled::Ready(old(self).pending()[0])
                && final(self).pending() == old(self).pending().skip(1),
            old(self).pending().len() == 0 ==> final(self).pending() == old(self).pending() && (
            if old(self).closed() {
                r is Finished
            } else {
                r is NotReady
            }),
    {
        match self.queue.pop_front() {
            Some(item) => {
                assert(self.queue@ =~= old(self).queue@.skip(1));
                Polled::Ready(item)
            },
            None => {
                if self.exhausted {
                    Polled::Finished
                } else {
                    Polled::NotReady
                }
            },
        }
    }
}

/// Entries keep the places where their keys first arrived: whatever arrives, the
/// entry at each pending position keeps its key (an entry is replaced only by a newer
/// one for the same key), and an entry for a new key goes behind all of them. So of
/// two keys, the one that arrived first is handed out first.
pub proof fn lemma_first_seen_order<K: PartialEq, V, W: PartialOrd>(
    q: Seq<Entry<K, V, W>>,
    item: Entry<K, V, W>,
)
    requires
        lawful::<K, W>(),
        distinct_keys(q),
    ensures
        distinct_keys(absorb(q, item)),
        absorb(q, item).len() >= q.len(),
        absorb(q, item).take(q.len() as int).len() == q.len(),
        forall|i: int|
            0 <= i < q.len() ==> #[trigger] absorb(q, item)[i] == q[i] || (same_key(
                q[i].key,
                item.key,
            ) && absorb(q, item)[i] == item),
        absorb(q, item).len() > q.len() ==> !holds_key(q, item.key) && absorb(q, item).len()
            == q.len() + 1 && absorb(q, item).last() == item,
{
    lemma_absorb_facts(q, item);
}

/// The newest version wins: once entries for key `k` have arrived, with no entry for
/// `k` pending before, exactly one entry for `k` is pending; it is one of those that
/// arrived, and every other one that arrived is not newer than it.
pub proof fn lemma_newest_version_kept<K: PartialEq, V, W: PartialOrd>(
    q: Seq<Entry<K, V, W>>,
    items: Seq<Entry<K, V, W>>,
    k: K,
)
    requires
        lawful::<K, W>(),
        distinct_keys(q),
        !holds_key(q, k),
        items.len() > 0,
        forall|j: int| 0 <= j < items.len() ==> same_key(#[trigger] items[j].key, k),
    ensures
        distinct_keys(absorb_all(q, items)),
        exists|i: int|
            0 <= i < absorb_all(q, items).len() && #[trigger] same_key(
                absorb_all(q, items)[i].key,
                k,
            ) && items.contains(absorb_all(q, items)[i]) && forall|j: int|
                0 <= j < items.len() && items[j] != absorb_all(q, items)[i] ==> !older(
                    absorb_all(q, items)[i].version,
                    #[trigger] items[j].version,
                ),
        forall|i1: int, i2: int|
            0 <= i1 < absorb_all(q, items).len() && 0 <= i2 < absorb_all(q, items).len() && same_key(
                #[trigger] absorb_all(q, items)[i1].key,
                k,
            ) && same_key(#[trigger] absorb_all(q, items)[i2].key, k) ==> i1 == i2,
    decreases items.len(),
{
    reveal(obeys_eq_spec_properties);
    reveal(obeys_partial_cmp_spec_properties);
    let prev = items.drop_last();
    let x = items.last();
    let r = absorb_all(q, items);
    assert(same_key(x.key, k));
    if prev.len() == 0 {
        assert(absorb_all(q, prev) == q);
        lemma_absorb_facts(q, x);
        if holds_key(q, x.key) {
            let i = key_index(q, x.key);
            assert(same_key(k, x.key));
            assert(same_key(q[i].key, k));
        }
        assert(r == q.push(x));
        assert(items.contains(x)) by {
            assert(items[items.len() - 1] == x);
        }
        let i = q.len() as int;
        assert forall|j: int| 0 <= j < items.len() && items[j] != r[i] implies !older(
            r[i].version,
            #[trigger] items[j].version,
        ) by {
            assert(items[j] == x);
        }
    } else {
        assert forall|j: int| 0 <= j < prev.len() implies same_key(#[trigger] prev[j].key, k) by {
            assert(prev[j] == items[j]);
        }
        lemma_newest_version_kept(q, prev, k);
        let before = absorb_all(q, prev);
        let i = choose|i: int|
            0 <= i < before.len() && #[trigger] same_key(before[i].key, k) && prev.contains(
                before[i],
            ) && forall|j: int|
                0 <= j < prev.len() && prev[j] != before[i] ==> !older(
                    before[i].version,
                    #[trigger] prev[j].version,
                );
        lemma_absorb_facts(before, x);
        assert(same_key(k, x.key));
        assert(same_key(before[i].key, x.key));
        assert(holds_key(before, x.key));
        let ki = key_index(before, x.key);
        assert(same_key(before[ki].key, k)) by {
            assert(same_key(x.key, k));
        }
        assert(ki == i);
        let e = r[i];
        assert(items.contains(e)) by {
            if e == x {
                assert(items[items.len() - 1] == x);
            } else {
                assert(e == before[i]);
                let j0 = choose|j0: int| 0 <= j0 < prev.len() && prev[j0] == e;
                assert(items[j0] == e);
            }
        }
        assert(same_key(e.key, k)) by {
            if e == x {
            } else {
                assert(e == before[i]);
            }
        }
        assert forall|j: int| 0 <= j < items.len() && items[j] != e implies !older(
            e.version,
            #[trigger] items[j].version,
        ) by {
            if j == items.len() - 1 {
                assert(items[j] == x);
            } else {
                assert(items[j] == prev[j]);
                if e == x && older(before[i].version, x.version) {
                    if prev[j] != before[i] {
                        if older(x.version, prev[j].version) {
                            assert(older(before[i].version, prev[j].version));
                        }
                    } else {
                        if older(x.version, prev[j].version) {
                            assert(older(before[i].version, before[i].version));
                        }
                    }
                }
            }
        }
    }
}

/// One event at the queue: an entry arrives, or the consumer takes the front entry.
pub enum QueueEvent<K, V, W> {
    Arrive(Entry<K, V, W>),
    Take,
}

/// The pending entries after `ev`.
pub open spec fn after_event<K: PartialEq, V, W: PartialOrd>(
    q: Seq<Entry<K, V, W>>,
    ev: QueueEvent<K, V, W>,
) -> Seq<Entry<K, V, W>> {
    match ev {
        QueueEvent::Arrive(e) => absorb(q, e),
        QueueEvent::Take => if q.len() > 0 {
            q.skip(1)
        } else {
            q
        },
    }
}

/// The entry that `ev` hands to the consumer, if any.
pub open spec fn taken<K, V, W>(q: Seq<Entry<K, V, W>>, ev: QueueEvent<K, V, W>) -> Option<
    Entry<K, V, W>,
> {
    match ev {
        QueueEvent::Take => if q.len() > 0 {
            Some(q[0])
        } else {
            None
        },
        _ => None,
    }
}

/// The pending entries after the events `evs`, in turn.
pub open spec fn after_events<K: PartialEq, V, W: PartialOrd>(
    q: Seq<Entry<K, V, W>>,
    evs: Seq<QueueEvent<K, V, W>>,
) -> Seq<Entry<K, V, W>>
    decreases evs.len(),
{
    if evs.len() == 0 {
        q
    } else {
        after_event(after_events(q, evs.drop_last()), evs.last())
    }
}

/// `k` is key `a`, or a key equal to it.
pub open spec fn is_key<K: PartialEq>(k: K, a: K) -> bool {
    k == a || same_key(k, a)
}

/// The `n`-th event of `evs` hands out an entry for key `a`.
pub open spec fn hands_out<K: PartialEq, V, W: PartialOrd>(
    q: Seq<Entry<K, V, W>>,
    evs: Seq<QueueEvent<K, V, W>>,
    n: int,
    a: K,
) -> bool {
    taken(after_events(q, evs.take(n)), evs[n]) matches Some(e) && is_key(e.key, a)
}

/// Keys leave in the order in which they first arrived: if the entry for key `a`
/// stands before the entry for key `b`, then whatever arrives afterwards, no entry for
/// `b` is handed out while the entry for `a` has not been, and `a`'s entry still stands
/// before `b`'s. This needs keys that equal themselves, which `obeys_eq` leaves open.
pub proof fn lemma_first_seen_first_out<K: PartialEq, V, W: PartialOrd>(
    q: Seq<Entry<K, V, W>>,
    i: int,
    j: int,
    evs: Seq<QueueEvent<K, V, W>>,
)
    requires
        lawful::<K, W>(),
        forall|x: K| #[trigger] same_key(x, x),
        distinct_keys(q),
        0 <= i < j < q.len(),
        forall|n: int| 0 <= n < evs.len() ==> !#[trigger] hands_out(q, evs, n, q[i].key),
    ensures
        forall|n: int| 0 <= n < evs.len() ==> !#[trigger] hands_out(q, evs, n, q[j].key),
        exists|ia: int, ib: int|
            0 <= ia < ib < after_events(q, evs).len() && is_key(
                #[trigger] after_events(q, evs)[ia].key,
                q[i].key,
            ) && is_key(#[trigger] after_events(q, evs)[ib].key, q[j].key),
        distinct_keys(after_events(q, evs)),
    decreases evs.len(),
{
    reveal(obeys_eq_spec_properties);
    let a = q[i].key;
    let b = q[j].key;
    if evs.len() == 0 {
        assert(after_events(q, evs) == q);
        assert(is_key(q[i].key, a) && is_key(q[j].key, b));
    } else {
        let prev = evs.drop_last();
        let ev = evs.last();
        let last = evs.len() - 1;
        assert forall|n: int| 0 <= n < prev.len() implies !#[trigger] hands_out(q, prev, n, a) by {
            assert(prev.take(n) =~= evs.take(n));
            assert(prev[n] == evs[n]);
            assert(!hands_out(q, evs, n, a));
        }
        lemma_first_seen_first_out(q, i, j, prev);
        let r = after_events(q, prev);
        let (ia, ib) = choose|ia: int, ib: int|
            0 <= ia < ib < r.len() && is_key(#[trigger] r[ia].key, a) && is_key(
                #[trigger] r[ib].key,
                b,
            );
        assert(evs.take(last) =~= prev);
        assert(!hands_out(q, evs, last, a));
        assert(after_events(q, evs) == after_event(r, ev));
        let r2 = after_event(r, ev);
        match ev {
            QueueEvent::Arrive(e) => {
                lemma_absorb_facts(r, e);
                assert(is_key(r2[ia].key, a)) by {
                    if r2[ia] != r[ia] {
                        assert(same_key(r[ia].key, e.key) && r2[ia] == e);
                        if r[ia].key != a {
                            assert(same_key(e.key, r[ia].key));
                        } else {
                            assert(same_key(e.key, a));
                        }
                    }
                }
                assert(is_key(r2[ib].key, b)) by {
                    if r2[ib] != r[ib] {
                        assert(same_key(r[ib].key, e.key) && r2[ib] == e);
                        if r[ib].key != b {
                            assert(same_key(e.key, r[ib].key));
                        } else {
                            assert(same_key(e.key, b));
                        }
                    }
                }
            },
            QueueEvent::Take => {
                // the front entry is not `a`'s, so `a` stands behind it, and so does `b`
                assert(ia > 0);
                assert(r2 =~= r.skip(1));
                assert(r2[ia - 1] == r[ia] && r2[ib - 1] == r[ib]);
                assert(!is_key(r[0].key, b)) by {
                    assert(!same_key(r[0].key, r[ib].key));
                    assert(same_key(b, b));
                    if r[ib].key != b && same_key(r[0].key, b) {
                        assert(same_key(b, r[ib].key));
                    }
                }
                assert forall|x: int, y: int|
                    0 <= x < r2.len() && 0 <= y < r2.len() && x != y implies !same_key(
                    #[trigger] r2[x].key,
                    #[trigger] r2[y].key,
                ) by {
                    assert(r2[x] == r[x + 1] && r2[y] == r[y + 1]);
                }
            },
        }
        assert forall|n: int| 0 <= n < evs.len() implies !#[trigger] hands_out(q, evs, n, b) by {
            if n < last {
                assert(prev.take(n) =~= evs.take(n));
                assert(prev[n] == evs[n]);
                assert(!hands_out(q, prev, n, b));
            }
        }
        if let QueueEvent::Take = ev {
            assert(0 <= ia - 1 < ib - 1 < r2.len() && is_key(r2[ia - 1].key, a) && is_key(
                r2[ib - 1].key,
                b,
            ));
        } else {
            assert(0 <= ia < ib < r2.len() && is_key(r2[ia].key, a) && is_key(r2[ib].key, b));
        }
    }
}

} // verus!
