//! A deferred-reclamation service. A thread pins the current era with a guard
//! for as long as it may hold references into a container. A node unlinked
//! from a container is retired at the current era, which then advances; it is
//! freed only once no live guard pinned at or before its retirement era.
use vstd::prelude::*;

verus! {

/// The index of a guard's reservation slot.
pub struct Protect(pub usize);

/// A value together with the era at which it was linked.
pub struct Linked<T> {
    pub birth: u64,
    pub value: T,
}

/// A node that a guard has reserved.
pub struct Shared {
    node: u64,
}

impl Shared {
    /// The reserved node.
    pub fn as_ptr(&self) -> (r: u64)
        ensures
            r == self.spec_node(),
    {
        self.node
    }

    pub closed spec fn spec_node(&self) -> u64 {
        self.node
    }
}

/// A pin of the era `era`, registered with the service under `id`.
pub struct Guard<const SLOTS: usize> {
    id: usize,
    era: u64,
    slots: Vec<Option<u64>>,
}

/// No guard in `pins` that is still live pinned at or before `retired_at`:
/// none can hold a reference to a node retired then.
pub open spec fn safe_to_free(pins: Seq<Option<u64>>, retired_at: u64) -> bool {
    forall|i: int| 0 <= i < pins.len() ==> (#[trigger] pins[i] matches Some(e) ==> retired_at < e)
}

/// A retired entry `(node, era)` that `pins` allow to be freed.
pub open spec fn freed_under(pins: Seq<Option<u64>>) -> spec_fn((u64, u64)) -> bool {
    |e: (u64, u64)| safe_to_free(pins, e.1)
}

/// A retired entry `(node, era)` that `pins` still hold back.
pub open spec fn kept_under(pins: Seq<Option<u64>>) -> spec_fn((u64, u64)) -> bool {
    |e: (u64, u64)| !safe_to_free(pins, e.1)
}

/// The node of a retired entry.
pub open spec fn node_of(e: (u64, u64)) -> u64 {
    e.0
}

/// The service: the current era, the pin of each guard ever handed out
/// (`None` once released), and the retired nodes with their retirement era.
pub struct Crystalline<const SLOTS: usize> {
    era: u64,
    pins: Vec<Option<u64>>,
    retired: Vec<(u64, u64)>,
}

impl<const SLOTS: usize> Guard<SLOTS> {
    pub closed spec fn spec_id(&self) -> usize {
        self.id
    }

    pub closed spec fn spec_era(&self) -> u64 {
        self.era
    }

    /// The nodes reserved in the guard's slots.
    pub closed spec fn spec_slots(&self) -> Seq<Option<u64>> {
        self.slots@
    }

    /// The guard is registered with `domain` and not yet released.
    pub open spec fn is_live_in(&self, domain: &Crystalline<SLOTS>) -> bool {
        &&& self.spec_id() < domain.spec_pins().len()
        &&& domain.spec_pins()[self.spec_id() as int] == Some(self.spec_era())
        &&& self.spec_slots().len() == SLOTS
    }

    /// Reserves `node`, just loaded from a container, in slot `protect`.
    pub fn protect(&mut self, node: u64, protect: Protect) -> (r: Shared)
        requires
            protect.0 < old(self).spec_slots().len(),
        ensures
            r.spec_node() == node,
            final(self).spec_id() == old(self).spec_id(),
            final(self).spec_era() == old(self).spec_era(),
            final(self).spec_slots() == old(self).spec_slots().update(protect.0 as int, Some(node)),
    {
        self.slots.set(protect.0, Some(node));
        Shared { node }
    }

    /// Hands `node`, just unlinked from a container, to the service: it is
    /// retired at the current era, and the era advances.
    pub fn retire(&self, domain: &mut Crystalline<SLOTS>, node: u64)
        requires
            self.is_live_in(old(domain)),
            old(domain).wf(),
            old(domain).spec_era() < u64::MAX,
        ensures
            final(domain).wf(),
            final(domain).spec_era() == old(domain).spec_era() + 1,
            final(domain).spec_pins() == old(domain).spec_pins(),
            final(domain).spec_retired() == old(domain).spec_retired().push(
                (node, old(domain).spec_era()),
            ),
    {
        domain.retired.push((node, domain.era));
        domain.era = domain.era + 1;
        proof {
            assert forall|k: int| 0 <= k < domain.retired@.len() implies #[trigger] domain.retired@[k].1
                < domain.era by {
                if k < old(domain).retired@.len() {
                    assert(old(domain).spec_retired()[k].1 < old(domain).spec_era());
                }
            }
            assert forall|i: int| 0 <= i < domain.pins@.len() implies (#[trigger] domain.pins@[i] matches Some(e)
                ==> e <= domain.era) by {
                assert(old(domain).spec_pins()[i] == domain.pins@[i]);
            }
        }
    }

    /// Releases the pin, then frees what no live guard can still reach:
    /// returns the retired nodes that became safe, in retirement order, and
    /// keeps the others.
    pub fn release(self, domain: &mut Crystalline<SLOTS>) -> (freed: Vec<u64>)
        requires
            self.is_live_in(old(domain)),
            old(domain).wf(),
        ensures
            final(domain).wf(),
            final(domain).spec_era() == old(domain).spec_era(),
            final(domain).spec_pins() == old(domain).spec_pins().update(self.spec_id() as int, None),
            final(domain).spec_retired() == old(domain).spec_retired().filter(
                kept_under(final(domain).spec_pins()),
            ),
            freed@ == old(domain).spec_retired().filter(freed_under(final(domain).spec_pins())).map_values(
                |e: (u64, u64)| node_of(e),
            ),
    {
        domain.pins.set(self.id, None);
        let ghost pins = domain.pins@;
        let ghost old_retired = domain.retired@;
        let mut kept: Vec<(u64, u64)> = Vec::new();
        let mut freed: Vec<u64> = Vec::new();
        let mut i: usize = 0;
        proof {
            assert forall|k: int| 0 <= k < old_retired.len() implies #[trigger] old_retired[k].1
                < domain.era by {
                assert(old(domain).spec_retired()[k].1 < old(domain).spec_era());
            }
            reveal(Seq::filter);
            assert(old_retired.take(0) =~= Seq::<(u64, u64)>::empty());
            assert(Seq::<(u64, u64)>::empty().filter(freed_under(pins)).map_values(|e: (u64, u64)| node_of(e)) =~= Seq::<u64>::empty());
        }
        while i < domain.retired.len()
            invariant
                domain.pins@ == pins,
                domain.retired@ == old_retired,
                domain.era == old(domain).era,
                i <= old_retired.len(),
                kept@ == old_retired.take(i as int).filter(kept_under(pins)),
                freed@ == old_retired.take(i as int).filter(freed_under(pins)).map_values(|e: (u64, u64)| node_of(e)),
                forall|k: int| 0 <= k < old_retired.len() ==> #[trigger] old_retired[k].1 < domain.era,
            decreases old_retired.len() - i,
        {
            let entry = domain.retired[i];
            let safe = domain.is_safe(entry.1);
            let ghost t = old_retired.take(i as int + 1);
            let ghost f = old_retired.take(i as int).filter(freed_under(pins));
            let ghost kf = old_retired.take(i as int).filter(kept_under(pins));
            proof {
                assert(t.drop_last() =~= old_retired.take(i as int));
                assert(t.last() == entry);
                reveal(Seq::filter);
                assert(kept_under(pins)(entry) == !safe);
                assert(freed_under(pins)(entry) == safe);
                assert(t.filter(kept_under(pins)) == if !safe { kf.push(entry) } else { kf });
                assert(t.filter(freed_under(pins)) == if safe { f.push(entry) } else { f });
            }
            if safe {
                freed.push(entry.0);
                proof {
                    assert(f.push(entry).map_values(|e: (u64, u64)| node_of(e)) =~= f.map_values(
                        |e: (u64, u64)| node_of(e),
                    ).push(entry.0));
                }
            } else {
                kept.push(entry);
            }
            i = i + 1;
        }
        proof {
            assert(old_retired.take(old_retired.len() as int) =~= old_retired);
            assert forall|k: int| 0 <= k < kept@.len() implies #[trigger] kept@[k].1 < domain.era by {
                assert(old_retired.filter(kept_under(pins))[k] == kept@[k]);
                assert(old_retired.filter(kept_under(pins)).contains(kept@[k]));
                old_retired.lemma_filter_contains_rev(kept_under(pins), kept@[k]);
                let j = choose|j: int| 0 <= j < old_retired.len() && old_retired[j] == kept@[k];
                assert(old_retired[j].1 < domain.era);
            }
        }
        domain.retired = kept;
        freed
    }
}

impl<const SLOTS: usize> Crystalline<SLOTS> {
    pub closed spec fn spec_era(&self) -> u64 {
        self.era
    }

    pub closed spec fn spec_pins(&self) -> Seq<Option<u64>> {
        self.pins@
    }

    pub closed spec fn spec_retired(&self) -> Seq<(u64, u64)> {
        self.retired@
    }

    /// Every pin and every retirement lies in the past of the current era.
    pub open spec fn wf(&self) -> bool {
        &&& forall|i: int|
            0 <= i < self.spec_pins().len() ==> (#[trigger] self.spec_pins()[i] matches Some(e)
                ==> e <= self.spec_era())
        &&& forall|k: int|
            0 <= k < self.spec_retired().len() ==> #[trigger] self.spec_retired()[k].1
                < self.spec_era()
    }

    /// A service at era zero, with no guard and nothing retired.
    pub fn new() -> (r: Self)
        ensures
            r.wf(),
            r.spec_era() == 0,
            r.spec_pins() == Seq::<Option<u64>>::empty(),
            r.spec_retired() == Seq::<(u64, u64)>::empty(),
    {
        Crystalline { era: 0, pins: Vec::new(), retired: Vec::new() }
    }

    /// Pins the current era: a new live guard with empty reservation slots.
    pub fn guard(&mut self) -> (g: Guard<SLOTS>)
        requires
            old(self).wf(),
        ensures
            final(self).wf(),
            g.is_live_in(final(self)),
            g.spec_id() == old(self).spec_pins().len(),
            g.spec_era() == old(self).spec_era(),
            g.spec_slots() == Seq::new(SLOTS as nat, |i: int| None::<u64>),
            final(self).spec_era() == old(self).spec_era(),
            final(self).spec_pins() == old(self).spec_pins().push(Some(old(self).spec_era())),
            final(self).spec_retired() == old(self).spec_retired(),
    {
        let id = self.pins.len();
        self.pins.push(Some(self.era));
        proof {
            assert forall|i: int| 0 <= i < self.pins@.len() implies (#[trigger] self.pins@[i] matches Some(e)
                ==> e <= self.era) by {
                if i < old(self).pins@.len() {
                    assert(old(self).spec_pins()[i] == self.pins@[i]);
                }
            }
        }
        let mut slots: Vec<Option<u64>> = Vec::new();
        let mut i: usize = 0;
        while i < SLOTS
            invariant
                i <= SLOTS,
                slots@ == Seq::new(i as nat, |k: int| None::<u64>),
            decreases SLOTS - i,
        {
            slots.push(None);
            i = i + 1;
            proof {
                assert(slots@ =~= Seq::new(i as nat, |k: int| None::<u64>));
            }
        }
        proof {
            assert forall|k: int| 0 <= k < self.spec_retired().len() implies #[trigger] self.spec_retired()[k].1
                < self.spec_era() by {
                assert(old(self).spec_retired()[k].1 < old(self).spec_era());
            }
        }
        Guard { id, era: self.era, slots }
    }

    /// Wraps `value` with the current era as its birth era.
    pub fn link<T>(&self, value: T) -> (r: Linked<T>)
        ensures
            r.value == value,
            r.birth == self.spec_era(),
    {
        Linked { birth: self.era, value }
    }

    /// `link`, on the heap.
    pub fn link_boxed<T>(&self, value: T) -> (r: Box<Linked<T>>)
        ensures
            r.value == value,
            r.birth == self.spec_era(),
    {
        Box::new(self.link(value))
    }

    /// True when no live guard pinned at or before `retired_at`.
    fn is_safe(&self, retired_at: u64) -> (r: bool)
        ensures
            r == safe_to_free(self.pins@, retired_at),
    {
        let mut i: usize = 0;
        while i < self.pins.len()
            invariant
                i <= self.pins@.len(),
                forall|k: int| 0 <= k < i ==> (#[trigger] self.pins@[k] matches Some(e) ==> retired_at < e),
            decreases self.pins@.len() - i,
        {
            match self.pins[i] {
                Some(e) => {
                    if e <= retired_at {
                        return false;
                    }
                },
                None => {},
            }
            i = i + 1;
        }
        true
    }
}

/// Once no guard is live, nothing is held back: releasing the last guard
/// frees every retired node, in retirement order, and leaves none retired.
pub proof fn lemma_no_live_guard_frees_all(pins: Seq<Option<u64>>, retired: Seq<(u64, u64)>)
    requires
        forall|i: int| 0 <= i < pins.len() ==> #[trigger] pins[i] is None,
    ensures
        retired.filter(freed_under(pins)) == retired,
        retired.filter(kept_under(pins)) == Seq::<(u64, u64)>::empty(),
    decreases retired.len(),
{
    reveal(Seq::filter);
    if retired.len() == 0 {
    } else {
        lemma_no_live_guard_frees_all(pins, retired.drop_last());
        assert(safe_to_free(pins, retired.last().1));
        assert(retired.drop_last().push(retired.last()) =~= retired);
    }
}

} // verus!
