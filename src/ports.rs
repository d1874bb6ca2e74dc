use vstd::prelude::*;

verus! {

/// Number of elements of `s` that satisfy `f`.
pub open spec fn count<T>(s: Seq<T>, f: spec_fn(T) -> bool) -> nat
    decreases s.len(),
{
    if s.len() == 0 {
        0
    } else {
        count(s.drop_last(), f) + (if f(s.last()) { 1nat } else { 0nat })
    }
}

pub proof fn lemma_count_bounded<T>(s: Seq<T>, f: spec_fn(T) -> bool)
    ensures
        count(s, f) <= s.len(),
        count(s, f) == s.len() ==> forall|k: int| 0 <= k < s.len() ==> #[trigger] f(s[k]),
        count(s, f) < s.len() ==> exists|k: int| 0 <= k < s.len() && !#[trigger] f(s[k]),
        count(s, f) > 0 ==> exists|k: int| 0 <= k < s.len() && #[trigger] f(s[k]),
    decreases s.len(),
{
    if s.len() > 0 {
        lemma_count_bounded(s.drop_last(), f);
        if count(s, f) > 0 {
            if f(s.last()) {
                assert(f(s[s.len() - 1]));
            } else {
                let k = choose|k: int| 0 <= k < s.drop_last().len() && f(s.drop_last()[k]);
                assert(s.drop_last()[k] == s[k]);
            }
        }
        if count(s, f) == s.len() {
            assert forall|k: int| 0 <= k < s.len() implies #[trigger] f(s[k]) by {
                if k < s.len() - 1 {
                    assert(s.drop_last()[k] == s[k]);
                }
            }
        }
        if count(s, f) < s.len() {
            if !f(s.last()) {
                assert(!f(s[s.len() - 1]));
            } else {
                let k = choose|k: int| 0 <= k < s.drop_last().len() && !f(s.drop_last()[k]);
                assert(s.drop_last()[k] == s[k]);
            }
        }
    }
}

pub proof fn lemma_count_update<T>(s: Seq<T>, f: spec_fn(T) -> bool, i: int, v: T)
    requires
        0 <= i < s.len(),
    ensures
        count(s.update(i, v), f) + (if f(s[i]) { 1int } else { 0int }) == count(s, f) + (if f(v) { 1int } else { 0int }),
    decreases s.len(),
{
    let t = s.update(i, v);
    if i == s.len() - 1 {
        assert(t.drop_last() =~= s.drop_last());
    } else {
        assert(t.drop_last() =~= s.drop_last().update(i, v));
        lemma_count_update(s.drop_last(), f, i, v);
    }
}

/// State of one port of the pool.
pub enum Slot {
    Free,
    /// Bound to the active rule of this name.
    Bound(String),
    /// Its rule was deleted; sessions still run on it.
    Draining,
}

pub enum SlotView {
    Free,
    Bound(Seq<char>),
    Draining,
}

impl Slot {
    pub open spec fn view(&self) -> SlotView {
        match self {
            Slot::Free => SlotView::Free,
            Slot::Bound(n) => SlotView::Bound(n@),
            Slot::Draining => SlotView::Draining,
        }
    }
}

pub open spec fn slots_view(s: Seq<Slot>) -> Seq<SlotView> {
    s.map_values(|x: Slot| x@)
}

pub open spec fn is_bound(s: SlotView) -> bool {
    s is Bound
}

/// `i` is the lowest free slot.
pub open spec fn lowest_free(s: Seq<SlotView>, i: int) -> bool {
    &&& 0 <= i < s.len()
    &&& s[i] is Free
    &&& forall|j: int| 0 <= j < i ==> !(#[trigger] s[j] is Free)
}

pub open spec fn has_free(s: Seq<SlotView>) -> bool {
    exists|i: int| 0 <= i < s.len() && #[trigger] s[i] is Free
}

/// The slot that the next allocation takes.
pub open spec fn first_free(s: Seq<SlotView>) -> int {
    choose|i: int| lowest_free(s, i)
}

pub proof fn lemma_first_free(s: Seq<SlotView>, i: int)
    requires
        lowest_free(s, i),
    ensures
        first_free(s) == i,
{
    let k = first_free(s);
    assert(lowest_free(s, k));
    if k < i {
        assert(!(s[k] is Free));
    }
    if i < k {
        assert(!(s[i] is Free));
    }
}

pub proof fn lemma_has_free(s: Seq<SlotView>)
    requires
        has_free(s),
    ensures
        lowest_free(s, first_free(s)),
    decreases s.len(),
{
    let w = choose|i: int| 0 <= i < s.len() && #[trigger] s[i] is Free;
    if exists|j: int| 0 <= j < w && #[trigger] s[j] is Free {
        let d = s.subrange(0, w);
        assert(has_free(d)) by {
            let j = choose|j: int| 0 <= j < w && #[trigger] s[j] is Free;
            assert(d[j] == s[j]);
        }
        lemma_has_free(d);
        let k = first_free(d);
        assert forall|j: int| 0 <= j < k implies !(#[trigger] s[j] is Free) by {
            assert(d[j] == s[j]);
        }
        assert(d[k] == s[k]);
        assert(lowest_free(s, k));
        lemma_first_free(s, k);
    } else {
        assert(lowest_free(s, w));
        lemma_first_free(s, w);
    }
}

/// The pool of local tunnel ports `[start_port, start_port + slots.len())`.
pub struct PortAllocator {
    pub start_port: u16,
    pub slots: Vec<Slot>,
}

impl PortAllocator {
    pub open spec fn view(&self) -> Seq<SlotView> {
        slots_view(self.slots@)
    }

    pub open spec fn wf(&self) -> bool {
        self.start_port as int + self.slots@.len() <= 65536
    }

    /// An empty pool of `size` ports from `start`.
    pub fn new(start: u16, size: u16) -> (r: PortAllocator)
        requires
            start as int + size as int <= 65536,
        ensures
            r.wf(),
            r.start_port == start,
            r@.len() == size,
            forall|k: int| 0 <= k < size ==> #[trigger] r@[k] is Free,
    {
        let mut slots: Vec<Slot> = Vec::new();
        let mut i: u16 = 0;
        while i < size
            invariant
                i <= size,
                slots@.len() == i,
                forall|k: int| 0 <= k < i ==> #[trigger] slots@[k] is Free,
            decreases size - i,
        {
            slots.push(Slot::Free);
            i = i + 1;
        }
        PortAllocator { start_port: start, slots }
    }

    /// Binds the lowest free port to `name`.
    pub fn allocate(&mut self, name: &String) -> (r: Option<u16>)
        requires
            old(self).wf(),
        ensures
            final(self).wf(),
            final(self).start_port == old(self).start_port,
            match r {
                Some(p) => {
                    &&& has_free(old(self)@)
                    &&& p == old(self).start_port + first_free(old(self)@)
                    &&& final(self)@ == old(self)@.update(first_free(old(self)@), SlotView::Bound(name@))
                },
                None => !has_free(old(self)@) && final(self)@ == old(self)@,
            },
    {
        let ghost s = self@;
        let mut i: usize = 0;
        while i < self.slots.len()
            invariant
                i <= self.slots@.len(),
                s == self@,
                *self == *old(self),
                self.wf(),
                forall|j: int| 0 <= j < i ==> !(#[trigger] s[j] is Free),
            decreases self.slots.len() - i,
        {
            if let Slot::Free = self.slots[i] {
                assert(lowest_free(s, i as int));
                proof {
                    lemma_first_free(s, i as int);
                }
                let p: usize = self.start_port as usize + i;
                self.slots.set(i, Slot::Bound(name.clone()));
                assert(self@ =~= s.update(i as int, SlotView::Bound(name@)));
                return Some(p as u16);
            }
            assert(!(s[i as int] is Free));
            i = i + 1;
        }
        None
    }

    /// Marks the port at offset `i` with `slot`.
    pub fn set(&mut self, i: usize, slot: Slot)
        requires
            i < old(self)@.len(),
        ensures
            old(self).wf() ==> final(self).wf(),
            final(self).start_port == old(self).start_port,
            final(self)@ == old(self)@.update(i as int, slot@),
    {
        self.slots.set(i, slot);
        assert(self@ =~= old(self)@.update(i as int, slot@));
    }
}

} // verus!
