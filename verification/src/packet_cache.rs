//! The per-publisher retransmission cache: a fixed ring of 512 slots, where a
//! packet with sequence number `s` lives in slot `s % 512` until a packet whose
//! sequence number shares that slot replaces it.

use bytes::Bytes;
use std::sync::Arc;
use vstd::prelude::*;
use crate::bytes_buf::share_buf;

verus! {

/// Number of slots in a [`PacketCache`].
pub const CACHE_SLOTS: usize = 512;

/// The slot that holds the packet with sequence number `seq`.
pub open spec fn slot_of(seq: u16) -> int {
    seq as int % CACHE_SLOTS as int
}

/// What a lookup of `seq` finds in the slots `slots`: the stored packet when
/// the slot holds one with that very sequence number.
pub open spec fn cached(slots: Seq<Option<(u16, Arc<Bytes>)>>, seq: u16) -> Option<Arc<Bytes>> {
    match slots[slot_of(seq)] {
        Some(entry) => if entry.0 == seq {
            Some(entry.1)
        } else {
            None
        },
        None => None,
    }
}

/// What answering a NACK for `seqs` returns: the cached packets, in the order
/// asked, with sequence numbers that are not cached left out.
pub open spec fn nack_response(slots: Seq<Option<(u16, Arc<Bytes>)>>, seqs: Seq<u16>) -> Seq<Arc<Bytes>>
    decreases seqs.len(),
{
    if seqs.len() == 0 {
        Seq::empty()
    } else {
        let prev = nack_response(slots, seqs.drop_last());
        match cached(slots, seqs.last()) {
            Some(d) => prev.push(d),
            None => prev,
        }
    }
}

/// A packet just stored is found again under its sequence number.
pub proof fn law_lookup_after_store(slots: Seq<Option<(u16, Arc<Bytes>)>>, seq: u16, data: Arc<Bytes>)
    requires
        slots.len() == CACHE_SLOTS,
    ensures
        cached(slots.update(slot_of(seq), Some((seq, data))), seq) == Some(data),
{
}

/// Storing a packet leaves what is found under a sequence number of another
/// slot as it was.
pub proof fn law_store_keeps_other_slots(
    slots: Seq<Option<(u16, Arc<Bytes>)>>,
    seq: u16,
    data: Arc<Bytes>,
    other: u16,
)
    requires
        slots.len() == CACHE_SLOTS,
        slot_of(other) != slot_of(seq),
    ensures
        cached(slots.update(slot_of(seq), Some((seq, data))), other) == cached(slots, other),
{
}

/// Storing a packet evicts a packet with a different sequence number that
/// shares its slot.
pub proof fn law_store_evicts_slot_sharer(
    slots: Seq<Option<(u16, Arc<Bytes>)>>,
    seq: u16,
    data: Arc<Bytes>,
    other: u16,
)
    requires
        slots.len() == CACHE_SLOTS,
        slot_of(other) == slot_of(seq),
        other != seq,
    ensures
        cached(slots.update(slot_of(seq), Some((seq, data))), other) is None,
{
}

/// A NACK answer never holds more packets than sequence numbers were asked
/// for, and each packet in it is the one cached under some asked number.
pub proof fn law_nack_answers_only_cached(slots: Seq<Option<(u16, Arc<Bytes>)>>, seqs: Seq<u16>)
    ensures
        nack_response(slots, seqs).len() <= seqs.len(),
        forall|k: int|
            0 <= k < nack_response(slots, seqs).len() ==> exists|j: int|
                0 <= j < seqs.len() && cached(slots, #[trigger] seqs[j]) == Some(
                    #[trigger] nack_response(slots, seqs)[k],
                ),
    decreases seqs.len(),
{
    if seqs.len() > 0 {
        let prev = seqs.drop_last();
        law_nack_answers_only_cached(slots, prev);
        let r = nack_response(slots, seqs);
        let rp = nack_response(slots, prev);
        assert forall|k: int| 0 <= k < r.len() implies exists|j: int|
            0 <= j < seqs.len() && cached(slots, #[trigger] seqs[j]) == Some(#[trigger] r[k]) by {
            if k < rp.len() {
                assert(r[k] == rp[k]);
                let j = choose|j: int| 0 <= j < prev.len() && cached(slots, #[trigger] prev[j]) == Some(rp[k]);
                assert(seqs[j] == prev[j]);
            } else {
                assert(cached(slots, seqs[seqs.len() - 1]) == Some(r[k]));
            }
        }
    }
}

/// A cache that has stored nothing answers every NACK with nothing.
pub proof fn law_empty_cache_answers_nothing(slots: Seq<Option<(u16, Arc<Bytes>)>>, seqs: Seq<u16>)
    requires
        slots.len() == CACHE_SLOTS,
        forall|i: int| 0 <= i < CACHE_SLOTS ==> #[trigger] slots[i] is None,
    ensures
        nack_response(slots, seqs) == Seq::<Arc<Bytes>>::empty(),
    decreases seqs.len(),
{
    if seqs.len() > 0 {
        law_empty_cache_answers_nothing(slots, seqs.drop_last());
        assert(slots[slot_of(seqs.last())] is None);
    }
}

/// Of two different sequence numbers that share a slot, at most one is
/// answered by a lookup.
pub proof fn law_one_answer_per_slot(slots: Seq<Option<(u16, Arc<Bytes>)>>, q1: u16, q2: u16)
    requires
        slot_of(q1) == slot_of(q2),
        q1 != q2,
    ensures
        cached(slots, q1) is None || cached(slots, q2) is None,
{
}

/// The sequence numbers for which a lookup finds a packet.
pub open spec fn answered(slots: Seq<Option<(u16, Arc<Bytes>)>>) -> Set<int> {
    Set::new(|q: int| 0 <= q < 0x1_0000 && cached(slots, q as u16) is Some)
}

/// Whatever it has stored, a cache answers lookups for at most 512 sequence
/// numbers, one per slot.
pub proof fn law_at_most_one_answer_per_slot(slots: Seq<Option<(u16, Arc<Bytes>)>>)
    ensures
        answered(slots).finite(),
        answered(slots).len() <= CACHE_SLOTS,
{
    let a = answered(slots);
    vstd::set_lib::lemma_int_range(0, 0x1_0000);
    vstd::set_lib::lemma_len_subset(a, vstd::set_lib::set_int_range(0, 0x1_0000));
    let f = |q: int| q % (CACHE_SLOTS as int);
    assert forall|x1: int, x2: int| a.contains(x1) && a.contains(x2) && #[trigger] f(x1) == #[trigger] f(
        x2,
    ) implies x1 == x2 by {
        assert(slot_of(x1 as u16) == slot_of(x2 as u16));
        if x1 != x2 {
            law_one_answer_per_slot(slots, x1 as u16, x2 as u16);
        }
    }
    assert(vstd::relations::injective_on(f, a));
    let y = a.map(f);
    vstd::set_lib::lemma_map_size(a, y, f);
    vstd::set_lib::lemma_int_range(0, CACHE_SLOTS as int);
    assert(y.subset_of(vstd::set_lib::set_int_range(0, CACHE_SLOTS as int)));
    vstd::set_lib::lemma_len_subset(y, vstd::set_lib::set_int_range(0, CACHE_SLOTS as int));
}

/// The slots after storing each packet of `stores` in order.
pub open spec fn after_stores(
    slots: Seq<Option<(u16, Arc<Bytes>)>>,
    stores: Seq<(u16, Arc<Bytes>)>,
) -> Seq<Option<(u16, Arc<Bytes>)>>
    decreases stores.len(),
{
    if stores.len() == 0 {
        slots
    } else {
        let prev = after_stores(slots, stores.drop_last());
        prev.update(slot_of(stores.last().0), Some(stores.last()))
    }
}

proof fn lemma_after_stores_len(slots: Seq<Option<(u16, Arc<Bytes>)>>, stores: Seq<(u16, Arc<Bytes>)>)
    requires
        slots.len() == CACHE_SLOTS,
    ensures
        after_stores(slots, stores).len() == CACHE_SLOTS,
    decreases stores.len(),
{
    if stores.len() > 0 {
        lemma_after_stores_len(slots, stores.drop_last());
    }
}

proof fn lemma_stored_survives(
    slots: Seq<Option<(u16, Arc<Bytes>)>>,
    seq: u16,
    data: Arc<Bytes>,
    later: Seq<(u16, Arc<Bytes>)>,
)
    requires
        slots.len() == CACHE_SLOTS,
        forall|j: int| 0 <= j < later.len() ==> slot_of(#[trigger] later[j].0) != slot_of(seq),
    ensures
        after_stores(slots, seq![(seq, data)] + later)[slot_of(seq)] == Some((seq, data)),
    decreases later.len(),
{
    let all = seq![(seq, data)] + later;
    if later.len() == 0 {
        assert(all =~= seq![(seq, data)]);
        assert(all.drop_last() =~= Seq::<(u16, Arc<Bytes>)>::empty());
        assert(after_stores(slots, all.drop_last()) == slots);
        assert(all.last() == (seq, data));
    } else {
        assert(all.drop_last() =~= seq![(seq, data)] + later.drop_last());
        lemma_stored_survives(slots, seq, data, later.drop_last());
        lemma_after_stores_len(slots, all.drop_last());
        assert(all.last() == later[later.len() - 1]);
        assert(slot_of(all.last().0) != slot_of(seq));
    }
}

/// Once a packet with sequence number `seq` is stored, a NACK for `seq`
/// returns exactly that packet for as long as only packets of other slots
/// are stored after it, however many.
pub proof fn law_nack_returns_stored_packet(
    slots: Seq<Option<(u16, Arc<Bytes>)>>,
    seq: u16,
    data: Arc<Bytes>,
    later: Seq<(u16, Arc<Bytes>)>,
)
    requires
        slots.len() == CACHE_SLOTS,
        forall|j: int| 0 <= j < later.len() ==> slot_of(#[trigger] later[j].0) != slot_of(seq),
    ensures
        nack_response(after_stores(slots, seq![(seq, data)] + later), seq![seq]) == seq![data],
{
    lemma_stored_survives(slots, seq, data, later);
    let s = after_stores(slots, seq![(seq, data)] + later);
    assert(cached(s, seq) == Some(data));
    assert(seq![seq].drop_last() =~= Seq::<u16>::empty());
    assert(seq![seq].last() == seq);
    assert(nack_response(s, Seq::<u16>::empty()) == Seq::<Arc<Bytes>>::empty());
    assert(Seq::<Arc<Bytes>>::empty().push(data) =~= seq![data]);
}

/// A ring of recently routed packets, indexed by sequence number.
pub struct PacketCache {
    slots: Vec<Option<(u16, Arc<Bytes>)>>,
}

impl PacketCache {
    #[verifier::type_invariant]
    spec fn inv(self) -> bool {
        self.slots@.len() == CACHE_SLOTS
    }

    /// The slots, in order.
    pub closed spec fn view_slots(&self) -> Seq<Option<(u16, Arc<Bytes>)>> {
        self.slots@
    }

    /// An empty cache.
    pub fn new() -> (c: Self)
        ensures
            c.view_slots().len() == CACHE_SLOTS,
            forall|i: int| 0 <= i < CACHE_SLOTS ==> #[trigger] c.view_slots()[i] is None,
    {
        let mut slots: Vec<Option<(u16, Arc<Bytes>)>> = Vec::new();
        let mut i: usize = 0;
        while i < CACHE_SLOTS
            invariant
                i <= CACHE_SLOTS,
                slots@.len() == i,
                forall|k: int| 0 <= k < i ==> #[trigger] slots@[k] is None,
            decreases CACHE_SLOTS - i,
        {
            slots.push(None);
            i = i + 1;
        }
        PacketCache { slots }
    }

    /// Records `data` as the packet with sequence number `seq`, replacing
    /// whatever its slot held.
    pub fn store(&mut self, seq: u16, data: Arc<Bytes>)
        ensures
            old(self).view_slots().len() == CACHE_SLOTS,
            final(self).view_slots() == old(self).view_slots().update(slot_of(seq), Some((seq, data))),
        no_unwind
    {
        proof {
            use_type_invariant(&*self);
        }
        let slot = (seq as usize) % CACHE_SLOTS;
        self.slots[slot] = Some((seq, data));
    }

    /// The packet cached under sequence number `seq`, if its slot still holds it.
    pub fn lookup(&self, seq: u16) -> (r: Option<Arc<Bytes>>)
        ensures
            self.view_slots().len() == CACHE_SLOTS,
            r == cached(self.view_slots(), seq),
    {
        proof {
            use_type_invariant(self);
        }
        let slot = (seq as usize) % CACHE_SLOTS;
        match &self.slots[slot] {
            Some(entry) => {
                if entry.0 == seq {
                    Some(share_buf(&entry.1))
                } else {
                    None
                }
            },
            None => None,
        }
    }

    /// The cached packets for the sequence numbers in `seqs`, in order;
    /// those not cached are left out.
    pub fn lookup_all(&self, seqs: &[u16]) -> (r: Vec<Arc<Bytes>>)
        ensures
            self.view_slots().len() == CACHE_SLOTS,
            r@ == nack_response(self.view_slots(), seqs@),
    {
        proof {
            use_type_invariant(self);
        }
        let mut resp: Vec<Arc<Bytes>> = Vec::new();
        let mut i: usize = 0;
        while i < seqs.len()
            invariant
                i <= seqs@.len(),
                resp@ == nack_response(self.view_slots(), seqs@.take(i as int)),
            decreases seqs@.len() - i,
        {
            assert(seqs@.take(i + 1).drop_last() == seqs@.take(i as int));
            if let Some(d) = self.lookup(seqs[i]) {
                resp.push(d);
            }
            i = i + 1;
        }
        assert(seqs@.take(seqs@.len() as int) == seqs@);
        resp
    }
}

} // verus!
