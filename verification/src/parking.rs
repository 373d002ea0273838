//! A parking lot: slots typed by vehicle, a pluggable strategy that picks a
//! free slot, and tickets numbered in order of issue.

use vstd::prelude::*;

verus! {

/// The kinds of vehicle, and of the slots that take them.
#[derive(Clone, Copy, Debug, PartialEq, Eq, Structural)]
pub enum VehicleType {
    Bike,
    Car,
    Truck,
}

/// Something that can park.
pub trait Vehicle {
    spec fn spec_vehicle_type(&self) -> VehicleType;

    fn vehicle_type(&self) -> (t: VehicleType)
        ensures
            t == self.spec_vehicle_type(),
    ;
}

pub struct Car;

impl Vehicle for Car {
    open spec fn spec_vehicle_type(&self) -> VehicleType {
        VehicleType::Car
    }

    fn vehicle_type(&self) -> (t: VehicleType) {
        VehicleType::Car
    }
}

pub struct Slot {
    pub id: u32,
    pub slot_type: VehicleType,
    /// The id of the ticket parked here; `None` when the slot is free.
    pub occupied_by: Option<u32>,
}

/// A proof of parking: which ticket, which slot.
#[derive(Clone, Copy, Debug, PartialEq, Eq, Structural)]
pub struct Ticket {
    pub id: u32,
    pub slot_id: u32,
}

/// Payment by card.
pub struct CardPayment;

/// Payment by UPI.
pub struct UPIPayment;

pub struct TicketFactory;

impl TicketFactory {
    pub fn create(id: u32, slot_id: u32) -> (t: Ticket)
        ensures
            t == (Ticket { id, slot_id }),
    {
        Ticket { id, slot_id }
    }
}

/// The slot is free and takes vehicles of type `vtype`.
pub open spec fn fits(s: Slot, vtype: VehicleType) -> bool {
    s.occupied_by is None && s.slot_type == vtype
}

/// How a lot picks the slot for a vehicle.
pub trait AllocationStrategy {
    /// The slot this strategy picks among `slots` for a vehicle of `vtype`.
    spec fn picks(&self, slots: Seq<Slot>, vtype: VehicleType) -> Option<u32>;

    /// Picks a free slot of the vehicle's type, by id; `None` when there is none.
    fn find_slot(&self, slots: &[Slot], vtype: VehicleType) -> (r: Option<u32>)
        ensures
            r == self.picks(slots@, vtype),
            r matches Some(id) ==> exists|i: int|
                0 <= i < slots@.len() && slots@[i].id == id && fits(slots@[i], vtype),
    ;
}

/// The first slot that fits, by position.
pub open spec fn first_fit(slots: Seq<Slot>, vtype: VehicleType) -> Option<int>
    decreases slots.len(),
{
    if slots.len() == 0 {
        None
    } else if fits(slots[0], vtype) {
        Some(0)
    } else {
        match first_fit(slots.drop_first(), vtype) {
            Some(i) => Some(i + 1),
            None => None,
        }
    }
}

proof fn lemma_first_fit(slots: Seq<Slot>, vtype: VehicleType)
    ensures
        first_fit(slots, vtype) matches Some(i) ==> 0 <= i < slots.len() && fits(slots[i], vtype)
            && forall|j: int| 0 <= j < i ==> !fits(slots[j], vtype),
        first_fit(slots, vtype) is None ==> forall|j: int| 0 <= j < slots.len() ==> !fits(slots[j], vtype),
    decreases slots.len(),
{
    if slots.len() > 0 && !fits(slots[0], vtype) {
        lemma_first_fit(slots.drop_first(), vtype);
        assert forall|j: int| 1 <= j < slots.len() implies slots[j] == slots.drop_first()[j - 1] by {}
    }
}

/// Picks the first free slot of the vehicle's type, in slot order.
pub struct NearestSlotStrategy;

impl AllocationStrategy for NearestSlotStrategy {
    open spec fn picks(&self, slots: Seq<Slot>, vtype: VehicleType) -> Option<u32> {
        match first_fit(slots, vtype) {
            Some(i) => Some(slots[i].id),
            None => None,
        }
    }

    fn find_slot(&self, slots: &[Slot], vtype: VehicleType) -> (r: Option<u32>) {
        proof {
            lemma_first_fit(slots@, vtype);
        }
        let mut i: usize = 0;
        while i < slots.len()
            invariant
                i <= slots@.len(),
                forall|j: int| 0 <= j < i ==> !fits(slots@[j], vtype),
                first_fit(slots@, vtype) matches Some(f) ==> 0 <= f < slots@.len() && fits(slots@[f], vtype)
                    && forall|j: int| 0 <= j < f ==> !fits(slots@[j], vtype),
                first_fit(slots@, vtype) is None ==> forall|j: int| 0 <= j < slots@.len() ==> !fits(slots@[j], vtype),
            decreases slots@.len() - i,
        {
            let s = &slots[i];
            if s.occupied_by.is_none() && s.slot_type == vtype {
                proof {
                    assert(fits(slots@[i as int], vtype));
                    if let Some(f) = first_fit(slots@, vtype) {
                        if f != i {
                            assert(fits(slots@[f], vtype));
                        }
                    }
                }
                return Some(s.id);
            }
            i = i + 1;
        }
        None
    }
}

/// The position of the first slot with id `slot_id`, if any.
pub open spec fn slot_index(slots: Seq<Slot>, slot_id: u32) -> Option<int>
    decreases slots.len(),
{
    if slots.len() == 0 {
        None
    } else if slots[0].id == slot_id {
        Some(0)
    } else {
        match slot_index(slots.drop_first(), slot_id) {
            Some(i) => Some(i + 1),
            None => None,
        }
    }
}

proof fn lemma_slot_index(slots: Seq<Slot>, slot_id: u32)
    ensures
        slot_index(slots, slot_id) matches Some(i) ==> 0 <= i < slots.len() && slots[i].id == slot_id
            && forall|j: int| 0 <= j < i ==> slots[j].id != slot_id,
        slot_index(slots, slot_id) is None ==> forall|j: int| 0 <= j < slots.len() ==> slots[j].id != slot_id,
    decreases slots.len(),
{
    if slots.len() > 0 && slots[0].id != slot_id {
        lemma_slot_index(slots.drop_first(), slot_id);
        assert forall|j: int| 1 <= j < slots.len() implies slots[j] == slots.drop_first()[j - 1] by {}
    }
}

/// The slots after the first one with id `slot_id` is marked as holding
/// `occupant` (or freed, for `None`).
pub open spec fn mark_slot(slots: Seq<Slot>, slot_id: u32, occupant: Option<u32>) -> Seq<Slot> {
    match slot_index(slots, slot_id) {
        Some(i) => slots.update(i, Slot { occupied_by: occupant, ..slots[i] }),
        None => slots,
    }
}

pub struct ParkingLot {
    pub slots: Vec<Slot>,
    pub strategy: Box<dyn AllocationStrategy>,
    pub ticket_counter: u32,
}

impl ParkingLot {
    /// Marks the first slot with id `slot_id` as holding `occupant`.
    fn mark(&mut self, slot_id: u32, occupant: Option<u32>)
        ensures
            final(self).slots@ == mark_slot(old(self).slots@, slot_id, occupant),
            final(self).ticket_counter == old(self).ticket_counter,
            final(self).strategy == old(self).strategy,
    {
        proof {
            lemma_slot_index(self.slots@, slot_id);
        }
        let mut i: usize = 0;
        while i < self.slots.len()
            invariant
                self.slots@ == old(self).slots@,
                self.ticket_counter == old(self).ticket_counter,
                self.strategy == old(self).strategy,
                i <= self.slots@.len(),
                forall|j: int| 0 <= j < i ==> self.slots@[j].id != slot_id,
                slot_index(self.slots@, slot_id) matches Some(f) ==> 0 <= f < self.slots@.len()
                    && self.slots@[f].id == slot_id && forall|j: int| 0 <= j < f ==> self.slots@[j].id != slot_id,
                slot_index(self.slots@, slot_id) is None ==> forall|j: int|
                    0 <= j < self.slots@.len() ==> self.slots@[j].id != slot_id,
            decreases self.slots@.len() - i,
        {
            if self.slots[i].id == slot_id {
                proof {
                    if let Some(f) = slot_index(self.slots@, slot_id) {
                        if f != i {
                            assert(self.slots@[f].id == slot_id);
                        }
                    }
                }
                let updated = Slot {
                    id: self.slots[i].id,
                    slot_type: self.slots[i].slot_type,
                    occupied_by: occupant,
                };
                self.slots.set(i, updated);
                return;
            }
            i = i + 1;
        }
    }

    /// Parks the vehicle in the slot the strategy picks and issues the next
    /// ticket for it; `None`, with nothing changed, when no slot is picked.
    pub fn park(&mut self, vehicle: &dyn Vehicle) -> (r: Option<Ticket>)
        requires
            old(self).strategy.picks(old(self).slots@, vehicle.spec_vehicle_type()) is Some
                ==> old(self).ticket_counter < u32::MAX,
        ensures
            final(self).strategy == old(self).strategy,
            match old(self).strategy.picks(old(self).slots@, vehicle.spec_vehicle_type()) {
                None => r is None && final(self).slots@ == old(self).slots@ && final(self).ticket_counter
                    == old(self).ticket_counter,
                Some(slot_id) => {
                    let id = (old(self).ticket_counter + 1) as u32;
                    &&& exists|i: int|
                        0 <= i < old(self).slots@.len() && old(self).slots@[i].id == slot_id && fits(
                            old(self).slots@[i],
                            vehicle.spec_vehicle_type(),
                        )
                    &&& r == Some(Ticket { id, slot_id })
                    &&& final(self).ticket_counter == id
                    &&& final(self).slots@ == mark_slot(old(self).slots@, slot_id, Some(id))
                },
            },
    {
        let vtype = vehicle.vehicle_type();
        let slot_id = match self.strategy.find_slot(self.slots.as_slice(), vtype) {
            Some(id) => id,
            None => return None,
        };
        self.ticket_counter = self.ticket_counter + 1;
        let ticket = TicketFactory::create(self.ticket_counter, slot_id);
        self.mark(slot_id, Some(ticket.id));
        Some(ticket)
    }

    /// Frees the slot of the ticket (the first slot with its slot id).
    pub fn release_slot(&mut self, ticket: &Ticket)
        ensures
            final(self).slots@ == mark_slot(old(self).slots@, ticket.slot_id, None),
            final(self).ticket_counter == old(self).ticket_counter,
            final(self).strategy == old(self).strategy,
    {
        self.mark(ticket.slot_id, None);
    }
}

} // verus!
