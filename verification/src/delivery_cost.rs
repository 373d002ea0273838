//! Delivery cost tracking: drivers log deliveries, each costing its
//! duration, and the system keeps the total cost.

use vstd::prelude::*;

verus! {

#[derive(Clone, Copy, Debug, PartialEq, Eq, Structural)]
pub struct Delivery {
    pub start_time: i64,
    pub end_time: i64,
    pub cost: i64,
}

/// A driver as the contracts see it: the id and the deliveries in the order
/// they were logged.
pub type DriverView = (Seq<char>, Seq<Delivery>);

/// The total cost of the deliveries.
pub open spec fn cost_sum(ds: Seq<Delivery>) -> int
    decreases ds.len(),
{
    if ds.len() == 0 {
        0
    } else {
        cost_sum(ds.drop_last()) + ds.last().cost
    }
}

/// The total cost over all drivers.
pub open spec fn total_of(drivers: Seq<DriverView>) -> int
    decreases drivers.len(),
{
    if drivers.len() == 0 {
        0
    } else {
        total_of(drivers.drop_last()) + cost_sum(drivers.last().1)
    }
}

/// The position of the driver with `id`, if any.
pub open spec fn find_driver(drivers: Seq<DriverView>, id: Seq<char>) -> Option<int>
    decreases drivers.len(),
{
    if drivers.len() == 0 {
        None
    } else if drivers.last().0 == id {
        Some(drivers.len() - 1)
    } else {
        find_driver(drivers.drop_last(), id)
    }
}

/// No id is held twice, and each delivery's cost is its positive duration.
pub open spec fn drivers_wf(drivers: Seq<DriverView>) -> bool {
    &&& forall|i: int, j: int| 0 <= i < j < drivers.len() ==> drivers[i].0 != drivers[j].0
    &&& forall|i: int, j: int|
        0 <= i < drivers.len() && 0 <= j < drivers[i].1.len() ==> #[trigger] drivers[i].1[j].cost
            == drivers[i].1[j].end_time - drivers[i].1[j].start_time && drivers[i].1[j].cost > 0
}

proof fn lemma_find_driver(drivers: Seq<DriverView>, id: Seq<char>)
    ensures
        find_driver(drivers, id) matches Some(i) ==> 0 <= i < drivers.len() && drivers[i].0 == id,
        find_driver(drivers, id) is None ==> forall|i: int|
            0 <= i < drivers.len() ==> drivers[i].0 != id,
    decreases drivers.len(),
{
    if drivers.len() > 0 && drivers.last().0 != id {
        lemma_find_driver(drivers.drop_last(), id);
        assert forall|i: int| 0 <= i < drivers.len() - 1 implies drivers[i] == drivers.drop_last()[i] by {}
    }
}

proof fn lemma_total_update(drivers: Seq<DriverView>, i: int, dv: DriverView)
    requires
        0 <= i < drivers.len(),
    ensures
        total_of(drivers.update(i, dv)) == total_of(drivers) - cost_sum(drivers[i].1) + cost_sum(dv.1),
    decreases drivers.len(),
{
    let u = drivers.update(i, dv);
    if i == drivers.len() - 1 {
        assert(u.drop_last() =~= drivers.drop_last());
    } else {
        lemma_total_update(drivers.drop_last(), i, dv);
        assert(u.drop_last() =~= drivers.drop_last().update(i, dv));
    }
}

impl Delivery {
    /// A delivery from `start_time` to `end_time` costing its duration; an
    /// error unless it ends after it starts.
    pub fn new(start_time: i64, end_time: i64) -> (r: Result<Delivery, String>)
        requires
            end_time > start_time ==> end_time - start_time <= i64::MAX,
        ensures
            end_time <= start_time ==> (r matches Err(e) && e@
                == "endTime must be greater than startTime"@),
            end_time > start_time ==> r == Ok::<Delivery, String>(
                Delivery { start_time, end_time, cost: (end_time - start_time) as i64 },
            ),
    {
        if end_time <= start_time {
            return Err(String::from_str("endTime must be greater than startTime"));
        }
        Ok(Delivery { start_time, end_time, cost: end_time - start_time })
    }
}

pub struct Driver {
    id: String,
    deliveries: Vec<Delivery>,
}

impl Driver {
    pub closed spec fn view(&self) -> DriverView {
        (self.id@, self.deliveries@)
    }

    pub fn new(id: String) -> (d: Self)
        ensures
            d@ == (id@, Seq::<Delivery>::empty()),
    {
        Driver { id, deliveries: Vec::new() }
    }

    pub fn add_delivery(&mut self, delivery: Delivery)
        ensures
            final(self)@ == (old(self)@.0, old(self)@.1.push(delivery)),
    {
        self.deliveries.push(delivery);
    }
}

pub struct DeliveryCostSystem {
    drivers: Vec<Driver>,
    total_cost: i64,
}

impl DeliveryCostSystem {
    /// The drivers, in the order they were added.
    pub closed spec fn drivers_view(&self) -> Seq<DriverView> {
        self.drivers@.map_values(|d: Driver| d@)
    }

    pub closed spec fn spec_total(&self) -> i64 {
        self.total_cost
    }

    /// The running total agrees with the deliveries.
    pub open spec fn wf(&self) -> bool {
        &&& drivers_wf(self.drivers_view())
        &&& self.spec_total() == total_of(self.drivers_view())
    }

    pub fn new() -> (s: Self)
        ensures
            s.wf(),
            s.drivers_view() == Seq::<DriverView>::empty(),
    {
        let s = DeliveryCostSystem { drivers: Vec::new(), total_cost: 0 };
        assert(s.drivers_view() =~= Seq::<DriverView>::empty());
        s
    }

    fn index_of(&self, id: &str) -> (r: Option<usize>)
        requires
            drivers_wf(self.drivers_view()),
        ensures
            r matches Some(i) ==> find_driver(self.drivers_view(), id@) == Some(i as int),
            r is None ==> find_driver(self.drivers_view(), id@) is None,
    {
        let ghost dv = self.drivers_view();
        proof {
            lemma_find_driver(dv, id@);
        }
        let target = String::from_str(id);
        let mut i: usize = 0;
        while i < self.drivers.len()
            invariant
                dv == self.drivers_view(),
                drivers_wf(dv),
                target@ == id@,
                i <= dv.len(),
                forall|j: int| 0 <= j < i ==> dv[j].0 != id@,
                find_driver(dv, id@) matches Some(f) ==> 0 <= f < dv.len() && dv[f].0 == id@,
                find_driver(dv, id@) is None ==> forall|j: int| 0 <= j < dv.len() ==> dv[j].0 != id@,
            decreases dv.len() - i,
        {
            if self.drivers[i].id == target {
                proof {
                    assert(dv[i as int].0 == id@);
                    if let Some(f) = find_driver(dv, id@) {
                        if f != i {
                            assert(dv[f].0 == id@);
                        }
                    }
                }
                return Some(i);
            }
            i = i + 1;
        }
        None
    }

    /// Adds a driver with no deliveries, unless one with this id exists.
    pub fn add_driver(&mut self, driver_id: String)
        requires
            old(self).wf(),
        ensures
            final(self).wf(),
            find_driver(old(self).drivers_view(), driver_id@) is Some ==> final(self).drivers_view()
                == old(self).drivers_view(),
            find_driver(old(self).drivers_view(), driver_id@) is None ==> final(self).drivers_view()
                == old(self).drivers_view().push((driver_id@, Seq::<Delivery>::empty())),
    {
        proof {
            lemma_find_driver(self.drivers_view(), driver_id@);
        }
        if self.index_of(driver_id.as_str()).is_none() {
            let ghost before = self.drivers_view();
            let d = Driver::new(driver_id);
            self.drivers.push(d);
            proof {
                let dv = self.drivers_view();
                assert(dv =~= before.push(d@));
                assert(dv.drop_last() =~= before);
                assert(cost_sum(Seq::<Delivery>::empty()) == 0);
                assert forall|i: int, j: int| 0 <= i < dv.len() && 0 <= j < dv[i].1.len() implies #[trigger] dv[i].1[j].cost
                    == dv[i].1[j].end_time - dv[i].1[j].start_time && dv[i].1[j].cost > 0 by {
                    assert(dv[i] == before[i]);
                }
            }
        }
    }

    /// Logs a delivery for the driver. Errors, checked in this order: the
    /// delivery does not end after it starts; no driver has this id.
    pub fn add_delivery(&mut self, driver_id: &str, start_time: i64, end_time: i64) -> (r: Result<(), String>)
        requires
            old(self).wf(),
            end_time > start_time ==> end_time - start_time <= i64::MAX,
            end_time > start_time && find_driver(old(self).drivers_view(), driver_id@) is Some
                ==> old(self).spec_total() + (end_time - start_time) <= i64::MAX,
        ensures
            final(self).wf(),
            end_time <= start_time ==> (r matches Err(e) && e@ == "endTime must be greater than startTime"@)
                && final(self).drivers_view() == old(self).drivers_view(),
            end_time > start_time && find_driver(old(self).drivers_view(), driver_id@) is None ==> (r matches Err(
                e,
            ) && e@ == "Driver not found"@) && final(self).drivers_view() == old(self).drivers_view(),
            end_time > start_time && find_driver(old(self).drivers_view(), driver_id@) is Some ==> ({
                let i = find_driver(old(self).drivers_view(), driver_id@)->0;
                let d = old(self).drivers_view()[i];
                &&& r is Ok
                &&& final(self).drivers_view() == old(self).drivers_view().update(
                    i,
                    (d.0, d.1.push(Delivery { start_time, end_time, cost: (end_time - start_time) as i64 })),
                )
            }),
    {
        let delivery = match Delivery::new(start_time, end_time) {
            Ok(d) => d,
            Err(e) => return Err(e),
        };
        let i = match self.index_of(driver_id) {
            Some(i) => i,
            None => return Err(String::from_str("Driver not found")),
        };
        let ghost dv0 = self.drivers_view();
        proof {
            lemma_find_driver(dv0, driver_id@);
            lemma_total_update(dv0, i as int, (dv0[i as int].0, dv0[i as int].1.push(delivery)));
            assert(dv0[i as int].1.push(delivery).drop_last() =~= dv0[i as int].1);
        }
        self.total_cost = self.total_cost + delivery.cost;
        let mut driver = self.drivers.remove(i);
        driver.add_delivery(delivery);
        self.drivers.insert(i, driver);
        proof {
            let dv = self.drivers_view();
            let nd = (dv0[i as int].0, dv0[i as int].1.push(delivery));
            assert(dv =~= dv0.update(i as int, nd));
            assert forall|a: int, b: int| 0 <= a < b < dv.len() implies dv[a].0 != dv[b].0 by {
                assert(dv[a].0 == dv0[a].0 && dv[b].0 == dv0[b].0);
            }
            assert forall|a: int, j: int| 0 <= a < dv.len() && 0 <= j < dv[a].1.len() implies #[trigger] dv[a].1[j].cost
                == dv[a].1[j].end_time - dv[a].1[j].start_time && dv[a].1[j].cost > 0 by {
                if a != i || j < dv0[a].1.len() {
                    assert(dv[a].1[j] == dv0[a].1[j]);
                }
            }
        }
        Ok(())
    }

    pub fn get_total_cost(&self) -> (c: i64)
        ensures
            c == self.spec_total(),
    {
        self.total_cost
    }
}

} // verus!
