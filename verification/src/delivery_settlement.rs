//! Delivery cost tracking with settlement: drivers log deliveries, each
//! costing its duration; payments settle every delivery finished by a given
//! time.

use vstd::prelude::*;

verus! {

#[derive(Clone, Copy, Debug, PartialEq, Eq, Structural)]
pub struct Delivery {
    pub start_time: i64,
    pub end_time: i64,
    pub paid: bool,
}

/// A driver as the contracts see it: the id and the deliveries in the order
/// they were logged.
pub type DriverView = (Seq<char>, Seq<Delivery>);

/// What a delivery costs: its duration.
pub open spec fn delivery_cost(d: Delivery) -> int {
    d.end_time - d.start_time
}

/// The total cost of the deliveries.
pub open spec fn cost_sum(ds: Seq<Delivery>) -> int
    decreases ds.len(),
{
    if ds.len() == 0 {
        0
    } else {
        cost_sum(ds.drop_last()) + delivery_cost(ds.last())
    }
}

/// The total cost of the deliveries not paid yet.
pub open spec fn unpaid_sum(ds: Seq<Delivery>) -> int
    decreases ds.len(),
{
    if ds.len() == 0 {
        0
    } else {
        unpaid_sum(ds.drop_last()) + if ds.last().paid {
            0
        } else {
            delivery_cost(ds.last())
        }
    }
}

/// The total cost over all drivers.
pub open spec fn total_of(drivers: Seq<DriverView>) -> int
    decreases drivers.len(),
{
    if drivers.len() == 0 {
        0
    } else {
        total_of(drivers.drop_last()) + cost_sum(drivers.last().1)
    }
}

/// The unpaid cost over all drivers.
pub open spec fn unpaid_of(drivers: Seq<DriverView>) -> int
    decreases drivers.len(),
{
    if drivers.len() == 0 {
        0
    } else {
        unpaid_of(drivers.drop_last()) + unpaid_sum(drivers.last().1)
    }
}

/// The delivery after settling up to `t`: paid if it ended by then.
pub open spec fn settle(d: Delivery, t: i64) -> Delivery {
    Delivery { paid: d.paid || d.end_time <= t, ..d }
}

/// The drivers after settling every delivery up to `t`.
pub open spec fn settle_all(drivers: Seq<DriverView>, t: i64) -> Seq<DriverView> {
    drivers.map_values(|dv: DriverView| (dv.0, dv.1.map_values(|d: Delivery| settle(d, t))))
}

/// The position of the driver with `id`, if any.
pub open spec fn find_driver(drivers: Seq<DriverView>, id: Seq<char>) -> Option<int>
    decreases drivers.len(),
{
    if drivers.len() == 0 {
        None
    } else if drivers.last().0 == id {
        Some(drivers.len() - 1)
    } else {
        find_driver(drivers.drop_last(), id)
    }
}

/// Every delivery ends after it starts, and no id is held twice.
pub open spec fn drivers_wf(drivers: Seq<DriverView>) -> bool {
    &&& forall|i: int, j: int| 0 <= i < j < drivers.len() ==> drivers[i].0 != drivers[j].0
    &&& forall|i: int, j: int|
        0 <= i < drivers.len() && 0 <= j < drivers[i].1.len() ==> #[trigger] drivers[i].1[j].end_time
            > drivers[i].1[j].start_time
}

proof fn lemma_find_driver(drivers: Seq<DriverView>, id: Seq<char>)
    ensures
        find_driver(drivers, id) matches Some(i) ==> 0 <= i < drivers.len() && drivers[i].0 == id,
        find_driver(drivers, id) is None ==> forall|i: int|
            0 <= i < drivers.len() ==> drivers[i].0 != id,
    decreases drivers.len(),
{
    if drivers.len() > 0 && drivers.last().0 != id {
        lemma_find_driver(drivers.drop_last(), id);
        assert forall|i: int| 0 <= i < drivers.len() - 1 implies drivers[i] == drivers.drop_last()[i] by {}
    }
}

proof fn lemma_sums_bounds(ds: Seq<Delivery>)
    requires
        forall|j: int| 0 <= j < ds.len() ==> #[trigger] ds[j].end_time > ds[j].start_time,
    ensures
        0 <= unpaid_sum(ds) <= cost_sum(ds),
        ds.len() > 0 ==> cost_sum(ds) > 0,
    decreases ds.len(),
{
    if ds.len() > 0 {
        let d = ds.drop_last();
        assert forall|j: int| 0 <= j < d.len() implies #[trigger] d[j].end_time > d[j].start_time by {
            assert(d[j] == ds[j]);
        }
        lemma_sums_bounds(d);
        assert(ds[ds.len() - 1] == ds.last());
    }
}

proof fn lemma_totals_bounds(drivers: Seq<DriverView>)
    requires
        drivers_wf(drivers),
    ensures
        0 <= unpaid_of(drivers) <= total_of(drivers),
        forall|i: int| 0 <= i < drivers.len() ==> 0 <= #[trigger] cost_sum(drivers[i].1) <= total_of(drivers),
        forall|i: int| 0 <= i < drivers.len() ==> 0 <= #[trigger] unpaid_sum(drivers[i].1) <= unpaid_of(drivers),
    decreases drivers.len(),
{
    if drivers.len() > 0 {
        let d = drivers.drop_last();
        assert(drivers_wf(d)) by {
            assert forall|i: int, j: int|
                0 <= i < d.len() && 0 <= j < d[i].1.len() implies #[trigger] d[i].1[j].end_time
                > d[i].1[j].start_time by {
                assert(d[i] == drivers[i]);
            }
        }
        lemma_totals_bounds(d);
        let last = drivers.last();
        assert forall|j: int| 0 <= j < last.1.len() implies #[trigger] last.1[j].end_time
            > last.1[j].start_time by {
            assert(drivers[drivers.len() - 1] == last);
        }
        lemma_sums_bounds(last.1);
        assert forall|i: int| 0 <= i < drivers.len() implies 0 <= #[trigger] cost_sum(drivers[i].1)
            <= total_of(drivers) by {
            if i < d.len() {
                assert(drivers[i] == d[i]);
            }
        }
        assert forall|i: int| 0 <= i < drivers.len() implies 0 <= #[trigger] unpaid_sum(drivers[i].1)
            <= unpaid_of(drivers) by {
            if i < d.len() {
                assert(drivers[i] == d[i]);
            }
        }
    }
}

proof fn lemma_total_update(drivers: Seq<DriverView>, i: int, dv: DriverView)
    requires
        0 <= i < drivers.len(),
    ensures
        total_of(drivers.update(i, dv)) == total_of(drivers) - cost_sum(drivers[i].1) + cost_sum(dv.1),
        unpaid_of(drivers.update(i, dv)) == unpaid_of(drivers) - unpaid_sum(drivers[i].1) + unpaid_sum(
            dv.1,
        ),
    decreases drivers.len(),
{
    let u = drivers.update(i, dv);
    if i == drivers.len() - 1 {
        assert(u.drop_last() =~= drivers.drop_last());
    } else {
        lemma_total_update(drivers.drop_last(), i, dv);
        assert(u.drop_last() =~= drivers.drop_last().update(i, dv));
    }
}

proof fn lemma_sums_push(ds: Seq<Delivery>, d: Delivery)
    ensures
        cost_sum(ds.push(d)) == cost_sum(ds) + delivery_cost(d),
        unpaid_sum(ds.push(d)) == unpaid_sum(ds) + if d.paid { 0 } else { delivery_cost(d) },
{
    assert(ds.push(d).drop_last() =~= ds);
}

/// Sums over the first `j` deliveries after settling them, against before.
proof fn lemma_settle_prefix(ds: Seq<Delivery>, t: i64, j: int)
    requires
        0 <= j <= ds.len(),
    ensures
        cost_sum(ds.take(j).map_values(|d: Delivery| settle(d, t))) == cost_sum(ds.take(j)),
    decreases j,
{
    if j > 0 {
        lemma_settle_prefix(ds, t, j - 1);
        assert(ds.take(j).map_values(|d: Delivery| settle(d, t)).drop_last() =~= ds.take(j - 1).map_values(
            |d: Delivery| settle(d, t),
        ));
        assert(ds.take(j).drop_last() =~= ds.take(j - 1));
    }
}

pub struct Driver {
    id: String,
    deliveries: Vec<Delivery>,
}

impl Driver {
    pub closed spec fn view(&self) -> DriverView {
        (self.id@, self.deliveries@)
    }

    pub fn new(id: String) -> (d: Self)
        ensures
            d@ == (id@, Seq::<Delivery>::empty()),
    {
        Driver { id, deliveries: Vec::new() }
    }

    pub fn add_delivery(&mut self, delivery: Delivery)
        ensures
            final(self)@ == (old(self)@.0, old(self)@.1.push(delivery)),
    {
        self.deliveries.push(delivery);
    }
}

impl Delivery {
    /// A delivery from `start_time` to `end_time`, not paid yet; an error
    /// unless it ends after it starts.
    pub fn new(start_time: i64, end_time: i64) -> (r: Result<Delivery, String>)
        ensures
            end_time <= start_time ==> (r matches Err(e) && e@
                == "endTime must be greater than startTime"@),
            end_time > start_time ==> r == Ok::<Delivery, String>(
                Delivery { start_time, end_time, paid: false },
            ),
    {
        if end_time <= start_time {
            return Err(String::from_str("endTime must be greater than startTime"));
        }
        Ok(Delivery { start_time, end_time, paid: false })
    }

    /// The delivery's duration.
    pub fn cost(&self) -> (c: i64)
        requires
            self.end_time - self.start_time <= i64::MAX,
            self.end_time > self.start_time,
        ensures
            c == delivery_cost(*self),
    {
        self.end_time - self.start_time
    }
}

pub struct DeliveryCostSystem {
    drivers: Vec<Driver>,
    total_cost: i64,
    unpaid_cost: i64,
}

impl DeliveryCostSystem {
    /// The drivers, in the order they were added.
    pub closed spec fn drivers_view(&self) -> Seq<DriverView> {
        self.drivers@.map_values(|d: Driver| d@)
    }

    pub closed spec fn spec_total(&self) -> i64 {
        self.total_cost
    }

    pub closed spec fn spec_unpaid(&self) -> i64 {
        self.unpaid_cost
    }

    /// The running totals agree with the deliveries.
    pub open spec fn wf(&self) -> bool {
        &&& drivers_wf(self.drivers_view())
        &&& self.spec_total() == total_of(self.drivers_view())
        &&& self.spec_unpaid() == unpaid_of(self.drivers_view())
    }

    pub fn new() -> (s: Self)
        ensures
            s.wf(),
            s.drivers_view() == Seq::<DriverView>::empty(),
    {
        let s = DeliveryCostSystem { drivers: Vec::new(), total_cost: 0, unpaid_cost: 0 };
        assert(s.drivers_view() =~= Seq::<DriverView>::empty());
        s
    }

    fn index_of(&self, id: &str) -> (r: Option<usize>)
        requires
            drivers_wf(self.drivers_view()),
        ensures
            r matches Some(i) ==> find_driver(self.drivers_view(), id@) == Some(i as int),
            r is None ==> find_driver(self.drivers_view(), id@) is None,
    {
        let ghost dv = self.drivers_view();
        proof {
            lemma_find_driver(dv, id@);
        }
        let target = String::from_str(id);
        let mut i: usize = 0;
        while i < self.drivers.len()
            invariant
                dv == self.drivers_view(),
                drivers_wf(dv),
                target@ == id@,
                i <= dv.len(),
                forall|j: int| 0 <= j < i ==> dv[j].0 != id@,
                find_driver(dv, id@) matches Some(f) ==> 0 <= f < dv.len() && dv[f].0 == id@,
                find_driver(dv, id@) is None ==> forall|j: int| 0 <= j < dv.len() ==> dv[j].0 != id@,
            decreases dv.len() - i,
        {
            if self.drivers[i].id == target {
                proof {
                    assert(dv[i as int].0 == id@);
                    if let Some(f) = find_driver(dv, id@) {
                        if f != i {
                            assert(dv[f].0 == id@);
                        }
                    }
                }
                return Some(i);
            }
            i = i + 1;
        }
        None
    }

    /// Adds a driver with no deliveries, unless one with this id exists.
    pub fn add_driver(&mut self, driver_id: String)
        requires
            old(self).wf(),
        ensures
            final(self).wf(),
            find_driver(old(self).drivers_view(), driver_id@) is Some ==> final(self).drivers_view()
                == old(self).drivers_view(),
            find_driver(old(self).drivers_view(), driver_id@) is None ==> final(self).drivers_view()
                == old(self).drivers_view().push((driver_id@, Seq::<Delivery>::empty())),
    {
        proof {
            lemma_find_driver(self.drivers_view(), driver_id@);
        }
        if self.index_of(driver_id.as_str()).is_none() {
            let ghost before = self.drivers_view();
            let d = Driver::new(driver_id);
            self.drivers.push(d);
            proof {
                let dv = self.drivers_view();
                assert(dv =~= before.push(d@));
                assert(dv.drop_last() =~= before);
                assert forall|i: int, j: int| 0 <= i < dv.len() && 0 <= j < dv[i].1.len() implies #[trigger] dv[i].1[j].end_time
                    > dv[i].1[j].start_time by {
                    assert(dv[i] == before[i]);
                }
            }
        }
    }

    /// Logs a delivery for the driver. Errors, checked in this order: the
    /// delivery does not end after it starts; no driver has this id.
    pub fn add_delivery(&mut self, driver_id: &str, start_time: i64, end_time: i64) -> (r: Result<(), String>)
        requires
            old(self).wf(),
            end_time > start_time ==> end_time - start_time <= i64::MAX,
            end_time > start_time && find_driver(old(self).drivers_view(), driver_id@) is Some
                ==> old(self).spec_total() + (end_time - start_time) <= i64::MAX,
        ensures
            final(self).wf(),
            end_time <= start_time ==> (r matches Err(e) && e@ == "endTime must be greater than startTime"@)
                && final(self).drivers_view() == old(self).drivers_view(),
            end_time > start_time && find_driver(old(self).drivers_view(), driver_id@) is None ==> (r matches Err(
                e,
            ) && e@ == "Driver not found"@) && final(self).drivers_view() == old(self).drivers_view(),
            end_time > start_time && find_driver(old(self).drivers_view(), driver_id@) is Some ==> ({
                let i = find_driver(old(self).drivers_view(), driver_id@)->0;
                let d = old(self).drivers_view()[i];
                &&& r is Ok
                &&& final(self).drivers_view() == old(self).drivers_view().update(
                    i,
                    (d.0, d.1.push(Delivery { start_time, end_time, paid: false })),
                )
            }),
    {
        let delivery = match Delivery::new(start_time, end_time) {
            Ok(d) => d,
            Err(e) => return Err(e),
        };
        let i = match self.index_of(driver_id) {
            Some(i) => i,
            None => return Err(String::from_str("Driver not found")),
        };
        let ghost dv0 = self.drivers_view();
        proof {
            lemma_find_driver(dv0, driver_id@);
            lemma_total_update(dv0, i as int, (dv0[i as int].0, dv0[i as int].1.push(delivery)));
            lemma_sums_push(dv0[i as int].1, delivery);
            lemma_totals_bounds(dv0);
        }
        let cost = delivery.cost();
        self.total_cost = self.total_cost + cost;
        self.unpaid_cost = self.unpaid_cost + cost;
        let mut driver = self.drivers.remove(i);
        driver.add_delivery(delivery);
        self.drivers.insert(i, driver);
        proof {
            let dv = self.drivers_view();
            let nd = (dv0[i as int].0, dv0[i as int].1.push(delivery));
            assert(dv =~= dv0.update(i as int, nd));
            assert forall|a: int, b: int| 0 <= a < b < dv.len() implies dv[a].0 != dv[b].0 by {
                assert(dv[a].0 == dv0[a].0 && dv[b].0 == dv0[b].0);
            }
            assert forall|a: int, j: int| 0 <= a < dv.len() && 0 <= j < dv[a].1.len() implies #[trigger] dv[a].1[j].end_time
                > dv[a].1[j].start_time by {
                if a != i || j < dv0[a].1.len() {
                    assert(dv[a].1[j] == dv0[a].1[j]);
                }
            }
        }
        Ok(())
    }

    /// Marks paid every unpaid delivery that ended by `up_to_time`.
    pub fn pay_up_to_time(&mut self, up_to_time: i64)
        requires
            old(self).wf(),
        ensures
            final(self).wf(),
            final(self).drivers_view() == settle_all(old(self).drivers_view(), up_to_time),
            final(self).spec_total() == old(self).spec_total(),
    {
        let ghost dv0 = self.drivers_view();
        let mut i: usize = 0;
        while i < self.drivers.len()
            invariant
                self.wf(),
                self.spec_total() == old(self).spec_total(),
                i <= self.drivers_view().len(),
                self.drivers_view().len() == dv0.len(),
                dv0 == old(self).drivers_view(),
                forall|a: int| 0 <= a < i ==> #[trigger] self.drivers_view()[a] == settle_all(dv0, up_to_time)[a],
                forall|a: int| i <= a < dv0.len() ==> #[trigger] self.drivers_view()[a] == dv0[a],
            decreases dv0.len() - i,
        {
            let ghost dv_before = self.drivers_view();
            let mut driver = self.drivers.remove(i);
            let ghost orig = driver@;
            let ghost rest = self.drivers@;
            proof {
                assert(orig == dv_before[i as int]);
                lemma_totals_bounds(dv_before);
                assert forall|b: int| 0 <= b < orig.1.len() implies #[trigger] orig.1[b].end_time
                    > orig.1[b].start_time by {
                    assert(dv_before[i as int].1[b] == orig.1[b]);
                }
                lemma_sums_bounds(orig.1);
            }
            let mut j: usize = 0;
            while j < driver.deliveries.len()
                invariant
                    self.drivers@ == rest,
                    i <= rest.len(),
                    rest.len() == dv_before.len() - 1,
                    rest.map_values(|d: Driver| d@) == dv_before.remove(i as int),
                    self.total_cost == old(self).spec_total(),
                    driver@.0 == orig.0,
                    driver@.1.len() == orig.1.len(),
                    j <= orig.1.len(),
                    forall|b: int| 0 <= b < j ==> #[trigger] driver@.1[b] == settle(orig.1[b], up_to_time),
                    forall|b: int| j <= b < orig.1.len() ==> #[trigger] driver@.1[b] == orig.1[b],
                    forall|b: int| 0 <= b < orig.1.len() ==> #[trigger] orig.1[b].end_time > orig.1[b].start_time,
                    self.unpaid_cost as int == unpaid_of(dv_before) - unpaid_sum(orig.1) + unpaid_sum(driver@.1),
                    0 <= unpaid_sum(driver@.1) <= unpaid_sum(orig.1),
                    0 <= unpaid_of(dv_before) - unpaid_sum(orig.1),
                    unpaid_of(dv_before) <= i64::MAX,
                decreases orig.1.len() - j,
            {
                let d = driver.deliveries[j];
                if !d.paid && d.end_time <= up_to_time {
                    let ghost before = driver@.1;
                    let nd = Delivery { paid: true, ..d };
                    driver.deliveries.set(j, nd);
                    proof {
                        lemma_unpaid_update(before, j as int, nd);
                        assert(driver@.1 =~= before.update(j as int, nd));
                        lemma_unpaid_bounds_after(orig.1, driver@.1, up_to_time, j as int);
                    }
                    self.unpaid_cost = self.unpaid_cost - (d.end_time - d.start_time);
                } else {
                    proof {
                        assert(settle(orig.1[j as int], up_to_time) == d);
                    }
                }
                j = j + 1;
            }
            self.drivers.insert(i, driver);
            proof {
                let dv = self.drivers_view();
                assert(driver@.1 =~= orig.1.map_values(|d: Delivery| settle(d, up_to_time)));
                assert(dv =~= dv_before.update(i as int, driver@));
                lemma_total_update(dv_before, i as int, driver@);
                lemma_settle_prefix(orig.1, up_to_time, orig.1.len() as int);
                assert(orig.1.take(orig.1.len() as int) =~= orig.1);
                assert(driver@.1.take(driver@.1.len() as int) =~= driver@.1);
                assert forall|a: int, b: int| 0 <= a < b < dv.len() implies dv[a].0 != dv[b].0 by {
                    assert(dv[a].0 == dv_before[a].0 && dv[b].0 == dv_before[b].0);
                }
                assert forall|a: int, b: int| 0 <= a < dv.len() && 0 <= b < dv[a].1.len() implies #[trigger] dv[a].1[b].end_time
                    > dv[a].1[b].start_time by {
                    if a == i {
                        assert(dv[a].1[b] == settle(orig.1[b], up_to_time));
                    } else {
                        assert(dv[a] == dv_before[a]);
                    }
                }
            }
            i = i + 1;
        }
        assert(self.drivers_view() =~= settle_all(dv0, up_to_time));
    }

    pub fn get_total_cost(&self) -> (c: i64)
        ensures
            c == self.spec_total(),
    {
        self.total_cost
    }

    pub fn get_cost_to_be_paid(&self) -> (c: i64)
        ensures
            c == self.spec_unpaid(),
    {
        self.unpaid_cost
    }

    /// Each driver's id with the total cost of their deliveries.
    pub fn driver_costs(&self) -> (r: Vec<(&str, i64)>)
        requires
            self.wf(),
        ensures
            r@.len() == self.drivers_view().len(),
            forall|i: int| 0 <= i < r@.len() ==> (#[trigger] r@[i]).0@ == self.drivers_view()[i].0
                && r@[i].1 == cost_sum(self.drivers_view()[i].1),
    {
        let ghost dv = self.drivers_view();
        proof {
            lemma_totals_bounds(dv);
        }
        let mut r: Vec<(&str, i64)> = Vec::new();
        let mut i: usize = 0;
        while i < self.drivers.len()
            invariant
                dv == self.drivers_view(),
                self.wf(),
                i <= dv.len(),
                r@.len() == i,
                forall|a: int| 0 <= a < i ==> (#[trigger] r@[a]).0@ == dv[a].0 && r@[a].1 == cost_sum(dv[a].1),
                forall|a: int| 0 <= a < dv.len() ==> 0 <= #[trigger] cost_sum(dv[a].1) <= total_of(dv),
            decreases dv.len() - i,
        {
            let driver = &self.drivers[i];
            let ghost ds = dv[i as int].1;
            let mut sum: i64 = 0;
            let mut j: usize = 0;
            proof {
                assert(ds.take(0) =~= Seq::<Delivery>::empty());
            }
            while j < driver.deliveries.len()
                invariant
                    ds == driver@.1,
                    ds == dv[i as int].1,
                    0 <= i < dv.len(),
                    self.wf(),
                    dv == self.drivers_view(),
                    j <= ds.len(),
                    sum == cost_sum(ds.take(j as int)),
                    cost_sum(ds) <= total_of(dv),
                decreases ds.len() - j,
            {
                let d = &driver.deliveries[j];
                proof {
                    assert(dv[i as int].1[j as int].end_time > dv[i as int].1[j as int].start_time);
                    lemma_prefix_cost(ds, j as int + 1);
                    lemma_prefix_cost(ds, j as int);
                    assert(ds.take(j + 1).drop_last() =~= ds.take(j as int));
                    assert(ds.take(j + 1).last() == ds[j as int]);
                    assert(total_of(dv) == self.spec_total());
                }
                sum = sum + d.cost();
                j = j + 1;
            }
            assert(ds.take(ds.len() as int) =~= ds);
            r.push((driver.id.as_str(), sum));
            i = i + 1;
        }
        r
    }
}

proof fn lemma_unpaid_update(ds: Seq<Delivery>, j: int, nd: Delivery)
    requires
        0 <= j < ds.len(),
    ensures
        unpaid_sum(ds.update(j, nd)) == unpaid_sum(ds) - (if ds[j].paid { 0 } else { delivery_cost(ds[j]) })
            + (if nd.paid { 0 } else { delivery_cost(nd) }),
    decreases ds.len(),
{
    let u = ds.update(j, nd);
    if j == ds.len() - 1 {
        assert(u.drop_last() =~= ds.drop_last());
    } else {
        lemma_unpaid_update(ds.drop_last(), j, nd);
        assert(u.drop_last() =~= ds.drop_last().update(j, nd));
    }
}

proof fn lemma_unpaid_bounds_after(orig: Seq<Delivery>, cur: Seq<Delivery>, t: i64, j: int)
    requires
        orig.len() == cur.len(),
        0 <= j < orig.len(),
        forall|b: int| 0 <= b <= j ==> #[trigger] cur[b] == settle(orig[b], t),
        forall|b: int| j < b < orig.len() ==> #[trigger] cur[b] == orig[b],
        forall|b: int| 0 <= b < orig.len() ==> #[trigger] orig[b].end_time > orig[b].start_time,
    ensures
        0 <= unpaid_sum(cur) <= unpaid_sum(orig),
    decreases orig.len(),
{
    lemma_unpaid_settled_le(orig, cur, t);
    assert forall|b: int| 0 <= b < cur.len() implies #[trigger] cur[b].end_time > cur[b].start_time by {
        if b <= j {
            assert(cur[b] == settle(orig[b], t));
        } else {
            assert(cur[b] == orig[b]);
        }
    }
    lemma_sums_bounds(cur);
}

/// Paying some deliveries never raises the unpaid sum.
proof fn lemma_unpaid_settled_le(orig: Seq<Delivery>, cur: Seq<Delivery>, t: i64)
    requires
        orig.len() == cur.len(),
        forall|b: int| 0 <= b < orig.len() ==> #[trigger] cur[b] == settle(orig[b], t) || cur[b] == orig[b],
        forall|b: int| 0 <= b < orig.len() ==> #[trigger] orig[b].end_time > orig[b].start_time,
    ensures
        unpaid_sum(cur) <= unpaid_sum(orig),
    decreases orig.len(),
{
    if orig.len() > 0 {
        let o = orig.drop_last();
        let c = cur.drop_last();
        assert forall|b: int| 0 <= b < o.len() implies #[trigger] c[b] == settle(o[b], t) || c[b] == o[b] by {
            assert(c[b] == cur[b] && o[b] == orig[b]);
        }
        assert forall|b: int| 0 <= b < o.len() implies #[trigger] o[b].end_time > o[b].start_time by {
            assert(o[b] == orig[b]);
        }
        lemma_unpaid_settled_le(o, c, t);
        assert(cur[cur.len() - 1] == settle(orig[orig.len() - 1], t) || cur[cur.len() - 1] == orig[orig.len() - 1]);
    }
}

proof fn lemma_prefix_cost(ds: Seq<Delivery>, j: int)
    requires
        0 <= j <= ds.len(),
        forall|b: int| 0 <= b < ds.len() ==> #[trigger] ds[b].end_time > ds[b].start_time,
    ensures
        0 <= cost_sum(ds.take(j)) <= cost_sum(ds),
    decreases ds.len() - j,
{
    if j < ds.len() {
        lemma_prefix_cost(ds, j + 1);
        assert(ds.take(j + 1).drop_last() =~= ds.take(j));
        assert(ds.take(j + 1)[j] == ds[j]);
    } else {
        assert(ds.take(j) =~= ds);
    }
    assert forall|b: int| 0 <= b < ds.take(j).len() implies #[trigger] ds.take(j)[b].end_time > ds.take(j)[b].start_time by {
        assert(ds.take(j)[b] == ds[b]);
    }
    lemma_sums_bounds(ds.take(j));
}

/// The cost still to be paid is never negative and never above the total.
pub proof fn lemma_unpaid_within_total(drivers: Seq<DriverView>)
    requires
        drivers_wf(drivers),
    ensures
        0 <= unpaid_of(drivers) <= total_of(drivers),
{
    lemma_totals_bounds(drivers);
}

/// Settling twice up to the same time is settling once.
pub proof fn lemma_settle_idempotent(drivers: Seq<DriverView>, t: i64)
    ensures
        settle_all(settle_all(drivers, t), t) == settle_all(drivers, t),
{
    let once = settle_all(drivers, t);
    let twice = settle_all(once, t);
    assert forall|i: int| 0 <= i < drivers.len() implies #[trigger] twice[i] == once[i] by {
        assert(twice[i].1 =~= once[i].1);
    }
    assert(twice =~= once);
}

/// After settling up to `t`, every delivery that ended by `t` is paid, and
/// no delivery's times change.
pub proof fn lemma_settled_up_to(drivers: Seq<DriverView>, t: i64, i: int, j: int)
    requires
        0 <= i < drivers.len(),
        0 <= j < drivers[i].1.len(),
    ensures
        settle_all(drivers, t)[i].1[j].start_time == drivers[i].1[j].start_time,
        settle_all(drivers, t)[i].1[j].end_time == drivers[i].1[j].end_time,
        drivers[i].1[j].end_time <= t ==> settle_all(drivers, t)[i].1[j].paid,
        drivers[i].1[j].end_time > t ==> settle_all(drivers, t)[i].1[j].paid == drivers[i].1[j].paid,
{
}

} // verus!
