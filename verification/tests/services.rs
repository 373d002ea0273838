use lld_rust::delivery_cost;
use lld_rust::delivery_settlement;
use lld_rust::parking::{
    AllocationStrategy, Car, NearestSlotStrategy, ParkingLot, Slot, Ticket, TicketFactory,
    Vehicle, VehicleType,
};
use lld_rust::rate_limiter::RateLimiter;

#[test]
fn delivery_total_cost_demo() {
    let mut system = delivery_cost::DeliveryCostSystem::new();
    system.add_driver("driver1".to_string());
    system.add_driver("driver2".to_string());
    assert!(system.add_delivery("driver1", 10, 40).is_ok());
    assert!(system.add_delivery("driver2", 50, 80).is_ok());
    assert_eq!(system.get_total_cost(), 60);
}

#[test]
fn delivery_rejects_bad_times_and_unknown_driver() {
    let mut system = delivery_cost::DeliveryCostSystem::new();
    system.add_driver("d".to_string());
    assert_eq!(
        system.add_delivery("d", 40, 40),
        Err("endTime must be greater than startTime".to_string())
    );
    assert_eq!(
        system.add_delivery("x", 10, 40),
        Err("Driver not found".to_string())
    );
    assert_eq!(
        system.add_delivery("x", 40, 10),
        Err("endTime must be greater than startTime".to_string())
    );
    assert_eq!(system.get_total_cost(), 0);
}

#[test]
fn delivery_readding_driver_keeps_deliveries() {
    let mut system = delivery_cost::DeliveryCostSystem::new();
    system.add_driver("d".to_string());
    system.add_delivery("d", 0, 5).unwrap();
    system.add_driver("d".to_string());
    system.add_delivery("d", 5, 12).unwrap();
    assert_eq!(system.get_total_cost(), 12);
}

#[test]
fn delivery_new_costs_duration() {
    let d = delivery_cost::Delivery::new(3, 10).unwrap();
    assert_eq!(d.cost, 7);
    assert!(delivery_cost::Delivery::new(10, 3).is_err());
}

#[test]
fn settlement_demo() {
    let mut system = delivery_settlement::DeliveryCostSystem::new();
    system.add_driver("driver1".to_string());
    system.add_driver("driver2".to_string());
    system.add_delivery("driver1", 10, 40).unwrap();
    system.add_delivery("driver2", 50, 80).unwrap();
    assert_eq!(system.get_total_cost(), 60);
    assert_eq!(system.get_cost_to_be_paid(), 60);
    assert_eq!(system.driver_costs(), vec![("driver1", 30), ("driver2", 30)]);
    system.pay_up_to_time(45);
    assert_eq!(system.get_cost_to_be_paid(), 30);
    system.pay_up_to_time(45);
    assert_eq!(system.get_cost_to_be_paid(), 30);
    system.pay_up_to_time(80);
    assert_eq!(system.get_cost_to_be_paid(), 0);
    assert_eq!(system.get_total_cost(), 60);
}

#[test]
fn settlement_errors_and_costs() {
    let mut system = delivery_settlement::DeliveryCostSystem::new();
    system.add_driver("a".to_string());
    assert_eq!(
        system.add_delivery("a", 5, 1),
        Err("endTime must be greater than startTime".to_string())
    );
    assert_eq!(system.add_delivery("b", 1, 5), Err("Driver not found".to_string()));
    system.add_delivery("a", 1, 5).unwrap();
    system.add_delivery("a", 5, 6).unwrap();
    assert_eq!(system.driver_costs(), vec![("a", 5)]);
    let d = delivery_settlement::Delivery::new(2, 9).unwrap();
    assert_eq!(d.cost(), 7);
    assert!(!d.paid);
}

#[test]
fn rate_limiter_demo_with_times() {
    let ms: u128 = 1_000_000;
    let mut limiter = RateLimiter::new(3, 5000);
    let results: Vec<bool> = (0..5u128)
        .map(|i| limiter.is_allowed_at(101, i * 500 * ms))
        .collect();
    assert_eq!(results, vec![true, true, true, false, false]);
    let others: Vec<bool> = (0..4).map(|_| limiter.is_allowed_at(202, 2500 * ms)).collect();
    assert_eq!(others, vec![true, true, true, false]);
}

#[test]
fn rate_limiter_window_slides() {
    let ms: u128 = 1_000_000;
    let mut limiter = RateLimiter::new(2, 1000);
    assert!(limiter.is_allowed_at(1, 0));
    assert!(limiter.is_allowed_at(1, 100 * ms));
    assert!(!limiter.is_allowed_at(1, 1000 * ms));
    assert!(limiter.is_allowed_at(1, 1001 * ms));
    assert!(!limiter.is_allowed_at(1, 1050 * ms));
}

#[test]
fn rate_limiter_zero_allows_nothing() {
    let mut limiter = RateLimiter::new(0, 1000);
    assert!(!limiter.is_allowed_at(9, 0));
}

#[test]
fn rate_limiter_with_the_clock() {
    let mut limiter = RateLimiter::new(3, 60_000);
    assert!(limiter.is_allowed(5));
    assert!(limiter.is_allowed(5));
    assert!(limiter.is_allowed(5));
    assert!(!limiter.is_allowed(5));
}

fn two_car_lot() -> ParkingLot {
    ParkingLot {
        slots: vec![
            Slot { id: 1, slot_type: VehicleType::Car, occupied_by: None },
            Slot { id: 2, slot_type: VehicleType::Car, occupied_by: None },
        ],
        strategy: Box::new(NearestSlotStrategy),
        ticket_counter: 0,
    }
}

#[test]
fn parking_demo() {
    let mut lot = two_car_lot();
    assert_eq!(lot.park(&Car), Some(Ticket { id: 1, slot_id: 1 }));
    assert_eq!(lot.park(&Car), Some(Ticket { id: 2, slot_id: 2 }));
    assert_eq!(lot.park(&Car), None);
    assert_eq!(lot.ticket_counter, 2);
    lot.release_slot(&Ticket { id: 1, slot_id: 1 });
    assert_eq!(lot.slots[0].occupied_by, None);
    assert_eq!(lot.slots[1].occupied_by, Some(2));
    assert_eq!(lot.park(&Car), Some(Ticket { id: 3, slot_id: 1 }));
}

#[test]
fn parking_car_finds_no_truck_slot() {
    let mut lot = ParkingLot {
        slots: vec![Slot { id: 1, slot_type: VehicleType::Truck, occupied_by: None }],
        strategy: Box::new(NearestSlotStrategy),
        ticket_counter: 0,
    };
    assert_eq!(lot.park(&Car), None);
    assert_eq!(lot.ticket_counter, 0);
    assert_eq!(lot.slots[0].occupied_by, None);
}

#[test]
fn nearest_strategy_picks_first_free_slot_of_type() {
    let slots = vec![
        Slot { id: 7, slot_type: VehicleType::Car, occupied_by: Some(1) },
        Slot { id: 8, slot_type: VehicleType::Truck, occupied_by: None },
        Slot { id: 9, slot_type: VehicleType::Car, occupied_by: None },
    ];
    assert_eq!(NearestSlotStrategy.find_slot(&slots, VehicleType::Car), Some(9));
    assert_eq!(NearestSlotStrategy.find_slot(&slots, VehicleType::Truck), Some(8));
    assert_eq!(NearestSlotStrategy.find_slot(&slots, VehicleType::Bike), None);
}

#[test]
fn ticket_factory_creates_ticket() {
    assert_eq!(TicketFactory::create(4, 11), Ticket { id: 4, slot_id: 11 });
    assert_eq!(Car.vehicle_type(), VehicleType::Car);
}
