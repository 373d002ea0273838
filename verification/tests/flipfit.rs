use lld_rust::flipfit::{seed, FlipFit, FlipFitError, WorkoutType};

const DAY: &str = "12-03-20";

fn seeded() -> FlipFit {
    let mut flip = FlipFit::new();
    seed(&mut flip);
    flip
}

#[test]
fn register_generates_prefix_and_sequence() {
    let mut flip = seeded();
    assert_eq!(flip.register("Aashi", "abc@gmail.com", "123", "xyz").unwrap(), "aash1");
    assert_eq!(flip.register("Rahul", "rahul@gmail.com", "999", "pw").unwrap(), "rahu2");
    assert_eq!(flip.register("Dev", "dev@x.com", "4", "p").unwrap(), "dev3");
    assert_eq!(flip.register("J. R.-2", "j@x.com", "4", "p").unwrap(), "jr24");
}

#[test]
fn register_rejects_duplicate_email() {
    let mut flip = seeded();
    flip.register("Aashi", "abc@gmail.com", "123", "xyz").unwrap();
    match flip.register("Imposter", "abc@gmail.com", "000", "pw") {
        Err(e) => {
            assert!(matches!(&e, FlipFitError::EmailAlreadyRegistered(m) if m == "abc@gmail.com"));
            assert_eq!(e.message(), "a user with email 'abc@gmail.com' is already registered");
        }
        Ok(_) => panic!("duplicate email accepted"),
    }
    assert_eq!(flip.register("Other", "o@x.com", "1", "p").unwrap(), "othe2");
}

#[test]
fn seeded_workouts_for_a_day() {
    let flip = seeded();
    let views = flip.view_workouts_for_day(DAY);
    assert_eq!(views.len(), 24);
    let v = &views[0];
    assert_eq!((v.center_id, v.center_name.as_str(), v.slot_id), (1, "Koramangala", 1));
    assert_eq!(v.timing, "06 AM - 07 AM");
    assert_eq!(v.workout_type, WorkoutType::Weights);
    assert_eq!(v.available_capacity, 3);
    let v = &views[1];
    assert_eq!((v.slot_id, v.workout_type), (2, WorkoutType::Cardio));
    let v = &views[12];
    assert_eq!((v.center_id, v.center_name.as_str(), v.slot_id), (2, "Bellandur", 13));
    assert_eq!(views[23].timing, "08 PM - 09 PM");
}

#[test]
fn booking_flow_and_edge_cases() {
    let mut flip = seeded();
    let aashi = flip.register("Aashi", "abc@gmail.com", "123", "xyz").unwrap();
    let rahul = flip.register("Rahul", "rahul@gmail.com", "999", "pw").unwrap();
    let meera = flip.register("Meera", "meera@x.com", "1", "p").unwrap();
    let kabir = flip.register("Kabir", "kabir@x.com", "2", "p").unwrap();
    let sara = flip.register("Sara", "sara@x.com", "3", "p").unwrap();
    let dev = flip.register("Dev", "dev@x.com", "4", "p").unwrap();

    let c = match flip.book_workout(&aashi, 1, 1, DAY) {
        Ok(c) => c,
        Err(e) => panic!("{}", e.message()),
    };
    assert_eq!((c.booking_id, c.slot_id, c.center_id), (1, 1, 1));
    assert_eq!(c.timing, "06 AM - 07 AM");
    assert_eq!(c.workout_type, WorkoutType::Weights);
    assert_eq!(c.center_name, "Koramangala");

    for (i, u) in [&meera, &kabir, &sara].iter().enumerate() {
        let c = flip.book_workout(u, 1, 2, DAY).ok().unwrap();
        assert_eq!(c.booking_id, 2 + i as u32);
    }
    let e = flip.book_workout(&dev, 1, 2, DAY).err().unwrap();
    assert!(matches!(e, FlipFitError::SlotFull(2)));
    assert_eq!(e.message(), "slot 2 is fully booked for the requested day");

    let e = flip.book_workout(&aashi, 1, 1, DAY).err().unwrap();
    assert!(matches!(&e, FlipFitError::DuplicateBooking { user_id, slot_id: 1, day } if user_id == "aash1" && day == DAY));
    assert_eq!(e.message(), "user 'aash1' has already booked slot 1 on 12-03-20");

    let c = flip.book_workout(&aashi, 1, 1, "13-03-20").ok().unwrap();
    assert_eq!(c.booking_id, 5);

    let e = flip.book_workout("ghost999", 1, 3, DAY).err().unwrap();
    assert_eq!(e.message(), "no registered user with id 'ghost999'");
    let e = flip.book_workout(&rahul, 1, 13, DAY).err().unwrap();
    assert!(matches!(e, FlipFitError::SlotNotInCenter { slot_id: 13, center_id: 1 }));
    assert_eq!(e.message(), "slot 13 does not belong to center 1");
    let e = flip.book_workout(&rahul, 1, 999, DAY).err().unwrap();
    assert!(matches!(e, FlipFitError::SlotNotFound(999)));
    assert_eq!(e.message(), "no slot with id 999");

    let views = flip.view_workouts_for_day(DAY);
    assert_eq!(views[0].available_capacity, 2);
    assert_eq!(views[1].available_capacity, 0);
    assert_eq!(flip.booked_count(2, DAY), 3);
    assert_eq!(flip.booked_count(1, "13-03-20"), 1);
}

#[test]
fn user_plan_for_a_day() {
    let mut flip = seeded();
    let aashi = flip.register("Aashi", "abc@gmail.com", "123", "xyz").unwrap();
    flip.book_workout(&aashi, 1, 1, DAY).ok().unwrap();
    let plan = flip.view_user_plan(&aashi, DAY).ok().unwrap();
    assert_eq!(plan.len(), 1);
    assert_eq!(plan[0].user_name, "Aashi");
    assert_eq!(plan[0].center_name, "Koramangala");
    assert_eq!(plan[0].timing, "06 AM - 07 AM");
    assert_eq!(plan[0].workout_type, WorkoutType::Weights);
    assert!(flip.view_user_plan(&aashi, "01-01-21").ok().unwrap().is_empty());
    let e = flip.view_user_plan("nobody", DAY).err().unwrap();
    assert!(matches!(&e, FlipFitError::UserNotFound(u) if u == "nobody"));
}

#[test]
fn user_plan_sorted_by_timing() {
    let mut flip = seeded();
    let u = flip.register("Zed", "z@x.com", "1", "p").unwrap();
    // slot 11: 08 PM - 09 PM Weights; slot 4: 07 AM - 08 AM Cardio; slot 13: Bellandur 06 AM
    flip.book_workout(&u, 1, 11, DAY).ok().unwrap();
    flip.book_workout(&u, 1, 4, DAY).ok().unwrap();
    flip.book_workout(&u, 2, 13, DAY).ok().unwrap();
    flip.book_workout(&u, 1, 7, DAY).ok().unwrap();
    let plan = flip.view_user_plan(&u, DAY).ok().unwrap();
    let timings: Vec<&str> = plan.iter().map(|p| p.timing.as_str()).collect();
    assert_eq!(
        timings,
        vec!["06 AM - 07 AM", "06 PM - 07 PM", "07 AM - 08 AM", "08 PM - 09 PM"]
    );
    assert_eq!(plan[0].center_name, "Bellandur");
}

#[test]
fn admin_update_and_add() {
    let mut flip = seeded();
    assert!(flip.update_slot_capacity(1, 3, 5).is_ok());
    let v = flip.view_workouts_for_day(DAY);
    assert_eq!(v[2].available_capacity, 5);
    let e = flip.update_slot_capacity(2, 1, 10).err().unwrap();
    assert!(matches!(e, FlipFitError::SlotNotInCenter { slot_id: 1, center_id: 2 }));
    let e = flip.update_slot_capacity(1, 0, 10).err().unwrap();
    assert!(matches!(e, FlipFitError::SlotNotFound(0)));
    assert_eq!(flip.add_slot(2, "09 PM - 10 PM", WorkoutType::Cardio, 4).ok(), Some(25));
    let e = flip.add_slot(99, "09 PM - 10 PM", WorkoutType::Cardio, 4).err().unwrap();
    assert!(matches!(e, FlipFitError::CenterNotFound(99)));
    assert_eq!(e.message(), "no center with id 99");
    assert_eq!(flip.add_center("Indiranagar"), 3);
}

#[test]
fn lowered_capacity_shows_zero_available() {
    let mut flip = seeded();
    let a = flip.register("Ann", "a@x.com", "1", "p").unwrap();
    let b = flip.register("Bob", "b@x.com", "1", "p").unwrap();
    flip.book_workout(&a, 1, 5, DAY).ok().unwrap();
    flip.book_workout(&b, 1, 5, DAY).ok().unwrap();
    flip.update_slot_capacity(1, 5, 1).unwrap();
    assert_eq!(flip.view_workouts_for_day(DAY)[4].available_capacity, 0);
    let c = flip.register("Cid", "c@x.com", "1", "p").unwrap();
    assert!(matches!(flip.book_workout(&c, 1, 5, DAY).err().unwrap(), FlipFitError::SlotFull(5)));
}

#[test]
fn workout_type_names() {
    assert_eq!(WorkoutType::Weights.name(), "Weights");
    assert_eq!(WorkoutType::Cardio.name(), "Cardio");
}

#[test]
fn generate_user_id_advances_sequence() {
    let mut flip = FlipFit::new();
    assert_eq!(flip.generate_user_id("ÀB"), "àb1");
    assert_eq!(flip.generate_user_id("..."), "2");
    assert_eq!(flip.generate_user_id("ABCDEFG"), "abcd3");
}

#[test]
fn generated_ids_never_repeat() {
    let mut flip = FlipFit::new();
    assert_eq!(flip.generate_user_id("a1"), "a11");
    for _ in 0..9 {
        flip.generate_user_id("zz");
    }
    // number 11 would give "a11" again for "a": it is passed over
    assert_eq!(flip.generate_user_id("a"), "a12");
    assert_eq!(flip.generate_user_id("b"), "b13");
}

#[test]
fn registering_never_replaces_a_user() {
    let mut flip = FlipFit::new();
    seed(&mut flip);
    let first = flip.register("ab1", "one@x.com", "1", "p").unwrap();
    assert_eq!(first, "ab11");
    for i in 0..9 {
        flip.register("zz", &format!("z{i}@x.com"), "1", "p").unwrap();
    }
    let second = flip.register("ab", "two@x.com", "1", "p").unwrap();
    assert_eq!(second, "ab12");
    let plan = flip.view_user_plan(&first, "12-03-20").ok().unwrap();
    assert!(plan.is_empty());
    let booked = flip.book_workout(&first, 1, 1, "12-03-20").ok().unwrap();
    assert_eq!(booked.booking_id, 1);
    let plan = flip.view_user_plan(&first, "12-03-20").ok().unwrap();
    assert_eq!(plan[0].user_name, "ab1");
}
