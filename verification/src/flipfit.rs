//! FlipFit: an in-memory gym-slot booking service.
//!
//! The bookable unit is a slot: a (center, timing, workout type) with its own
//! capacity. Capacity counts per day, so a user may book one slot once per
//! day. Centers, slots and bookings get ids 1, 2, 3, ... in order of creation.

use vstd::prelude::*;
use crate::text::{nat_decimal, push_char, push_decimal};

verus! {

/// Whether std counts the character as alphanumeric (`char::is_alphanumeric`).
pub uninterp spec fn is_alphanumeric(c: char) -> bool;

/// The lower-case form of a string as std computes it (`str::to_lowercase`).
pub uninterp spec fn to_lowercase(s: Seq<char>) -> Seq<char>;

/// `char::is_alphanumeric`: the result is what `is_alphanumeric` names.
#[verifier::external_body]
fn char_is_alphanumeric(c: char) -> (r: bool)
    ensures
        r == is_alphanumeric(c),
{
    c.is_alphanumeric()
}

/// `str::to_lowercase`: the result is what `to_lowercase` names.
#[verifier::external_body]
fn str_to_lowercase(s: &str) -> (r: String)
    ensures
        r@ == to_lowercase(s@),
{
    s.to_lowercase()
}

#[derive(Clone, Copy, Debug, PartialEq, Eq, Structural)]
pub enum WorkoutType {
    Weights,
    Cardio,
}

/// The name of a workout type.
pub open spec fn workout_name(w: WorkoutType) -> Seq<char> {
    match w {
        WorkoutType::Weights => seq!['W', 'e', 'i', 'g', 'h', 't', 's'],
        WorkoutType::Cardio => seq!['C', 'a', 'r', 'd', 'i', 'o'],
    }
}

impl WorkoutType {
    /// The name of the workout type.
    pub fn name(&self) -> (r: &'static str)
        ensures
            r@ == workout_name(*self),
    {
        match self {
            WorkoutType::Weights => {
                proof {
                    reveal_strlit("Weights");
                }
                "Weights"
            },
            WorkoutType::Cardio => {
                proof {
                    reveal_strlit("Cardio");
                }
                "Cardio"
            },
        }
    }
}

#[derive(Debug)]
pub struct User {
    pub id: String,
    pub name: String,
    pub email: String,
    pub phone: String,
    pub password: String,
}

#[derive(Debug)]
pub struct Center {
    pub id: u32,
    pub name: String,
}

/// A single bookable session: a (center, timing, workout type) with a capacity.
#[derive(Debug)]
pub struct Slot {
    pub id: u32,
    pub center_id: u32,
    pub timing: String,
    pub workout_type: WorkoutType,
    pub capacity: u32,
}

#[derive(Debug)]
pub struct Booking {
    pub id: u32,
    pub user_id: String,
    pub slot_id: u32,
    pub day: String,
}

#[derive(Debug)]
pub enum FlipFitError {
    EmailAlreadyRegistered(String),
    UserNotFound(String),
    CenterNotFound(u32),
    SlotNotFound(u32),
    SlotNotInCenter { slot_id: u32, center_id: u32 },
    SlotFull(u32),
    DuplicateBooking { user_id: String, slot_id: u32, day: String },
}

#[derive(Debug)]
pub struct WorkoutView {
    pub center_id: u32,
    pub center_name: String,
    pub slot_id: u32,
    pub timing: String,
    pub workout_type: WorkoutType,
    pub available_capacity: u32,
}

#[derive(Debug)]
pub struct BookingConfirmation {
    pub booking_id: u32,
    pub slot_id: u32,
    pub timing: String,
    pub workout_type: WorkoutType,
    pub center_id: u32,
    pub center_name: String,
}

#[derive(Debug)]
pub struct PlanItem {
    pub user_name: String,
    pub center_name: String,
    pub timing: String,
    pub workout_type: WorkoutType,
}

/// `(id, name, email, phone, password)`.
pub type UserView = (Seq<char>, Seq<char>, Seq<char>, Seq<char>, Seq<char>);

/// `(id, center_id, timing, workout_type, capacity)`.
pub type SlotView = (u32, u32, Seq<char>, WorkoutType, u32);

/// `(id, user_id, slot_id, day)`.
pub type BookingView = (u32, Seq<char>, u32, Seq<char>);

/// `(user_name, center_name, timing, workout_type)`.
pub type PlanItemView = (Seq<char>, Seq<char>, Seq<char>, WorkoutType);

impl User {
    pub open spec fn view(&self) -> UserView {
        (self.id@, self.name@, self.email@, self.phone@, self.password@)
    }
}

impl Slot {
    pub open spec fn view(&self) -> SlotView {
        (self.id, self.center_id, self.timing@, self.workout_type, self.capacity)
    }
}

impl Booking {
    pub open spec fn view(&self) -> BookingView {
        (self.id, self.user_id@, self.slot_id, self.day@)
    }
}

impl PlanItem {
    pub open spec fn view(&self) -> PlanItemView {
        (self.user_name@, self.center_name@, self.timing@, self.workout_type)
    }
}

/// The first `k` alphanumeric characters of `s`.
pub open spec fn alnum_prefix(s: Seq<char>, k: nat) -> Seq<char>
    decreases s.len(),
{
    if s.len() == 0 || k == 0 {
        Seq::empty()
    } else if is_alphanumeric(s[0]) {
        seq![s[0]] + alnum_prefix(s.drop_first(), (k - 1) as nat)
    } else {
        alnum_prefix(s.drop_first(), k)
    }
}

/// The id a user named `name` gets as the `seq`-th registration: up to four
/// alphanumerics of the name in lower case, then the number.
pub open spec fn user_id_for(name: Seq<char>, seq: nat) -> Seq<char> {
    to_lowercase(alnum_prefix(name, 4)) + nat_decimal(seq)
}

/// `n` is the first registration number from `from` on whose id for `name`
/// has not been handed out yet.
pub open spec fn first_free(name: Seq<char>, issued: Seq<Seq<char>>, from: nat, n: nat) -> bool {
    &&& from <= n
    &&& !issued.contains(user_id_for(name, n))
    &&& forall|m: nat| from <= m < n ==> issued.contains(#[trigger] user_id_for(name, m))
}

/// Different numbers give different ids for one name.
proof fn lemma_user_id_injective(name: Seq<char>, a: nat, b: nat)
    requires
        user_id_for(name, a) == user_id_for(name, b),
    ensures
        a == b,
{
    let p = to_lowercase(alnum_prefix(name, 4));
    assert((p + nat_decimal(a)).skip(p.len() as int) =~= nat_decimal(a));
    assert((p + nat_decimal(b)).skip(p.len() as int) =~= nat_decimal(b));
    crate::text::lemma_nat_decimal_injective(a, b);
}

/// There is at most one first free number.
pub proof fn lemma_first_free_unique(name: Seq<char>, issued: Seq<Seq<char>>, from: nat, n1: nat, n2: nat)
    requires
        first_free(name, issued, from, n1),
        first_free(name, issued, from, n2),
    ensures
        n1 == n2,
{
    if n1 < n2 {
        assert(issued.contains(user_id_for(name, n1)));
    } else if n2 < n1 {
        assert(issued.contains(user_id_for(name, n2)));
    }
}

/// The numbers tried for one name, all taken, are no more than the ids
/// handed out.
proof fn lemma_tried_ids_fit(name: Seq<char>, issued: Seq<Seq<char>>, from: nat, count: nat)
    requires
        forall|m: nat| from <= m < from + count ==> issued.contains(#[trigger] user_id_for(name, m)),
    ensures
        count <= issued.len(),
{
    let tried = Seq::new(count, |j: int| user_id_for(name, (from + j) as nat));
    assert(tried.no_duplicates()) by {
        assert forall|a: int, b: int| 0 <= a < tried.len() && 0 <= b < tried.len() && a != b implies tried[a]
            != tried[b] by {
            if tried[a] == tried[b] {
                lemma_user_id_injective(name, (from + a) as nat, (from + b) as nat);
            }
        }
    }
    tried.unique_seq_to_set();
    assert(tried.to_set().subset_of(issued.to_set())) by {
        assert forall|x: Seq<char>| tried.to_set().contains(x) implies issued.to_set().contains(x) by {
            let j = choose|j: int| 0 <= j < tried.len() && tried[j] == x;
            assert(issued.contains(user_id_for(name, (from + j) as nat)));
        }
    }
    issued.lemma_cardinality_of_set();
    vstd::set_lib::lemma_len_subset(tried.to_set(), issued.to_set());
}

/// The position of the user with `id`, if any.
pub open spec fn find_user(us: Seq<UserView>, id: Seq<char>) -> Option<int>
    decreases us.len(),
{
    if us.len() == 0 {
        None
    } else if us[0].0 == id {
        Some(0)
    } else {
        match find_user(us.drop_first(), id) {
            Some(i) => Some(i + 1),
            None => None,
        }
    }
}

/// Some user has this email.
pub open spec fn email_taken(us: Seq<UserView>, email: Seq<char>) -> bool {
    exists|i: int| 0 <= i < us.len() && #[trigger] us[i].2 == email
}

/// The users after storing `u` under its id: it replaces a user with the same
/// id, or joins at the end.
pub open spec fn upsert_user(us: Seq<UserView>, u: UserView) -> Seq<UserView> {
    match find_user(us, u.0) {
        Some(i) => us.update(i, u),
        None => us.push(u),
    }
}

/// How many bookings are for the slot on the day.
pub open spec fn count_bookings(bs: Seq<BookingView>, slot_id: u32, day: Seq<char>) -> nat
    decreases bs.len(),
{
    if bs.len() == 0 {
        0
    } else {
        count_bookings(bs.drop_last(), slot_id, day) + if bs.last().2 == slot_id && bs.last().3 == day {
            1nat
        } else {
            0nat
        }
    }
}

/// Some booking is by the user for the slot on the day.
pub open spec fn has_booking(bs: Seq<BookingView>, user_id: Seq<char>, slot_id: u32, day: Seq<char>) -> bool {
    exists|i: int|
        0 <= i < bs.len() && #[trigger] bs[i].1 == user_id && bs[i].2 == slot_id && bs[i].3 == day
}


/// `(center_id, center_name, slot_id, timing, workout_type, available_capacity)`.
pub type WorkoutViewView = (u32, Seq<char>, u32, Seq<char>, WorkoutType, u32);

/// `(booking_id, slot_id, timing, workout_type, center_id, center_name)`.
pub type ConfirmationView = (u32, u32, Seq<char>, WorkoutType, u32, Seq<char>);

impl WorkoutView {
    pub open spec fn view(&self) -> WorkoutViewView {
        (self.center_id, self.center_name@, self.slot_id, self.timing@, self.workout_type, self.available_capacity)
    }
}

impl BookingConfirmation {
    pub open spec fn view(&self) -> ConfirmationView {
        (self.booking_id, self.slot_id, self.timing@, self.workout_type, self.center_id, self.center_name@)
    }
}

/// `a - b`, or 0 when `b` is larger.
pub open spec fn sat_sub(a: u32, b: u32) -> u32 {
    if a > b {
        (a - b) as u32
    } else {
        0
    }
}

/// Byte strings in lexicographic order: `a` does not come after `b`.
pub open spec fn bytes_le(a: Seq<u8>, b: Seq<u8>) -> bool
    decreases a.len(),
{
    if a.len() == 0 {
        true
    } else if b.len() == 0 {
        false
    } else if a[0] != b[0] {
        a[0] < b[0]
    } else {
        bytes_le(a.drop_first(), b.drop_first())
    }
}

/// A plan item is ordered by the UTF-8 bytes of its timing (as `String`s order).
pub open spec fn timing_key(p: PlanItemView) -> Seq<u8> {
    vstd::utf8::encode_utf8(p.2)
}

/// Where a stable insertion puts `x` into the ordered `s`: after the last
/// item whose timing does not come after `x`'s.
pub open spec fn insert_pos(s: Seq<PlanItemView>, x: PlanItemView) -> int
    decreases s.len(),
{
    if s.len() == 0 {
        0
    } else if bytes_le(timing_key(s.last()), timing_key(x)) {
        s.len() as int
    } else {
        insert_pos(s.drop_last(), x)
    }
}

/// The items in timing order; items of equal timing keep their order.
pub open spec fn sort_by_timing(s: Seq<PlanItemView>) -> Seq<PlanItemView>
    decreases s.len(),
{
    if s.len() == 0 {
        Seq::empty()
    } else {
        let sorted = sort_by_timing(s.drop_last());
        sorted.insert(insert_pos(sorted, s.last()), s.last())
    }
}

proof fn lemma_insert_pos_bounds(s: Seq<PlanItemView>, x: PlanItemView)
    ensures
        0 <= insert_pos(s, x) <= s.len(),
    decreases s.len(),
{
    if s.len() > 0 && !bytes_le(timing_key(s.last()), timing_key(x)) {
        lemma_insert_pos_bounds(s.drop_last(), x);
    }
}

proof fn lemma_sort_len(s: Seq<PlanItemView>)
    ensures
        sort_by_timing(s).len() == s.len(),
    decreases s.len(),
{
    if s.len() > 0 {
        lemma_sort_len(s.drop_last());
        lemma_insert_pos_bounds(sort_by_timing(s.drop_last()), s.last());
    }
}

/// How many bookings are by the user on the day.
pub open spec fn user_day_count(bs: Seq<BookingView>, user_id: Seq<char>, day: Seq<char>) -> nat
    decreases bs.len(),
{
    if bs.len() == 0 {
        0
    } else {
        user_day_count(bs.drop_last(), user_id, day) + if bs.last().1 == user_id && bs.last().3 == day {
            1nat
        } else {
            0nat
        }
    }
}

/// Sorting by timing only reorders: every item of the result is an item of
/// the input.
proof fn lemma_sort_members(s: Seq<PlanItemView>)
    ensures
        forall|k: int|
            #![trigger sort_by_timing(s)[k]]
            0 <= k < sort_by_timing(s).len() ==> exists|j: int| 0 <= j < s.len() && #[trigger] s[j] == sort_by_timing(s)[k],
    decreases s.len(),
{
    lemma_sort_len(s);
    if s.len() > 0 {
        let d = s.drop_last();
        lemma_sort_members(d);
        lemma_sort_len(d);
        let sorted = sort_by_timing(d);
        let p = insert_pos(sorted, s.last());
        lemma_insert_pos_bounds(sorted, s.last());
        let r = sort_by_timing(s);
        assert(r == sorted.insert(p, s.last()));
        assert forall|k: int| #![trigger r[k]] 0 <= k < r.len() implies exists|j: int| 0 <= j < s.len() && #[trigger] s[j] == r[k] by {
            if k < p {
                assert(r[k] == sorted[k]);
                let j = choose|j: int| 0 <= j < d.len() && #[trigger] d[j] == sorted[k];
                assert(s[j] == d[j]);
            } else if k == p {
                assert(r[k] == s[s.len() - 1]);
            } else {
                assert(r[k] == sorted[k - 1]);
                let j = choose|j: int| 0 <= j < d.len() && #[trigger] d[j] == sorted[k - 1];
                assert(s[j] == d[j]);
            }
        }
    }
}

proof fn lemma_find_user(us: Seq<UserView>, id: Seq<char>)
    ensures
        find_user(us, id) matches Some(i) ==> 0 <= i < us.len() && us[i].0 == id && forall|j: int|
            0 <= j < i ==> us[j].0 != id,
        find_user(us, id) is None ==> forall|j: int| 0 <= j < us.len() ==> us[j].0 != id,
    decreases us.len(),
{
    if us.len() > 0 && us[0].0 != id {
        lemma_find_user(us.drop_first(), id);
        assert forall|j: int| 1 <= j < us.len() implies us[j] == us.drop_first()[j - 1] by {}
    }
}

pub struct FlipFit {
    users: Vec<User>,
    /// Center `i + 1` at position `i`.
    centers: Vec<Center>,
    /// Slot `i + 1` at position `i`.
    slots: Vec<Slot>,
    bookings: Vec<Booking>,
    next_center_id: u32,
    next_slot_id: u32,
    next_booking_id: u32,
    user_seq: u32,
    /// Every user id handed out so far, in order.
    issued: Vec<String>,
}

impl FlipFit {
    pub closed spec fn users_view(&self) -> Seq<UserView> {
        self.users@.map_values(|u: User| u@)
    }

    /// The centers' names; center `i + 1` at position `i`.
    pub closed spec fn centers_view(&self) -> Seq<Seq<char>> {
        self.centers@.map_values(|c: Center| c.name@)
    }

    /// The slots; slot `i + 1` at position `i`.
    pub closed spec fn slots_view(&self) -> Seq<SlotView> {
        self.slots@.map_values(|s: Slot| s@)
    }

    /// The bookings in the order made; booking `i + 1` at position `i`.
    pub closed spec fn bookings_view(&self) -> Seq<BookingView> {
        self.bookings@.map_values(|b: Booking| b@)
    }

    /// The number of the next registration.
    pub closed spec fn spec_user_seq(&self) -> u32 {
        self.user_seq
    }

    /// Every user id handed out so far, in order.
    pub closed spec fn spec_issued(&self) -> Seq<Seq<char>> {
        self.issued@.map_values(|s: String| s@)
    }

    /// Ids are positions plus one; every slot's center and every booking's
    /// slot exist, every booking's user is registered, and no user id is
    /// held twice.
    pub closed spec fn wf(&self) -> bool {
        &&& forall|i: int| 0 <= i < self.centers@.len() ==> #[trigger] self.centers@[i].id == i + 1
        &&& self.next_center_id == self.centers@.len() + 1
        &&& forall|i: int| 0 <= i < self.slots@.len() ==> #[trigger] self.slots@[i].id == i + 1
        &&& self.next_slot_id == self.slots@.len() + 1
        &&& forall|i: int|
            0 <= i < self.slots@.len() ==> 1 <= #[trigger] self.slots@[i].center_id <= self.centers@.len()
        &&& forall|i: int| 0 <= i < self.bookings@.len() ==> #[trigger] self.bookings@[i].id == i + 1
        &&& self.next_booking_id == self.bookings@.len() + 1
        &&& forall|i: int|
            0 <= i < self.bookings@.len() ==> 1 <= #[trigger] self.bookings@[i].slot_id <= self.slots@.len()
        &&& forall|i: int|
            0 <= i < self.bookings@.len() ==> find_user(self.users_view(), #[trigger] self.bookings@[i].user_id@) is Some
        &&& forall|i: int, j: int| 0 <= i < j < self.users@.len() ==> self.users@[i].id@ != self.users@[j].id@
        &&& bookings_unique(self.bookings_view())
        &&& self.spec_issued().no_duplicates()
        &&& forall|i: int| 0 <= i < self.users@.len() ==> self.spec_issued().contains(#[trigger] self.users@[i].id@)
    }

    /// In a valid service no id was handed out twice, and every user's id is
    /// one of those handed out.
    pub proof fn lemma_ids_unique(&self)
        requires
            self.valid(),
        ensures
            self.spec_issued().no_duplicates(),
            forall|i: int| 0 <= i < self.users_view().len() ==> self.spec_issued().contains(#[trigger] self.users_view()[i].0),
    {
        assert forall|i: int| 0 <= i < self.users_view().len() implies self.spec_issued().contains(#[trigger] self.users_view()[i].0) by {
            assert(self.users_view()[i].0 == self.users@[i].id@);
        }
    }

    /// In a valid service no user holds two bookings of one slot on one day.
    pub proof fn lemma_valid_bookings_unique(&self)
        requires
            self.valid(),
        ensures
            bookings_unique(self.bookings_view()),
    {
    }

    /// The service's invariant holds.
    pub open spec fn valid(&self) -> bool {
        self.wf()
    }

    /// An empty service: no users, centers, slots or bookings.
    pub fn new() -> (f: Self)
        ensures
            f.valid(),
            f.users_view() == Seq::<UserView>::empty(),
            f.centers_view() == Seq::<Seq<char>>::empty(),
            f.slots_view() == Seq::<SlotView>::empty(),
            f.bookings_view() == Seq::<BookingView>::empty(),
            f.spec_user_seq() == 1,
            f.spec_issued() == Seq::<Seq<char>>::empty(),
    {
        let f = FlipFit {
            users: Vec::new(),
            centers: Vec::new(),
            slots: Vec::new(),
            bookings: Vec::new(),
            next_center_id: 1,
            next_slot_id: 1,
            next_booking_id: 1,
            user_seq: 1,
            issued: Vec::new(),
        };
        assert(f.spec_issued() =~= Seq::<Seq<char>>::empty());
        assert(f.users_view() =~= Seq::<UserView>::empty());
        assert(f.centers_view() =~= Seq::<Seq<char>>::empty());
        assert(f.slots_view() =~= Seq::<SlotView>::empty());
        assert(f.bookings_view() =~= Seq::<BookingView>::empty());
        f
    }

    /// The centers, slots and bookings are those of `other`.
    pub open spec fn same_catalog(&self, other: &FlipFit) -> bool {
        &&& self.centers_view() == other.centers_view()
        &&& self.slots_view() == other.slots_view()
        &&& self.bookings_view() == other.bookings_view()
    }

    fn user_index(&self, id: &str) -> (r: Option<usize>)
        ensures
            r matches Some(i) ==> find_user(self.users_view(), id@) == Some(i as int) && i
                < self.users@.len(),
            r is None ==> find_user(self.users_view(), id@) is None,
    {
        let ghost us = self.users_view();
        proof {
            lemma_find_user(us, id@);
        }
        let target = String::from_str(id);
        let mut i: usize = 0;
        while i < self.users.len()
            invariant
                us == self.users_view(),
                target@ == id@,
                i <= us.len(),
                forall|j: int| 0 <= j < i ==> us[j].0 != id@,
                find_user(us, id@) matches Some(f) ==> 0 <= f < us.len() && us[f].0 == id@ && forall|
                    j: int,
                | 0 <= j < f ==> us[j].0 != id@,
                find_user(us, id@) is None ==> forall|j: int| 0 <= j < us.len() ==> us[j].0 != id@,
            decreases us.len() - i,
        {
            if self.users[i].id == target {
                proof {
                    assert(us[i as int].0 == id@);
                    if let Some(f) = find_user(us, id@) {
                        if f != i {
                            assert(us[f].0 == id@);
                        }
                    }
                }
                return Some(i);
            }
            i = i + 1;
        }
        None
    }

    pub fn email_in_use(&self, email: &str) -> (r: bool)
        ensures
            r == email_taken(self.users_view(), email@),
    {
        let ghost us = self.users_view();
        let target = String::from_str(email);
        let mut i: usize = 0;
        while i < self.users.len()
            invariant
                us == self.users_view(),
                target@ == email@,
                i <= us.len(),
                forall|j: int| 0 <= j < i ==> us[j].2 != email@,
            decreases us.len() - i,
        {
            if self.users[i].email == target {
                assert(us[i as int].2 == email@);
                return true;
            }
            i = i + 1;
        }
        false
    }

    /// Registers a user and returns the new id; an error when the email is
    /// already registered.
    pub fn register(&mut self, name: &str, email: &str, phone: &str, password: &str) -> (r: Result<
        String,
        FlipFitError,
    >)
        requires
            old(self).valid(),
            !email_taken(old(self).users_view(), email@) ==> old(self).spec_user_seq()
                + old(self).spec_issued().len() < u32::MAX,
        ensures
            final(self).valid(),
            final(self).same_catalog(old(self)),
            email_taken(old(self).users_view(), email@) ==> (r matches Err(
                FlipFitError::EmailAlreadyRegistered(e),
            ) && e@ == email@) && final(self).users_view() == old(self).users_view()
                && final(self).spec_user_seq() == old(self).spec_user_seq()
                && final(self).spec_issued() == old(self).spec_issued(),
            !email_taken(old(self).users_view(), email@) ==> exists|n: nat|
                #[trigger] first_free(name@, old(self).spec_issued(), old(self).spec_user_seq() as nat, n)
                    && ({
                    let id = user_id_for(name@, n);
                    &&& (r matches Ok(s) && s@ == id)
                    &&& final(self).users_view() == old(self).users_view().push(
                        (id, name@, email@, phone@, password@),
                    )
                    &&& final(self).spec_user_seq() == n + 1
                    &&& final(self).spec_issued() == old(self).spec_issued().push(id)
                }),
            final(self).spec_user_seq() <= old(self).spec_user_seq() + old(self).spec_issued().len() + 1,
    {
        if self.email_in_use(email) {
            return Err(FlipFitError::EmailAlreadyRegistered(String::from_str(email)));
        }
        let id = self.generate_user_id(name);
        let ghost issued1 = self.spec_issued();
        let user = User {
            id: id.clone(),
            name: String::from_str(name),
            email: String::from_str(email),
            phone: String::from_str(phone),
            password: String::from_str(password),
        };
        let ghost us = self.users_view();
        proof {
            lemma_find_user(us, id@);
            if let Some(q) = find_user(us, id@) {
                assert(us[q].0 == self.users@[q].id@);
                assert(self.spec_issued().contains(self.users@[q].id@));
            }
        }
        match self.user_index(id.as_str()) {
            Some(i) => {
                self.users.set(i, user);
                proof {
                    assert(self.users_view() =~= us.update(i as int, user@));
                    assert forall|a: int, b: int| 0 <= a < b < self.users@.len() implies self.users@[a].id@
                        != self.users@[b].id@ by {
                        assert(self.users@[a].id@ == us[a].0);
                        assert(self.users@[b].id@ == us[b].0);
                    }
                    self.lemma_bookings_registered_after_upsert(old(self), us, user@);
                }
            },
            None => {
                self.users.push(user);
                proof {
                    assert(self.users_view() =~= us.push(user@));
                    assert forall|a: int, b: int| 0 <= a < b < self.users@.len() implies self.users@[a].id@
                        != self.users@[b].id@ by {
                        assert(self.users@[a].id@ == us[a].0);
                        assert(self.users@[b].id@ == us[b].0 || b == us.len());
                    }
                    self.lemma_bookings_registered_after_upsert(old(self), us, user@);
                    assert forall|a: int| 0 <= a < self.users@.len() implies self.spec_issued().contains(
                        #[trigger] self.users@[a].id@,
                    ) by {
                        if a < us.len() {
                            let x = self.users@[a].id@;
                            assert(x == self.users_view()[a].0);
                            assert(self.users_view()[a] == us[a]);
                            assert(us[a] == old(self).users_view()[a]);
                            assert(old(self).users_view()[a].0 == old(self).users@[a].id@);
                            assert(old(self).spec_issued().contains(old(self).users@[a].id@));
                            let j = choose|j: int| 0 <= j < old(self).spec_issued().len() && old(self).spec_issued()[j] == x;
                            assert(issued1[j] == x);
                        } else {
                            assert(issued1[issued1.len() - 1] == id@);
                        }
                    }
                }
            },
        }
        Ok(id)
    }

    proof fn lemma_bookings_registered_after_upsert(&self, before: &FlipFit, us: Seq<UserView>, u: UserView)
        requires
            before.wf(),
            us == before.users_view(),
            self.users_view() == upsert_user(us, u),
            self.bookings_view() == before.bookings_view(),
        ensures
            forall|i: int|
                0 <= i < self.bookings@.len() ==> find_user(self.users_view(), #[trigger] self.bookings@[i].user_id@) is Some,
    {
        assert forall|i: int| 0 <= i < self.bookings@.len() implies find_user(
            self.users_view(),
            #[trigger] self.bookings@[i].user_id@,
        ) is Some by {
            let bid = self.bookings@[i].user_id@;
            assert(self.bookings_view().len() == before.bookings_view().len());
            assert(self.bookings_view().len() == self.bookings@.len());
            assert(before.bookings_view().len() == before.bookings@.len());
            assert(self.bookings_view()[i] == before.bookings_view()[i]);
            assert(bid == before.bookings@[i].user_id@);
            assert(find_user(us, before.bookings@[i].user_id@) is Some);
            lemma_find_user(us, bid);
            lemma_find_user(us, u.0);
            let p = find_user(us, bid)->0;
            lemma_find_user(self.users_view(), bid);
            let nu = self.users_view();
            if let Some(q) = find_user(us, u.0) {
                if p == q {
                    assert(nu[q].0 == bid);
                } else {
                    assert(nu[p] == us[p]);
                }
            } else {
                assert(nu[p] == us[p]);
            }
        }
    }

    /// The number the next registration starts from.
    pub fn user_seq(&self) -> (r: u32)
        ensures
            r == self.spec_user_seq(),
    {
        self.user_seq
    }

    /// How many user ids were handed out.
    pub fn issued_count(&self) -> (r: usize)
        ensures
            r == self.spec_issued().len(),
    {
        self.issued.len()
    }

    /// Whether `id` was handed out already.
    fn is_issued(&self, id: &String) -> (r: bool)
        ensures
            r == self.spec_issued().contains(id@),
    {
        let ghost ids = self.spec_issued();
        let mut i: usize = 0;
        while i < self.issued.len()
            invariant
                ids == self.spec_issued(),
                i <= ids.len(),
                forall|j: int| 0 <= j < i ==> ids[j] != id@,
            decreases ids.len() - i,
        {
            if self.issued[i] == *id {
                assert(ids[i as int] == id@);
                return true;
            }
            i = i + 1;
        }
        false
    }

    /// The next user id for `name`: up to four alphanumerics of the name in
    /// lower case, then the registration number, which then advances. A
    /// number whose id was handed out already (another name can end in
    /// digits) is passed over, so no id is ever handed out twice.
    pub fn generate_user_id(&mut self, name: &str) -> (r: String)
        requires
            old(self).valid(),
            old(self).spec_user_seq() + old(self).spec_issued().len() < u32::MAX,
        ensures
            final(self).valid(),
            exists|n: nat|
                #[trigger] first_free(name@, old(self).spec_issued(), old(self).spec_user_seq() as nat, n)
                    && r@ == user_id_for(name@, n) && final(self).spec_user_seq() == n + 1,
            !old(self).spec_issued().contains(r@),
            final(self).spec_issued() == old(self).spec_issued().push(r@),
            final(self).spec_user_seq() <= old(self).spec_user_seq() + old(self).spec_issued().len() + 1,
            final(self).users_view() == old(self).users_view(),
            final(self).same_catalog(old(self)),
    {
        let n = name.unicode_len();
        let mut prefix = String::new();
        let mut count: usize = 0;
        let mut i: usize = 0;
        assert(name@.skip(0) =~= name@);
        while i < n && count < 4
            invariant
                n == name@.len(),
                i <= n,
                count <= 4,
                prefix@ + alnum_prefix(name@.skip(i as int), (4 - count) as nat) == alnum_prefix(name@, 4),
            decreases n - i,
        {
            let c = name.get_char(i);
            proof {
                assert(name@.skip(i as int)[0] == c);
                assert(name@.skip(i as int).drop_first() =~= name@.skip(i + 1));
            }
            if char_is_alphanumeric(c) {
                let ghost before = prefix@;
                push_char(&mut prefix, c);
                count = count + 1;
                assert(prefix@ =~= before + seq![c]);
            }
            i = i + 1;
        }
        assert(alnum_prefix(name@.skip(i as int), (4 - count) as nat) =~= Seq::<char>::empty());
        assert(prefix@ =~= alnum_prefix(name@, 4));
        let base = str_to_lowercase(prefix.as_str());
        let ghost from = self.user_seq as nat;
        let ghost ids = self.spec_issued();
        loop
            invariant
                self.wf(),
                base@ == to_lowercase(alnum_prefix(name@, 4)),
                from == old(self).spec_user_seq(),
                ids == old(self).spec_issued(),
                self.spec_issued() == ids,
                from <= self.user_seq <= from + ids.len(),
                from + ids.len() < u32::MAX,
                forall|m: nat| from <= m < self.user_seq ==> ids.contains(#[trigger] user_id_for(name@, m)),
                self.users_view() == old(self).users_view(),
                self.same_catalog(old(self)),
            decreases from + ids.len() - self.user_seq,
        {
            let mut id = base.clone();
            push_decimal(&mut id, self.user_seq as u128);
            let ghost k = self.user_seq as nat;
            assert(id@ == user_id_for(name@, k));
            self.user_seq = self.user_seq + 1;
            if !self.is_issued(&id) {
                let ghost before = self.issued@;
                self.issued.push(id.clone());
                proof {
                    assert(self.spec_issued() =~= ids.push(id@));
                    let s2 = self.spec_issued();
                    assert(s2.no_duplicates()) by {
                        assert forall|a: int, b: int| 0 <= a < s2.len() && 0 <= b < s2.len() && a != b implies s2[a]
                            != s2[b] by {
                            if a < ids.len() && b < ids.len() {
                                assert(s2[a] == ids[a] && s2[b] == ids[b]);
                            } else if a < ids.len() {
                                assert(ids.contains(s2[a]));
                            } else {
                                assert(ids.contains(s2[b]));
                            }
                        }
                    }
                    assert forall|q: int| 0 <= q < self.users@.len() implies s2.contains(#[trigger] self.users@[q].id@) by {
                        let x = self.users@[q].id@;
                        assert(ids.contains(x));
                        let j = choose|j: int| 0 <= j < ids.len() && ids[j] == x;
                        assert(s2[j] == x);
                    }
                    assert(first_free(name@, ids, from, k));
                }
                return id;
            }
            proof {
                lemma_tried_ids_fit(name@, ids, from, (self.user_seq - from) as nat);
            }
        }
    }

    /// Adds a center and returns its id.
    pub fn add_center(&mut self, name: &str) -> (id: u32)
        requires
            old(self).valid(),
            old(self).centers_view().len() + 1 < u32::MAX,
        ensures
            final(self).valid(),
            id == old(self).centers_view().len() + 1,
            final(self).centers_view() == old(self).centers_view().push(name@),
            final(self).users_view() == old(self).users_view(),
            final(self).slots_view() == old(self).slots_view(),
            final(self).bookings_view() == old(self).bookings_view(),
            final(self).spec_user_seq() == old(self).spec_user_seq(),
            final(self).spec_issued() == old(self).spec_issued(),
    {
        let id = self.next_center_id;
        self.next_center_id = self.next_center_id + 1;
        self.centers.push(Center { id, name: String::from_str(name) });
        proof {
            assert(self.centers_view() =~= old(self).centers_view().push(name@));
            assert forall|i: int| 0 <= i < self.centers@.len() implies #[trigger] self.centers@[i].id == i + 1 by {
                if i < old(self).centers@.len() {
                    assert(self.centers@[i] == old(self).centers@[i]);
                }
            }
            assert forall|i: int| 0 <= i < self.slots@.len() implies 1 <= #[trigger] self.slots@[i].center_id
                <= self.centers@.len() by {
                assert(self.slots@[i] == old(self).slots@[i]);
            }
        }
        id
    }

    /// Adds a slot at the center and returns its id; an error when there is
    /// no such center.
    pub fn add_slot(&mut self, center_id: u32, timing: &str, workout_type: WorkoutType, capacity: u32) -> (r: Result<
        u32,
        FlipFitError,
    >)
        requires
            old(self).valid(),
            old(self).slots_view().len() + 1 < u32::MAX,
        ensures
            final(self).valid(),
            final(self).users_view() == old(self).users_view(),
            final(self).centers_view() == old(self).centers_view(),
            final(self).bookings_view() == old(self).bookings_view(),
            final(self).spec_user_seq() == old(self).spec_user_seq(),
            final(self).spec_issued() == old(self).spec_issued(),
            !(1 <= center_id <= old(self).centers_view().len()) ==> r == Err::<u32, FlipFitError>(
                FlipFitError::CenterNotFound(center_id),
            ) && final(self).slots_view() == old(self).slots_view(),
            1 <= center_id <= old(self).centers_view().len() ==> ({
                let id = (old(self).slots_view().len() + 1) as u32;
                &&& r == Ok::<u32, FlipFitError>(id)
                &&& final(self).slots_view() == old(self).slots_view().push(
                    (id, center_id, timing@, workout_type, capacity),
                )
            }),
    {
        if center_id < 1 || center_id as usize > self.centers.len() {
            return Err(FlipFitError::CenterNotFound(center_id));
        }
        let id = self.next_slot_id;
        self.next_slot_id = self.next_slot_id + 1;
        self.slots.push(
            Slot { id, center_id, timing: String::from_str(timing), workout_type, capacity },
        );
        proof {
            assert(self.slots_view() =~= old(self).slots_view().push(
                (id, center_id, timing@, workout_type, capacity),
            ));
            assert forall|i: int| 0 <= i < self.slots@.len() implies #[trigger] self.slots@[i].id == i + 1 by {
                if i < old(self).slots@.len() {
                    assert(self.slots@[i] == old(self).slots@[i]);
                }
            }
            assert forall|i: int| 0 <= i < self.slots@.len() implies 1 <= #[trigger] self.slots@[i].center_id
                <= self.centers@.len() by {
                if i < old(self).slots@.len() {
                    assert(self.slots@[i] == old(self).slots@[i]);
                }
            }
            assert forall|i: int| 0 <= i < self.bookings@.len() implies 1 <= #[trigger] self.bookings@[i].slot_id
                <= self.slots@.len() by {
                assert(self.bookings@[i] == old(self).bookings@[i]);
            }
        }
        Ok(id)
    }

    /// Sets the capacity of a slot of the center. Errors, checked in this
    /// order: no such slot; the slot is at another center.
    pub fn update_slot_capacity(&mut self, center_id: u32, slot_id: u32, capacity: u32) -> (r: Result<
        (),
        FlipFitError,
    >)
        requires
            old(self).valid(),
        ensures
            final(self).valid(),
            final(self).users_view() == old(self).users_view(),
            final(self).centers_view() == old(self).centers_view(),
            final(self).bookings_view() == old(self).bookings_view(),
            final(self).spec_user_seq() == old(self).spec_user_seq(),
            final(self).spec_issued() == old(self).spec_issued(),
            !(1 <= slot_id <= old(self).slots_view().len()) ==> r == Err::<(), FlipFitError>(
                FlipFitError::SlotNotFound(slot_id),
            ) && final(self).slots_view() == old(self).slots_view(),
            1 <= slot_id <= old(self).slots_view().len() ==> ({
                let s = old(self).slots_view()[slot_id - 1];
                &&& s.1 != center_id ==> r == Err::<(), FlipFitError>(
                    FlipFitError::SlotNotInCenter { slot_id, center_id },
                ) && final(self).slots_view() == old(self).slots_view()
                &&& s.1 == center_id ==> r == Ok::<(), FlipFitError>(()) && final(self).slots_view()
                    == old(self).slots_view().update(slot_id - 1, (s.0, s.1, s.2, s.3, capacity))
            }),
    {
        if slot_id < 1 || slot_id as usize > self.slots.len() {
            return Err(FlipFitError::SlotNotFound(slot_id));
        }
        let idx = (slot_id - 1) as usize;
        if self.slots[idx].center_id != center_id {
            return Err(FlipFitError::SlotNotInCenter { slot_id, center_id });
        }
        let old_slot = &self.slots[idx];
        let updated = Slot {
            id: old_slot.id,
            center_id: old_slot.center_id,
            timing: old_slot.timing.clone(),
            workout_type: old_slot.workout_type,
            capacity,
        };
        self.slots.set(idx, updated);
        proof {
            assert(self.slots_view() =~= old(self).slots_view().update(
                idx as int,
                (slot_id, center_id, old(self).slots_view()[idx as int].2, old(self).slots_view()[idx as int].3, capacity),
            ));
            assert forall|i: int| 0 <= i < self.slots@.len() implies #[trigger] self.slots@[i].id == i + 1 by {
                if i != idx {
                    assert(self.slots@[i] == old(self).slots@[i]);
                }
            }
            assert forall|i: int| 0 <= i < self.slots@.len() implies 1 <= #[trigger] self.slots@[i].center_id
                <= self.centers@.len() by {
                if i != idx {
                    assert(self.slots@[i] == old(self).slots@[i]);
                }
            }
        }
        Ok(())
    }

    /// How many bookings the slot has on the day (as a `u32`).
    pub fn booked_count(&self, slot_id: u32, day: &str) -> (r: u32)
        ensures
            r == count_bookings(self.bookings_view(), slot_id, day@) as u32,
    {
        let ghost bs = self.bookings_view();
        let target = String::from_str(day);
        let mut count: usize = 0;
        let mut i: usize = 0;
        assert(bs.take(0) =~= Seq::<BookingView>::empty());
        while i < self.bookings.len()
            invariant
                bs == self.bookings_view(),
                target@ == day@,
                i <= bs.len(),
                count == count_bookings(bs.take(i as int), slot_id, day@),
                count <= i,
            decreases bs.len() - i,
        {
            let b = &self.bookings[i];
            proof {
                assert(bs.take(i + 1).drop_last() =~= bs.take(i as int));
                assert(bs.take(i + 1).last() == b@);
            }
            if b.slot_id == slot_id && b.day == target {
                count = count + 1;
            }
            i = i + 1;
        }
        assert(bs.take(bs.len() as int) =~= bs);
        count as u32
    }

    /// The entry for slot `i + 1` in the day's workout listing.
    pub open spec fn workout_entry(&self, i: int, day: Seq<char>) -> WorkoutViewView {
        let sl = self.slots_view()[i];
        (
            sl.1,
            self.centers_view()[sl.1 - 1],
            sl.0,
            sl.2,
            sl.3,
            sat_sub(sl.4, count_bookings(self.bookings_view(), sl.0, day) as u32),
        )
    }

    /// Every slot, in id order, with its center and the seats left on `day`.
    pub fn view_workouts_for_day(&self, day: &str) -> (r: Vec<WorkoutView>)
        requires
            self.valid(),
        ensures
            r@.len() == self.slots_view().len(),
            forall|i: int| 0 <= i < r@.len() ==> (#[trigger] r@[i])@ == self.workout_entry(i, day@),
            forall|i: int| 0 <= i < r@.len() ==> (#[trigger] r@[i]).slot_id == i + 1,
    {
        let mut r: Vec<WorkoutView> = Vec::new();
        let mut i: usize = 0;
        while i < self.slots.len()
            invariant
                self.valid(),
                i <= self.slots@.len(),
                r@.len() == i,
                forall|k: int| 0 <= k < i ==> (#[trigger] r@[k])@ == self.workout_entry(k, day@),
                forall|k: int| 0 <= k < i ==> (#[trigger] r@[k]).slot_id == k + 1,
            decreases self.slots@.len() - i,
        {
            let s = &self.slots[i];
            assert(1 <= self.slots@[i as int].center_id <= self.centers@.len());
            let center = &self.centers[(s.center_id - 1) as usize];
            let booked = self.booked_count(s.id, day);
            let entry = WorkoutView {
                center_id: center.id,
                center_name: center.name.clone(),
                slot_id: s.id,
                timing: s.timing.clone(),
                workout_type: s.workout_type,
                available_capacity: s.capacity.saturating_sub(booked),
            };
            proof {
                assert(self.slots_view()[i as int] == s@);
                assert(self.centers_view()[s.center_id - 1] == center.name@);
                assert(center.id == s.center_id);
            }
            r.push(entry);
            i = i + 1;
        }
        r
    }

    /// Every check of a booking passes: the user is registered, the slot
    /// exists at the center, the user has not booked it that day, and it has
    /// seats left that day.
    pub open spec fn booking_allowed(&self, user_id: Seq<char>, center_id: u32, slot_id: u32, day: Seq<char>) -> bool {
        &&& find_user(self.users_view(), user_id) is Some
        &&& 1 <= slot_id <= self.slots_view().len()
        &&& self.slots_view()[slot_id - 1].1 == center_id
        &&& !has_booking(self.bookings_view(), user_id, slot_id, day)
        &&& (count_bookings(self.bookings_view(), slot_id, day) as u32) < self.slots_view()[slot_id - 1].4
    }

    fn has_booking_exec(&self, user_id: &str, slot_id: u32, day: &str) -> (r: bool)
        ensures
            r == has_booking(self.bookings_view(), user_id@, slot_id, day@),
    {
        let ghost bs = self.bookings_view();
        let uid = String::from_str(user_id);
        let d = String::from_str(day);
        let mut i: usize = 0;
        while i < self.bookings.len()
            invariant
                bs == self.bookings_view(),
                uid@ == user_id@,
                d@ == day@,
                i <= bs.len(),
                forall|k: int| 0 <= k < i ==> !(bs[k].1 == user_id@ && bs[k].2 == slot_id && bs[k].3 == day@),
            decreases bs.len() - i,
        {
            let b = &self.bookings[i];
            if b.user_id == uid && b.slot_id == slot_id && b.day == d {
                assert(bs[i as int].1 == user_id@ && bs[i as int].2 == slot_id && bs[i as int].3 == day@);
                return true;
            }
            i = i + 1;
        }
        false
    }

    /// Books the slot for the user on `day`. Errors, checked in this order:
    /// the user is not registered; no such slot; the slot is at another
    /// center; the user already booked the slot that day; the slot is full
    /// that day.
    pub fn book_workout(&mut self, user_id: &str, center_id: u32, slot_id: u32, day: &str) -> (r: Result<
        BookingConfirmation,
        FlipFitError,
    >)
        requires
            old(self).valid(),
            old(self).booking_allowed(user_id@, center_id, slot_id, day@) ==> old(self).bookings_view().len()
                + 1 < u32::MAX,
        ensures
            final(self).valid(),
            final(self).users_view() == old(self).users_view(),
            final(self).centers_view() == old(self).centers_view(),
            final(self).slots_view() == old(self).slots_view(),
            final(self).spec_user_seq() == old(self).spec_user_seq(),
            final(self).spec_issued() == old(self).spec_issued(),
            !old(self).booking_allowed(user_id@, center_id, slot_id, day@) ==> r is Err
                && final(self).bookings_view() == old(self).bookings_view(),
            find_user(old(self).users_view(), user_id@) is None ==> (r matches Err(
                FlipFitError::UserNotFound(u),
            ) && u@ == user_id@),
            find_user(old(self).users_view(), user_id@) is Some && !(1 <= slot_id <= old(self).slots_view().len())
                ==> (r matches Err(FlipFitError::SlotNotFound(s)) && s == slot_id),
            find_user(old(self).users_view(), user_id@) is Some && 1 <= slot_id <= old(self).slots_view().len()
                && old(self).slots_view()[slot_id - 1].1 != center_id ==> (r matches Err(
                FlipFitError::SlotNotInCenter { slot_id: s, center_id: c },
            ) && s == slot_id && c == center_id),
            find_user(old(self).users_view(), user_id@) is Some && 1 <= slot_id <= old(self).slots_view().len()
                && old(self).slots_view()[slot_id - 1].1 == center_id && has_booking(
                old(self).bookings_view(),
                user_id@,
                slot_id,
                day@,
            ) ==> (r matches Err(FlipFitError::DuplicateBooking { user_id: u, slot_id: s, day: d })
                && u@ == user_id@ && s == slot_id && d@ == day@),
            find_user(old(self).users_view(), user_id@) is Some && 1 <= slot_id <= old(self).slots_view().len()
                && old(self).slots_view()[slot_id - 1].1 == center_id && !has_booking(
                old(self).bookings_view(),
                user_id@,
                slot_id,
                day@,
            ) && !old(self).booking_allowed(user_id@, center_id, slot_id, day@) ==> (r matches Err(
                FlipFitError::SlotFull(s),
            ) && s == slot_id),
            old(self).booking_allowed(user_id@, center_id, slot_id, day@) ==> ({
                let id = (old(self).bookings_view().len() + 1) as u32;
                let sl = old(self).slots_view()[slot_id - 1];
                &&& (r matches Ok(c) && c@ == (id, slot_id, sl.2, sl.3, center_id, old(self).centers_view()[center_id - 1]))
                &&& final(self).bookings_view() == old(self).bookings_view().push((id, user_id@, slot_id, day@))
            }),
    {
        if self.user_index(user_id).is_none() {
            return Err(FlipFitError::UserNotFound(String::from_str(user_id)));
        }
        if slot_id < 1 || slot_id as usize > self.slots.len() {
            return Err(FlipFitError::SlotNotFound(slot_id));
        }
        let idx = (slot_id - 1) as usize;
        if self.slots[idx].center_id != center_id {
            return Err(FlipFitError::SlotNotInCenter { slot_id, center_id });
        }
        if self.has_booking_exec(user_id, slot_id, day) {
            return Err(
                FlipFitError::DuplicateBooking {
                    user_id: String::from_str(user_id),
                    slot_id,
                    day: String::from_str(day),
                },
            );
        }
        if self.booked_count(slot_id, day) >= self.slots[idx].capacity {
            return Err(FlipFitError::SlotFull(slot_id));
        }
        let ghost bs = self.bookings_view();
        let booking_id = self.next_booking_id;
        self.next_booking_id = self.next_booking_id + 1;
        let booking = Booking {
            id: booking_id,
            user_id: String::from_str(user_id),
            slot_id,
            day: String::from_str(day),
        };
        proof {
            lemma_find_user(self.users_view(), user_id@);
        }
        self.bookings.push(booking);
        proof {
            assert(self.bookings_view() =~= bs.push(booking@));
            lemma_booking_keeps_unique(bs, booking_id, user_id@, slot_id, day@);
            assert forall|i: int| 0 <= i < self.bookings@.len() implies #[trigger] self.bookings@[i].id == i + 1 by {
                if i < bs.len() {
                    assert(self.bookings@[i] == old(self).bookings@[i]);
                }
            }
            assert forall|i: int| 0 <= i < self.bookings@.len() implies 1 <= #[trigger] self.bookings@[i].slot_id
                <= self.slots@.len() by {
                if i < bs.len() {
                    assert(self.bookings@[i] == old(self).bookings@[i]);
                }
            }
            assert forall|i: int| 0 <= i < self.bookings@.len() implies find_user(
                self.users_view(),
                #[trigger] self.bookings@[i].user_id@,
            ) is Some by {
                if i < bs.len() {
                    assert(self.bookings@[i] == old(self).bookings@[i]);
                }
            }
        }
        let slot = &self.slots[idx];
        assert(1 <= self.slots@[idx as int].center_id <= self.centers@.len());
        let center = &self.centers[(center_id - 1) as usize];
        let conf = BookingConfirmation {
            booking_id,
            slot_id: slot.id,
            timing: slot.timing.clone(),
            workout_type: slot.workout_type,
            center_id: center.id,
            center_name: center.name.clone(),
        };
        proof {
            assert(self.slots_view()[idx as int] == slot@);
            assert(self.centers_view()[center_id - 1] == center.name@);
        }
        Ok(conf)
    }

    /// The plan items of the user's bookings on `day` among the first `n`
    /// bookings, in booking order.
    pub open spec fn plan_items_upto(&self, n: int, user_id: Seq<char>, day: Seq<char>, user_name: Seq<char>) -> Seq<
        PlanItemView,
    >
        decreases n,
    {
        if n <= 0 {
            Seq::empty()
        } else {
            let prev = self.plan_items_upto(n - 1, user_id, day, user_name);
            let b = self.bookings_view()[n - 1];
            if b.1 == user_id && b.3 == day {
                let sl = self.slots_view()[b.2 - 1];
                prev.push((user_name, self.centers_view()[sl.1 - 1], sl.2, sl.3))
            } else {
                prev
            }
        }
    }

    /// The plan item of booking `j` for a user named `user_name`: the center,
    /// timing and workout of the booked slot.
    pub open spec fn booking_item(&self, j: int, user_name: Seq<char>) -> PlanItemView {
        let sl = self.slots_view()[self.bookings_view()[j].2 - 1];
        (user_name, self.centers_view()[sl.1 - 1], sl.2, sl.3)
    }

    /// `item` is the plan item of one of the first `n` bookings, a booking
    /// of `user_id` on `day`.
    pub open spec fn item_of_user_booking(
        &self,
        item: PlanItemView,
        n: int,
        user_id: Seq<char>,
        day: Seq<char>,
        user_name: Seq<char>,
    ) -> bool {
        exists|j: int|
            0 <= j < n && self.bookings_view()[j].1 == user_id && self.bookings_view()[j].3 == day && item
                == #[trigger] self.booking_item(j, user_name)
    }

    /// The plan items among the first `n` bookings are one per booking of
    /// the user on the day, each from such a booking.
    proof fn lemma_plan_items_upto(&self, n: int, user_id: Seq<char>, day: Seq<char>, user_name: Seq<char>)
        requires
            0 <= n <= self.bookings_view().len(),
        ensures
            self.plan_items_upto(n, user_id, day, user_name).len() == user_day_count(
                self.bookings_view().take(n),
                user_id,
                day,
            ),
            forall|k: int|
                0 <= k < self.plan_items_upto(n, user_id, day, user_name).len() ==> #[trigger] self.item_of_user_booking(
                    self.plan_items_upto(n, user_id, day, user_name)[k],
                    n,
                    user_id,
                    day,
                    user_name,
                ),
        decreases n,
    {
        let bv = self.bookings_view();
        if n > 0 {
            self.lemma_plan_items_upto(n - 1, user_id, day, user_name);
            assert(bv.take(n).drop_last() =~= bv.take(n - 1));
            assert(bv.take(n).last() == bv[n - 1]);
            let prev = self.plan_items_upto(n - 1, user_id, day, user_name);
            let cur = self.plan_items_upto(n, user_id, day, user_name);
            assert forall|k: int| 0 <= k < cur.len() implies #[trigger] self.item_of_user_booking(
                cur[k],
                n,
                user_id,
                day,
                user_name,
            ) by {
                if k < prev.len() {
                    assert(cur[k] == prev[k]);
                    assert(self.item_of_user_booking(prev[k], n - 1, user_id, day, user_name));
                    let j = choose|j: int|
                        0 <= j < n - 1 && bv[j].1 == user_id && bv[j].3 == day && prev[k]
                            == #[trigger] self.booking_item(j, user_name);
                    assert(self.booking_item(j, user_name) == cur[k]);
                } else {
                    assert(cur[k] == self.booking_item(n - 1, user_name));
                }
            }
        } else {
            assert(self.plan_items_upto(n, user_id, day, user_name).len() == 0);
            assert(bv.take(0) =~= Seq::<BookingView>::empty());
        }
    }

    /// A user's plan for a day lists that user's bookings of the day and
    /// nothing else: one item per such booking, each naming the user and the
    /// center, timing and workout of a slot the user booked that day.
    pub proof fn lemma_plan_is_users_bookings(&self, user_id: Seq<char>, day: Seq<char>)
        requires
            find_user(self.users_view(), user_id) is Some,
        ensures
            self.plan_for(user_id, day).len() == user_day_count(self.bookings_view(), user_id, day),
            forall|k: int|
                0 <= k < self.plan_for(user_id, day).len() ==> #[trigger] self.item_of_user_booking(
                    self.plan_for(user_id, day)[k],
                    self.bookings_view().len() as int,
                    user_id,
                    day,
                    self.users_view()[find_user(self.users_view(), user_id)->0].1,
                ),
    {
        let bv = self.bookings_view();
        let n = bv.len() as int;
        let name = self.users_view()[find_user(self.users_view(), user_id)->0].1;
        let items = self.plan_items_upto(n, user_id, day, name);
        self.lemma_plan_items_upto(n, user_id, day, name);
        assert(bv.take(n) =~= bv);
        lemma_sort_len(items);
        lemma_sort_members(items);
        let plan = self.plan_for(user_id, day);
        assert(plan == sort_by_timing(items));
        assert forall|k: int| 0 <= k < plan.len() implies #[trigger] self.item_of_user_booking(
            plan[k],
            n,
            user_id,
            day,
            name,
        ) by {
            assert(sort_by_timing(items)[k] == plan[k]);
            let i = choose|i: int| 0 <= i < items.len() && #[trigger] items[i] == sort_by_timing(items)[k];
            assert(self.item_of_user_booking(items[i], n, user_id, day, name));
        }
    }

    /// The user's plan for `day`: one item per booking of that day, ordered
    /// by timing.
    pub open spec fn plan_for(&self, user_id: Seq<char>, day: Seq<char>) -> Seq<PlanItemView> {
        let user_name = self.users_view()[find_user(self.users_view(), user_id)->0].1;
        sort_by_timing(self.plan_items_upto(self.bookings_view().len() as int, user_id, day, user_name))
    }

    /// The user's bookings on `day`, ordered by timing; an error when the
    /// user is not registered.
    pub fn view_user_plan(&self, user_id: &str, day: &str) -> (r: Result<Vec<PlanItem>, FlipFitError>)
        requires
            self.valid(),
        ensures
            find_user(self.users_view(), user_id@) is None ==> (r matches Err(FlipFitError::UserNotFound(u))
                && u@ == user_id@),
            find_user(self.users_view(), user_id@) is Some ==> (r matches Ok(plan) && plan@.map_values(
                |p: PlanItem| p@,
            ) == self.plan_for(user_id@, day@)),
    {
        let ui = match self.user_index(user_id) {
            Some(i) => i,
            None => return Err(FlipFitError::UserNotFound(String::from_str(user_id))),
        };
        let user = &self.users[ui];
        let ghost user_name = user.name@;
        proof {
            assert(self.users_view()[ui as int].1 == user_name);
        }
        let uid = String::from_str(user_id);
        let d = String::from_str(day);
        let mut items: Vec<PlanItem> = Vec::new();
        let mut i: usize = 0;
        while i < self.bookings.len()
            invariant
                self.valid(),
                uid@ == user_id@,
                d@ == day@,
                user.name@ == user_name,
                i <= self.bookings@.len(),
                items@.map_values(|p: PlanItem| p@) == self.plan_items_upto(i as int, user_id@, day@, user_name),
            decreases self.bookings@.len() - i,
        {
            let b = &self.bookings[i];
            let ghost before = items@.map_values(|p: PlanItem| p@);
            proof {
                assert(self.bookings_view()[i as int] == b@);
            }
            if b.user_id == uid && b.day == d {
                assert(1 <= self.bookings@[i as int].slot_id <= self.slots@.len());
                let sl = &self.slots[(b.slot_id - 1) as usize];
                assert(1 <= self.slots@[b.slot_id - 1].center_id <= self.centers@.len());
                let center = &self.centers[(sl.center_id - 1) as usize];
                let item = PlanItem {
                    user_name: user.name.clone(),
                    center_name: center.name.clone(),
                    timing: sl.timing.clone(),
                    workout_type: sl.workout_type,
                };
                proof {
                    assert(self.slots_view()[b.slot_id - 1] == sl@);
                    assert(self.centers_view()[sl.center_id - 1] == center.name@);
                }
                items.push(item);
                assert(items@.map_values(|p: PlanItem| p@) =~= before.push(item@));
            }
            i = i + 1;
        }
        assert(self.bookings_view().len() == self.bookings@.len());
        Ok(sort_plan(items))
    }
}

/// The message that describes an error.
pub open spec fn error_text(e: FlipFitError) -> Seq<char> {
    match e {
        FlipFitError::EmailAlreadyRegistered(email) => "a user with email '"@ + email@
            + "' is already registered"@,
        FlipFitError::UserNotFound(id) => "no registered user with id '"@ + id@ + "'"@,
        FlipFitError::CenterNotFound(id) => "no center with id "@ + nat_decimal(id as nat),
        FlipFitError::SlotNotFound(id) => "no slot with id "@ + nat_decimal(id as nat),
        FlipFitError::SlotNotInCenter { slot_id, center_id } => "slot "@ + nat_decimal(slot_id as nat)
            + " does not belong to center "@ + nat_decimal(center_id as nat),
        FlipFitError::SlotFull(id) => "slot "@ + nat_decimal(id as nat)
            + " is fully booked for the requested day"@,
        FlipFitError::DuplicateBooking { user_id, slot_id, day } => "user '"@ + user_id@
            + "' has already booked slot "@ + nat_decimal(slot_id as nat) + " on "@ + day@,
    }
}

impl FlipFitError {
    /// The message that describes the error.
    pub fn message(&self) -> (r: String)
        ensures
            r@ == error_text(*self),
    {
        let mut s = String::new();
        match self {
            FlipFitError::EmailAlreadyRegistered(email) => {
                s.append("a user with email '");
                s.append(email.as_str());
                s.append("' is already registered");
            },
            FlipFitError::UserNotFound(id) => {
                s.append("no registered user with id '");
                s.append(id.as_str());
                s.append("'");
            },
            FlipFitError::CenterNotFound(id) => {
                s.append("no center with id ");
                push_decimal(&mut s, *id as u128);
            },
            FlipFitError::SlotNotFound(id) => {
                s.append("no slot with id ");
                push_decimal(&mut s, *id as u128);
            },
            FlipFitError::SlotNotInCenter { slot_id, center_id } => {
                s.append("slot ");
                push_decimal(&mut s, *slot_id as u128);
                s.append(" does not belong to center ");
                push_decimal(&mut s, *center_id as u128);
            },
            FlipFitError::SlotFull(id) => {
                s.append("slot ");
                push_decimal(&mut s, *id as u128);
                s.append(" is fully booked for the requested day");
            },
            FlipFitError::DuplicateBooking { user_id, slot_id, day } => {
                s.append("user '");
                s.append(user_id.as_str());
                s.append("' has already booked slot ");
                push_decimal(&mut s, *slot_id as u128);
                s.append(" on ");
                s.append(day.as_str());
            },
        }
        s
    }
}

/// The capacity of every seeded slot.
pub const DEFAULT_CAPACITY: u32 = 3;

/// The `t`-th of the six daily timings that seeding creates.
pub open spec fn seed_timing(t: int) -> Seq<char> {
    if t == 0 {
        "06 AM - 07 AM"@
    } else if t == 1 {
        "07 AM - 08 AM"@
    } else if t == 2 {
        "08 AM - 09 AM"@
    } else if t == 3 {
        "06 PM - 07 PM"@
    } else if t == 4 {
        "07 PM - 08 PM"@
    } else {
        "08 PM - 09 PM"@
    }
}

/// The `w`-th of the two workout types that seeding creates per timing.
pub open spec fn seed_workout(w: int) -> WorkoutType {
    if w == 0 {
        WorkoutType::Weights
    } else {
        WorkoutType::Cardio
    }
}

/// The `k`-th of the twelve slots that seeding creates at a center.
pub open spec fn seed_slot(center_id: u32, first_id: nat, k: int) -> SlotView {
    ((first_id + k) as u32, center_id, seed_timing(k / 2), seed_workout(k % 2), DEFAULT_CAPACITY)
}

fn timing_at(t: usize) -> (r: &'static str)
    requires
        t < 6,
    ensures
        r@ == seed_timing(t as int),
{
    if t == 0 {
        "06 AM - 07 AM"
    } else if t == 1 {
        "07 AM - 08 AM"
    } else if t == 2 {
        "08 AM - 09 AM"
    } else if t == 3 {
        "06 PM - 07 PM"
    } else if t == 4 {
        "07 PM - 08 PM"
    } else {
        "08 PM - 09 PM"
    }
}

fn workout_at(w: usize) -> (r: WorkoutType)
    requires
        w < 2,
    ensures
        r == seed_workout(w as int),
{
    if w == 0 {
        WorkoutType::Weights
    } else {
        WorkoutType::Cardio
    }
}

fn seed_center(flip: &mut FlipFit, name: &str)
    requires
        old(flip).valid(),
        old(flip).centers_view().len() + 1 < u32::MAX,
        old(flip).slots_view().len() + 12 < u32::MAX,
    ensures
        final(flip).valid(),
        final(flip).centers_view() == old(flip).centers_view().push(name@),
        final(flip).slots_view() == old(flip).slots_view() + Seq::new(
            12,
            |k: int|
                seed_slot(
                    (old(flip).centers_view().len() + 1) as u32,
                    old(flip).slots_view().len() + 1,
                    k,
                ),
        ),
        final(flip).users_view() == old(flip).users_view(),
        final(flip).bookings_view() == old(flip).bookings_view(),
        final(flip).spec_user_seq() == old(flip).spec_user_seq(),
        final(flip).spec_issued() == old(flip).spec_issued(),
{
    let ghost first = old(flip).slots_view().len() + 1;
    let center_id = flip.add_center(name);
    let ghost base = flip.slots_view();
    let mut t: usize = 0;
    while t < 6
        invariant
            flip.valid(),
            t <= 6,
            center_id == old(flip).centers_view().len() + 1,
            flip.centers_view() == old(flip).centers_view().push(name@),
            base == old(flip).slots_view(),
            first == base.len() + 1,
            base.len() + 12 < u32::MAX,
            flip.slots_view() == base + Seq::new((2 * t) as nat, |k: int| seed_slot(center_id, first, k)),
            flip.users_view() == old(flip).users_view(),
            flip.bookings_view() == old(flip).bookings_view(),
            flip.spec_user_seq() == old(flip).spec_user_seq(),
            flip.spec_issued() == old(flip).spec_issued(),
        decreases 6 - t,
    {
        let timing = timing_at(t);
        let mut w: usize = 0;
        while w < 2
            invariant
                flip.valid(),
                t < 6,
                w <= 2,
                timing@ == seed_timing(t as int),
                center_id == old(flip).centers_view().len() + 1,
                flip.centers_view() == old(flip).centers_view().push(name@),
                base == old(flip).slots_view(),
                first == base.len() + 1,
                base.len() + 12 < u32::MAX,
                flip.slots_view() == base + Seq::new((2 * t + w) as nat, |k: int| seed_slot(center_id, first, k)),
                flip.users_view() == old(flip).users_view(),
                flip.bookings_view() == old(flip).bookings_view(),
                flip.spec_user_seq() == old(flip).spec_user_seq(),
                flip.spec_issued() == old(flip).spec_issued(),
            decreases 2 - w,
        {
            let ghost before = flip.slots_view();
            let r = flip.add_slot(center_id, timing, workout_at(w), DEFAULT_CAPACITY);
            proof {
                let k = (2 * t + w) as int;
                assert(k / 2 == t && k % 2 == w);
                assert(flip.slots_view() =~= base + Seq::new((k + 1) as nat, |k: int| seed_slot(center_id, first, k)));
            }
            w = w + 1;
        }
        t = t + 1;
    }
}

/// Sets up the two centers, Koramangala then Bellandur, each with the six
/// daily timings times the two workout types, every slot of capacity
/// `DEFAULT_CAPACITY`.
pub fn seed(flip: &mut FlipFit)
    requires
        old(flip).valid(),
        old(flip).centers_view().len() + 2 < u32::MAX,
        old(flip).slots_view().len() + 24 < u32::MAX,
    ensures
        final(flip).valid(),
        final(flip).centers_view() == old(flip).centers_view().push("Koramangala"@).push("Bellandur"@),
        final(flip).slots_view() == old(flip).slots_view() + Seq::new(
            12,
            |k: int|
                seed_slot(
                    (old(flip).centers_view().len() + 1) as u32,
                    old(flip).slots_view().len() + 1,
                    k,
                ),
        ) + Seq::new(
            12,
            |k: int|
                seed_slot(
                    (old(flip).centers_view().len() + 2) as u32,
                    old(flip).slots_view().len() + 13,
                    k,
                ),
        ),
        final(flip).users_view() == old(flip).users_view(),
        final(flip).bookings_view() == old(flip).bookings_view(),
        final(flip).spec_user_seq() == old(flip).spec_user_seq(),
        final(flip).spec_issued() == old(flip).spec_issued(),
{
    seed_center(flip, "Koramangala");
    seed_center(flip, "Bellandur");
}

/// No two bookings are by the same user for the same slot on the same day.
pub open spec fn bookings_unique(bs: Seq<BookingView>) -> bool {
    forall|i: int, j: int|
        0 <= i < j < bs.len() ==> !(bs[i].1 == bs[j].1 && bs[i].2 == bs[j].2 && bs[i].3 == bs[j].3)
}

/// A booking that passes the checks keeps every (user, slot, day) booked at
/// most once.
pub proof fn lemma_booking_keeps_unique(
    bs: Seq<BookingView>,
    id: u32,
    user_id: Seq<char>,
    slot_id: u32,
    day: Seq<char>,
)
    requires
        bookings_unique(bs),
        !has_booking(bs, user_id, slot_id, day),
    ensures
        bookings_unique(bs.push((id, user_id, slot_id, day))),
{
    let n = bs.push((id, user_id, slot_id, day));
    assert forall|i: int, j: int| 0 <= i < j < n.len() implies !(n[i].1 == n[j].1 && n[i].2 == n[j].2
        && n[i].3 == n[j].3) by {
        assert(n[i] == bs[i]);
        if j < bs.len() {
            assert(n[j] == bs[j]);
        }
    }
}

/// A booking that passes the checks never takes a slot past its capacity for
/// the day (while the day's count fits in a `u32`).
pub proof fn lemma_booking_within_capacity(
    bs: Seq<BookingView>,
    id: u32,
    user_id: Seq<char>,
    slot_id: u32,
    day: Seq<char>,
    capacity: u32,
)
    requires
        count_bookings(bs, slot_id, day) <= u32::MAX,
        (count_bookings(bs, slot_id, day) as u32) < capacity,
    ensures
        count_bookings(bs.push((id, user_id, slot_id, day)), slot_id, day) <= capacity,
{
    assert(bs.push((id, user_id, slot_id, day)).drop_last() =~= bs);
}

fn bytes_le_exec(a: &[u8], b: &[u8]) -> (r: bool)
    ensures
        r == bytes_le(a@, b@),
{
    let mut i: usize = 0;
    assert(a@.skip(0) =~= a@);
    assert(b@.skip(0) =~= b@);
    while i < a.len() && i < b.len()
        invariant
            i <= a@.len(),
            i <= b@.len(),
            bytes_le(a@, b@) == bytes_le(a@.skip(i as int), b@.skip(i as int)),
        decreases a@.len() - i,
    {
        proof {
            assert(a@.skip(i as int)[0] == a@[i as int]);
            assert(b@.skip(i as int)[0] == b@[i as int]);
            assert(a@.skip(i as int).drop_first() =~= a@.skip(i + 1));
            assert(b@.skip(i as int).drop_first() =~= b@.skip(i + 1));
        }
        if a[i] != b[i] {
            return a[i] < b[i];
        }
        i = i + 1;
    }
    i == a.len()
}

/// Orders plan items by timing, keeping the order of equal timings.
fn sort_plan(items: Vec<PlanItem>) -> (r: Vec<PlanItem>)
    ensures
        r@.map_values(|p: PlanItem| p@) == sort_by_timing(items@.map_values(|p: PlanItem| p@)),
{
    let ghost orig = items@.map_values(|p: PlanItem| p@);
    let n = items.len();
    let mut items = items;
    let mut sorted: Vec<PlanItem> = Vec::new();
    let mut i: usize = 0;
    assert(orig.take(0) =~= Seq::<PlanItemView>::empty());
    assert(orig.skip(0) =~= orig);
    while i < n
        invariant
            n == orig.len(),
            i <= n,
            items@.map_values(|p: PlanItem| p@) == orig.skip(i as int),
            sorted@.map_values(|p: PlanItem| p@) == sort_by_timing(orig.take(i as int)),
        decreases n - i,
    {
        let ghost sv = sorted@.map_values(|p: PlanItem| p@);
        let ghost rest = items@.map_values(|p: PlanItem| p@);
        let ghost items0 = items@;
        assert(rest.len() == items@.len());
        assert(rest[0] == items0[0]@);
        let x = items.remove(0);
        let ghost xv = x@;
        proof {
            assert(rest[0] == xv);
            assert(xv == orig[i as int]);
            assert(items@ =~= items0.remove(0));
            assert(items@.map_values(|p: PlanItem| p@) =~= rest.drop_first());
            assert(rest.drop_first() =~= orig.skip(i + 1));
            lemma_sort_len(orig.take(i as int));
        }
        let mut j: usize = sorted.len();
        assert(sv.take(j as int) =~= sv);
        loop
            invariant
                sv == sorted@.map_values(|p: PlanItem| p@),
                j <= sv.len(),
                insert_pos(sv, xv) == insert_pos(sv.take(j as int), xv),
                x@ == xv,
            ensures
                j <= sv.len(),
                insert_pos(sv, xv) == j,
            decreases j,
        {
            if j == 0 {
                break;
            }
            let le = bytes_le_exec(sorted[j - 1].timing.as_str().as_bytes(), x.timing.as_str().as_bytes());
            proof {
                assert(sv.take(j as int).last() == sv[j - 1]);
                assert(sv.take(j as int).drop_last() =~= sv.take(j - 1));
                assert(sv[j - 1] == sorted@[j - 1]@);
            }
            if le {
                break;
            }
            j = j - 1;
        }
        sorted.insert(j, x);
        proof {
            assert(orig.take(i + 1).drop_last() =~= orig.take(i as int));
            assert(orig.take(i + 1).last() == xv);
            assert(sorted@.map_values(|p: PlanItem| p@) =~= sv.insert(j as int, xv));
        }
        i = i + 1;
    }
    assert(orig.take(n as int) =~= orig);
    sorted
}

} // verus!
