//! School members, their devices and electricity usage, and small collection helpers.
use crate::mpc_shamir::party::label_map;
use vstd::prelude::*;

verus! {

pub trait SchoolMember {
    /// The number of powered devices the member carries.
    spec fn spec_devices(&self) -> nat;

    /// The hours per week the member spends in the building.
    spec fn spec_hours(&self) -> nat;

    /// The member's name.
    spec fn spec_name(&self) -> Seq<char>;

    /// The member's age.
    spec fn spec_age(&self) -> i32;

    /// The member's role in the school.
    spec fn spec_role(&self) -> Seq<char>;

    fn name(&self) -> (r: &str)
        ensures
            r@ == self.spec_name(),
    ;

    fn age(&self) -> (r: i32)
        ensures
            r == self.spec_age(),
    ;

    fn devices(&self) -> (r: u32)
        ensures
            r == self.spec_devices(),
    ;

    fn weekly_hours_in_building(&self) -> (r: u32)
        requires
            self.spec_hours() <= u32::MAX,
        ensures
            r == self.spec_hours(),
    ;

    fn role(&self) -> (r: &str)
        ensures
            r@ == self.spec_role(),
    ;

    /// Ten units per device per hour in the building.
    fn electricity_usage(&self) -> (r: u32)
        requires
            self.spec_hours() <= u32::MAX,
            self.spec_hours() * self.spec_devices() * 10 <= u32::MAX,
        ensures
            r == self.spec_hours() * self.spec_devices() * 10,
    {
        let d = self.devices();
        let h = self.weekly_hours_in_building();
        h * d * 10
    }
}

pub struct Student {
    pub name: String,
    pub age: i32,
    pub laptop: bool,
    pub phone: bool,
    pub classes_per_week: u32,
}

pub struct Teacher {
    pub name: String,
    pub age: i32,
    pub laptop: bool,
    pub phone: bool,
    pub projector: bool,
    pub teaching_days_per_week: u32,
}

pub struct SecurityGuard {
    pub name: String,
    pub age: i32,
    pub phone: bool,
    pub shift_hours: u32,
}

/// 1 for a device that is there, 0 otherwise.
pub open spec fn count(b: bool) -> nat {
    if b {
        1
    } else {
        0
    }
}

impl SchoolMember for Student {
    open spec fn spec_name(&self) -> Seq<char> {
        self.name@
    }

    open spec fn spec_age(&self) -> i32 {
        self.age
    }

    open spec fn spec_role(&self) -> Seq<char> {
        "Student"@
    }

    open spec fn spec_devices(&self) -> nat {
        count(self.laptop) + count(self.phone)
    }

    open spec fn spec_hours(&self) -> nat {
        (self.classes_per_week * 2) as nat
    }

    fn name(&self) -> &str {
        self.name.as_str()
    }

    fn age(&self) -> i32 {
        self.age
    }

    fn role(&self) -> &str {
        "Student"
    }

    fn devices(&self) -> (r: u32) {
        self.laptop as u32 + self.phone as u32
    }

    fn weekly_hours_in_building(&self) -> (r: u32) {
        self.classes_per_week * 2
    }
}

impl SchoolMember for Teacher {
    open spec fn spec_name(&self) -> Seq<char> {
        self.name@
    }

    open spec fn spec_age(&self) -> i32 {
        self.age
    }

    open spec fn spec_role(&self) -> Seq<char> {
        "Teacher"@
    }

    open spec fn spec_devices(&self) -> nat {
        count(self.laptop) + count(self.phone) + count(self.projector)
    }

    open spec fn spec_hours(&self) -> nat {
        (self.teaching_days_per_week * 8) as nat
    }

    fn name(&self) -> &str {
        self.name.as_str()
    }

    fn age(&self) -> i32 {
        self.age
    }

    fn role(&self) -> &str {
        "Teacher"
    }

    fn devices(&self) -> (r: u32) {
        self.laptop as u32 + self.phone as u32 + self.projector as u32
    }

    fn weekly_hours_in_building(&self) -> (r: u32) {
        self.teaching_days_per_week * 8
    }
}

impl SchoolMember for SecurityGuard {
    open spec fn spec_name(&self) -> Seq<char> {
        self.name@
    }

    open spec fn spec_age(&self) -> i32 {
        self.age
    }

    open spec fn spec_role(&self) -> Seq<char> {
        "Security"@
    }

    open spec fn spec_devices(&self) -> nat {
        count(self.phone)
    }

    open spec fn spec_hours(&self) -> nat {
        self.shift_hours as nat
    }

    fn name(&self) -> &str {
        self.name.as_str()
    }

    fn age(&self) -> i32 {
        self.age
    }

    fn role(&self) -> &str {
        "Security"
    }

    fn devices(&self) -> (r: u32) {
        self.phone as u32
    }

    fn weekly_hours_in_building(&self) -> (r: u32) {
        self.shift_hours
    }
}

/// The even numbers of `nums`, in order.
pub fn vec_even(nums: &[u32]) -> (r: Vec<u32>)
    ensures
        r@ == nums@.filter(|x: u32| x % 2 == 0),
{
    let ghost pred = |x: u32| x % 2 == 0;
    let mut r: Vec<u32> = Vec::new();
    let mut i: usize = 0;
    while i < nums.len()
        invariant
            i <= nums@.len(),
            pred == (|x: u32| x % 2 == 0),
            r@ == nums@.take(i as int).filter(pred),
        decreases nums@.len() - i,
    {
        proof {
            reveal_with_fuel(Seq::<_>::filter, 1);
            assert(nums@.take(i + 1).drop_last() =~= nums@.take(i as int));
        }
        if nums[i] % 2 == 0 {
            r.push(nums[i]);
        }
        i = i + 1;
    }
    assert(nums@.take(nums@.len() as int) =~= nums@);
    r
}

/// No key occurs twice.
pub open spec fn unique_keys<V>(s: Seq<(String, V)>) -> bool {
    forall|i: int, j: int| 0 <= i < j < s.len() ==> (#[trigger] s[i]).0@ != (#[trigger] s[j]).0@
}

/// Overwriting the entry of a key in a key-unique list overwrites it in the map.
pub(crate) proof fn lemma_label_map_update<V>(s: Seq<(String, V)>, idx: int, e: (String, V))
    requires
        unique_keys(s),
        0 <= idx < s.len(),
        s[idx].0@ == e.0@,
    ensures
        label_map(s.update(idx, e)) == label_map(s).insert(e.0@, e.1),
    decreases s.len(),
{
    let u = s.update(idx, e);
    let d = s.drop_last();
    if idx == s.len() - 1 {
        assert(u.drop_last() =~= d);
        assert(label_map(u) =~= label_map(s).insert(e.0@, e.1));
    } else {
        assert(u.drop_last() =~= d.update(idx, e));
        assert(unique_keys(d));
        lemma_label_map_update(d, idx, e);
        assert(s.last().0@ != e.0@);
        assert(label_map(u) =~= label_map(s).insert(e.0@, e.1));
    }
}

/// The pairs collected into a map from key to value, a later pair overriding an
/// earlier one with the same key; each key once.
pub fn vec_hash(pairs: Vec<(String, u32)>) -> (r: Vec<(String, u32)>)
    ensures
        unique_keys(r@),
        label_map(r@) == label_map(pairs@),
{
    let mut r: Vec<(String, u32)> = Vec::new();
    let mut i: usize = 0;
    while i < pairs.len()
        invariant
            i <= pairs@.len(),
            unique_keys(r@),
            label_map(r@) == label_map(pairs@.take(i as int)),
        decreases pairs@.len() - i,
    {
        let key = pairs[i].0.clone();
        let value = pairs[i].1;
        proof {
            assert(pairs@.take(i + 1).drop_last() =~= pairs@.take(i as int));
        }
        let mut j: usize = 0;
        let mut found = false;
        while j < r.len() && !found
            invariant
                j <= r@.len(),
                found ==> j < r@.len() && r@[j as int].0@ == key@,
                forall|k: int| 0 <= k < j ==> (#[trigger] r@[k]).0@ != key@,
            decreases r@.len() - j + (if found {
                0int
            } else {
                1int
            }),
        {
            if r[j].0 == key {
                found = true;
            } else {
                j = j + 1;
            }
        }
        let ghost before = r@;
        if found {
            r.set(j, (key, value));
            proof {
                lemma_label_map_update(before, j as int, r@[j as int]);
            }
        } else {
            r.push((key, value));
            proof {
                assert(r@.drop_last() =~= before);
            }
        }
        i = i + 1;
    }
    assert(pairs@.take(pairs@.len() as int) =~= pairs@);
    r
}

/// **A student's devices are the laptop and the phone they carry**: one for
/// each flag that is set, so the count lies in `0..=2`, a student with only a
/// phone (or only a laptop) has one device, and each flag adds exactly one.
pub proof fn lemma_student_devices(s: Student)
    ensures
        s.spec_devices() == (if s.laptop { 1nat } else { 0nat }) + (if s.phone { 1nat } else { 0nat }),
        s.spec_devices() <= 2,
        s.spec_devices() == 0 <==> !s.laptop && !s.phone,
        s.spec_devices() == 2 <==> s.laptop && s.phone,
        (Student { phone: true, ..s }).spec_devices() == (Student { phone: false, ..s }).spec_devices()
            + 1,
        (Student { laptop: true, ..s }).spec_devices() == (Student { laptop: false, ..s }).spec_devices()
            + 1,
{
}

/// **A teacher's devices are the laptop, phone and projector they use**: one
/// for each flag that is set; each of the three flags adds exactly one device.
pub proof fn lemma_teacher_devices(t: Teacher)
    ensures
        t.spec_devices() == (if t.laptop { 1nat } else { 0nat }) + (if t.phone { 1nat } else { 0nat }) + (
        if t.projector { 1nat } else { 0nat }),
        t.spec_devices() <= 3,
        t.spec_devices() == 0 <==> !t.laptop && !t.phone && !t.projector,
        t.spec_devices() == 3 <==> t.laptop && t.phone && t.projector,
        (Teacher { laptop: true, ..t }).spec_devices() == (Teacher { laptop: false, ..t }).spec_devices()
            + 1,
        (Teacher { phone: true, ..t }).spec_devices() == (Teacher { phone: false, ..t }).spec_devices()
            + 1,
        (Teacher { projector: true, ..t }).spec_devices() == (Teacher {
            projector: false,
            ..t
        }).spec_devices() + 1,
{
}

/// **A security guard's only device is the phone**: one device exactly when
/// the guard carries a phone, none otherwise.
pub proof fn lemma_guard_devices(g: SecurityGuard)
    ensures
        g.spec_devices() == (if g.phone { 1nat } else { 0nat }),
        g.spec_devices() == 1 <==> g.phone,
        g.spec_devices() == 0 <==> !g.phone,
{
}

/// **Electricity is ten units per device per hour in the building**: a member
/// with no device uses none, and each device adds ten units per weekly hour.
pub proof fn lemma_teacher_electricity(t: Teacher)
    ensures
        t.spec_hours() == 8 * t.teaching_days_per_week,
        (Teacher { projector: true, ..t }).spec_hours() * (Teacher { projector: true, ..t }).spec_devices()
            * 10 == t.spec_hours() * ((Teacher { projector: false, ..t }).spec_devices() + 1) * 10,
{
}

} // verus!
