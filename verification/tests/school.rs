use zk_foundations::helpers::longest;
use zk_foundations::school::{vec_even, vec_hash, SchoolMember, SecurityGuard, Student, Teacher};

#[test]
fn electricity_usage_per_role() {
    let student = Student {
        name: String::from("Amara"),
        age: 20,
        laptop: true,
        phone: true,
        classes_per_week: 10,
    };
    let teacher = Teacher {
        name: String::from("Mr. Obi"),
        age: 45,
        laptop: true,
        phone: true,
        projector: true,
        teaching_days_per_week: 5,
    };
    let guard = SecurityGuard { name: String::from("Emeka"), age: 35, phone: true, shift_hours: 56 };
    assert_eq!(student.devices(), 2);
    assert_eq!(student.weekly_hours_in_building(), 20);
    assert_eq!(student.electricity_usage(), 400);
    assert_eq!(student.role(), "Student");
    assert_eq!(student.name(), "Amara");
    assert_eq!(student.age(), 20);
    assert_eq!(teacher.devices(), 3);
    assert_eq!(teacher.weekly_hours_in_building(), 40);
    assert_eq!(teacher.electricity_usage(), 1200);
    assert_eq!(teacher.role(), "Teacher");
    assert_eq!(guard.devices(), 1);
    assert_eq!(guard.electricity_usage(), 560);
    assert_eq!(guard.role(), "Security");
}

#[test]
fn even_numbers_in_order() {
    assert_eq!(vec_even(&[1, 2, 3, 4, 5]), vec![2, 4]);
    assert_eq!(vec_even(&[]), Vec::<u32>::new());
    assert_eq!(vec_even(&[8, 0, 7]), vec![8, 0]);
}

#[test]
fn pairs_into_map_later_wins() {
    let m = vec_hash(vec![
        (String::from("zk"), 10),
        (String::from("rust"), 8),
        (String::from("zk"), 12),
    ]);
    let as_map: std::collections::HashMap<String, u32> = m.into_iter().collect();
    assert_eq!(as_map.len(), 2);
    assert_eq!(as_map["zk"], 12);
    assert_eq!(as_map["rust"], 8);
}

#[test]
fn longest_by_bytes() {
    assert_eq!(longest("hello", "hi"), "hello");
    assert_eq!(longest("ab", "cd"), "cd");
    assert_eq!(longest("é", "ab"), "ab");
}
