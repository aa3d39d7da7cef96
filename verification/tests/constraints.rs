use school_roster::availability::{
    count_matching, get_teacher_availability, is_busy, is_free_block, is_schedule_available,
    is_teacher_available, release, reserve, teacher_modules_on_day, Resource,
};
use school_roster::constraints::{constraints_satisfied, fits_cap};
use school_roster::model::{Assignment, Group, Subject, SubjectWithTeacher, Teacher};
use school_roster::scoring::{
    find_best_teacher, find_best_teacher_from_list, teacher_score,
};

fn lesson(group: i16, day: &str, module: i16, subject: i16, teacher: i16) -> Assignment {
    Assignment {
        id: None,
        group_id: group,
        day: day.to_string(),
        module_index: module,
        subject_id: subject,
        teacher_id: teacher,
        classroom_id: 0,
        subject_name: String::new(),
        subject_shorten: String::new(),
        subject_color: String::new(),
    }
}

fn teacher(id: i16, subjects: Vec<i16>) -> Teacher {
    Teacher {
        id: Some(id),
        name: format!("Teacher {}", id),
        father_lastname: "Doe".to_string(),
        subjects,
        preferred_days: None,
        preferred_modules: None,
        commissioned_hours: None,
    }
}

fn group(id: i16, cap: Option<i16>) -> Group {
    Group {
        id: Some(id),
        grade: 1,
        group: "A".to_string(),
        career: None,
        students: Some(20),
        max_modules_per_day: cap,
    }
}

fn subject(id: i16) -> Subject {
    Subject {
        id,
        name: "Mathematics".to_string(),
        shorten: "Mat".to_string(),
        color: "#000000".to_string(),
        spec: String::new(),
    }
}

fn planned_subject(id: i16) -> SubjectWithTeacher {
    SubjectWithTeacher {
        id,
        name: "Mathematics".to_string(),
        shorten: "Mat".to_string(),
        color: "#000000".to_string(),
        spec: None,
        required_modules: None,
        priority: None,
        assigned_teacher: None,
    }
}

#[test]
fn empty_schedule_allows_any_block() {
    let s: Vec<Assignment> = vec![];
    assert!(constraints_satisfied(&s, &group(1, None), "Monday", 1, &subject(1), &teacher(1, vec![1]), 2));
}

#[test]
fn group_daily_cap_is_a_hard_constraint() {
    let s = vec![
        lesson(1, "Monday", 1, 2, 9),
        lesson(1, "Monday", 2, 2, 9),
        lesson(1, "Monday", 3, 3, 9),
    ];
    let g = group(1, None);
    let t = teacher(1, vec![1]);
    assert!(!constraints_satisfied(&s, &g, "Monday", 4, &subject(1), &t, 2));
    assert!(constraints_satisfied(&s, &g, "Monday", 4, &subject(1), &t, 1));
    assert!(constraints_satisfied(&s, &g, "Tuesday", 4, &subject(1), &t, 2));
    assert!(constraints_satisfied(&s, &group(1, Some(5)), "Monday", 4, &subject(1), &t, 2));
    assert!(!constraints_satisfied(&s, &group(1, Some(3)), "Monday", 4, &subject(1), &t, 1));
}

#[test]
fn a_subject_has_one_block_per_day() {
    let s = vec![lesson(1, "Monday", 1, 1, 9)];
    let g = group(1, None);
    let t = teacher(1, vec![1]);
    assert!(!constraints_satisfied(&s, &g, "Monday", 3, &subject(1), &t, 1));
    assert!(constraints_satisfied(&s, &g, "Monday", 3, &subject(2), &t, 1));
    assert!(constraints_satisfied(&s, &group(2, None), "Monday", 3, &subject(1), &t, 1));
}

#[test]
fn teacher_must_be_free_for_the_whole_block() {
    let s = vec![lesson(2, "Monday", 3, 5, 1)];
    let g = group(1, None);
    let t = teacher(1, vec![1]);
    assert!(!constraints_satisfied(&s, &g, "Monday", 3, &subject(1), &t, 1));
    assert!(!constraints_satisfied(&s, &g, "Monday", 2, &subject(1), &t, 2));
    assert!(constraints_satisfied(&s, &g, "Monday", 1, &subject(1), &t, 2));
    assert!(constraints_satisfied(&s, &g, "Monday", 4, &subject(1), &t, 2));
}

#[test]
fn teacher_load_cap_is_a_hard_constraint() {
    let s = vec![lesson(2, "Monday", 1, 5, 1), lesson(2, "Monday", 2, 5, 1)];
    let g = group(1, None);
    let mut t = teacher(1, vec![1]);
    t.commissioned_hours = Some(3);
    assert!(constraints_satisfied(&s, &g, "Monday", 3, &subject(1), &t, 1));
    assert!(!constraints_satisfied(&s, &g, "Monday", 3, &subject(1), &t, 2));
    t.commissioned_hours = None;
    assert!(constraints_satisfied(&s, &g, "Monday", 3, &subject(1), &t, 2));
}

#[test]
fn a_block_may_leave_no_gap_in_the_teachers_day() {
    let g = group(1, None);
    let t = teacher(1, vec![1]);
    let early = vec![lesson(2, "Monday", 1, 5, 1)];
    assert!(constraints_satisfied(&early, &g, "Monday", 2, &subject(1), &t, 2));
    assert!(!constraints_satisfied(&early, &g, "Monday", 3, &subject(1), &t, 1));
    assert!(!constraints_satisfied(&early, &g, "Monday", 4, &subject(1), &t, 2));
    assert!(constraints_satisfied(&early, &g, "Tuesday", 4, &subject(1), &t, 2));
    let late = vec![lesson(2, "Monday", 5, 5, 1)];
    assert!(constraints_satisfied(&late, &g, "Monday", 3, &subject(1), &t, 2));
    assert!(!constraints_satisfied(&late, &g, "Monday", 2, &subject(1), &t, 2));
    assert!(constraints_satisfied(&late, &g, "Monday", 4, &subject(1), &t, 1));
    assert!(!constraints_satisfied(&late, &g, "Monday", 1, &subject(1), &t, 1));
    // a gap that is already there does not count
    let split = vec![lesson(2, "Monday", 1, 5, 1), lesson(2, "Monday", 5, 5, 1)];
    assert!(constraints_satisfied(&split, &g, "Monday", 6, &subject(1), &t, 1));
    assert!(!constraints_satisfied(&split, &g, "Monday", 3, &subject(1), &t, 1));
}

#[test]
fn day_names_are_compared_exactly() {
    let s = vec![lesson(1, "Monday", 1, 1, 1)];
    assert!(is_teacher_available(&s, 1, "monday", 1, 1));
    assert!(!is_teacher_available(&s, 1, "Monday", 1, 1));
    assert!(is_schedule_available(&s, 1, "Monda", 1, 1));
    assert!(!is_schedule_available(&s, 1, "Monday", 1, 1));
}

#[test]
fn free_blocks_and_busy_modules() {
    let mut a = lesson(1, "Monday", 3, 1, 7);
    a.classroom_id = 4;
    let s = vec![a, lesson(1, "Monday", 4, 1, 7), lesson(2, "Tuesday", 1, 2, 7)];
    assert!(is_free_block(&s, Resource::Group, 1, "Monday", 1, 2));
    assert!(!is_free_block(&s, Resource::Group, 1, "Monday", 2, 2));
    assert!(!is_free_block(&s, Resource::Group, 1, "Monday", 4, 2));
    assert!(is_free_block(&s, Resource::Group, 1, "Monday", 5, 2));
    assert!(is_free_block(&s, Resource::Group, 1, "Monday", 3, 0));
    assert!(is_free_block(&s, Resource::Teacher, 7, "Tuesday", 2, 2));
    assert!(!is_free_block(&s, Resource::Teacher, 7, "Tuesday", 1, 1));
    assert!(!is_free_block(&s, Resource::Room, 4, "Monday", 3, 1));
    assert!(is_free_block(&s, Resource::Room, 4, "Monday", 4, 1));
    assert!(is_busy(&s, Resource::Teacher, 7, "Monday", 3));
    assert!(!is_busy(&s, Resource::Teacher, 7, "Monday", 5));
    assert!(is_schedule_available(&s, 2, "Monday", 3, 2));
    assert!(!is_schedule_available(&s, 1, "Monday", 3, 2));
    assert!(is_teacher_available(&s, 7, "Monday", 1, 2));
    assert!(!is_teacher_available(&s, 7, "Monday", 2, 2));
}

#[test]
fn teacher_modules_are_listed_in_order() {
    let s = vec![
        lesson(1, "Monday", 4, 1, 7),
        lesson(2, "Monday", 2, 1, 7),
        lesson(3, "Monday", 9, 1, 7),
        lesson(1, "Tuesday", 1, 1, 7),
        lesson(1, "Monday", 1, 1, 8),
    ];
    assert_eq!(teacher_modules_on_day(&s, 7, "Monday", 9), vec![2, 4, 9]);
    assert_eq!(teacher_modules_on_day(&s, 7, "Monday", 8), vec![2, 4]);
    assert_eq!(teacher_modules_on_day(&s, 7, "Friday", 9), Vec::<i16>::new());
    let days = vec!["Monday".to_string(), "Tuesday".to_string()];
    assert_eq!(
        get_teacher_availability(7, &s, &days, 5),
        vec![vec![1, 3, 5], vec![2, 3, 4, 5]]
    );
}

#[test]
fn counts_match_every_given_field() {
    let mut roomed = lesson(1, "Monday", 1, 1, 7);
    roomed.classroom_id = 3;
    let s = vec![
        roomed,
        lesson(1, "Monday", 2, 1, 7),
        lesson(1, "Tuesday", 1, 2, 8),
        lesson(2, "Monday", 1, 1, 8),
    ];
    assert_eq!(count_matching(&s, None, None, None, None, None), 4);
    assert_eq!(count_matching(&s, Some(1), None, None, Some("Monday"), None), 2);
    assert_eq!(count_matching(&s, None, Some(8), None, None, None), 2);
    assert_eq!(count_matching(&s, Some(1), None, Some(1), None, None), 2);
    assert_eq!(count_matching(&s, Some(1), None, None, Some("Monday"), Some(3)), 1);
    assert_eq!(count_matching(&s, Some(3), None, None, None, None), 0);
    assert!(fits_cap(2, 2, 4));
    assert!(!fits_cap(3, 2, 4));
    assert!(!fits_cap(100_000, 2, 4));
    assert!(fits_cap(5, -2, 3));
}

#[test]
fn teacher_score_adds_its_terms() {
    let s = vec![lesson(2, "Monday", 1, 5, 1), lesson(2, "Monday", 2, 5, 1)];
    let mut t = teacher(1, vec![1]);
    t.commissioned_hours = Some(40);
    // no preferences: continuity 20, spare load (40 - 2) / 2
    assert_eq!(teacher_score(&s, &t, "Monday", 3, 2), 20 + 19);
    // same day, not adjacent
    assert_eq!(teacher_score(&s, &t, "Monday", 5, 1), 5 + 19);
    // another day
    assert_eq!(teacher_score(&s, &t, "Tuesday", 1, 2), 19);
    t.preferred_days = Some(vec!["Monday".to_string()]);
    t.preferred_modules = Some(vec![3, 4, 4, 9]);
    assert_eq!(teacher_score(&s, &t, "Monday", 3, 2), 10 + 10 + 20 + 19);
    assert_eq!(teacher_score(&s, &t, "Monday", 4, 2), 10 + 5 + 5 + 19);
    assert_eq!(teacher_score(&s, &t, "Tuesday", 3, 1), 5 + 19);
    // the load term rounds toward zero
    t.commissioned_hours = Some(1);
    t.preferred_days = None;
    t.preferred_modules = None;
    assert_eq!(teacher_score(&s, &t, "Tuesday", 1, 1), 0);
    t.commissioned_hours = Some(5);
    assert_eq!(teacher_score(&s, &t, "Tuesday", 1, 1), 1);
    t.commissioned_hours = None;
    assert_eq!(teacher_score(&Vec::new(), &t, "Tuesday", 1, 1), 20);
}

#[test]
fn best_teacher_has_the_highest_score_then_the_lowest_identifier() {
    let g = group(1, None);
    let u = planned_subject(1);
    let empty: Vec<Assignment> = vec![];
    let both = vec![teacher(5, vec![1]), teacher(3, vec![1]), teacher(4, vec![2])];
    // equal scores: the lowest identifier wins, wherever it stands
    assert_eq!(find_best_teacher(&empty, &g, &u, "Monday", 1, 2, &both), Some(1));
    // a list counts every teacher as qualified
    let listed = vec![teacher(5, vec![1]), teacher(4, vec![2])];
    assert_eq!(find_best_teacher_from_list(&empty, &g, &u, "Monday", 1, 2, &listed), Some(1));
    assert_eq!(find_best_teacher(&empty, &g, &u, "Monday", 1, 2, &listed), Some(0));
    // a preferred day beats the lower identifier
    let mut keen = teacher(9, vec![1]);
    keen.preferred_days = Some(vec!["Monday".to_string()]);
    let with_keen = vec![teacher(3, vec![1]), keen];
    assert_eq!(find_best_teacher(&empty, &g, &u, "Monday", 1, 2, &with_keen), Some(1));
    assert_eq!(find_best_teacher(&empty, &g, &u, "Tuesday", 1, 2, &with_keen), Some(0));
    // a busy teacher is not eligible
    let busy = vec![lesson(2, "Monday", 1, 1, 3)];
    assert_eq!(find_best_teacher(&busy, &g, &u, "Monday", 1, 2, &both), Some(0));
    // nobody is qualified
    let none = vec![teacher(4, vec![2])];
    assert_eq!(find_best_teacher(&empty, &g, &u, "Monday", 1, 2, &none), None);
    // a teacher without identifier is passed over
    let mut unnamed = teacher(1, vec![1]);
    unnamed.id = None;
    assert_eq!(find_best_teacher(&empty, &g, &u, "Monday", 1, 2, &vec![unnamed]), None);
}

#[test]
fn reserve_and_release_enter_and_remove_lessons() {
    let mut s = vec![lesson(1, "Monday", 1, 1, 7), lesson(1, "Monday", 2, 1, 7)];
    reserve(&mut s, lesson(2, "Monday", 1, 2, 8));
    assert_eq!(s.len(), 3);
    assert_eq!(s[2], lesson(2, "Monday", 1, 2, 8));
    // release goes by the group's slot, whatever else the lesson says
    assert!(release(&mut s, &lesson(1, "Monday", 1, 9, 9)));
    assert_eq!(s, vec![lesson(1, "Monday", 2, 1, 7), lesson(2, "Monday", 1, 2, 8)]);
    assert!(!release(&mut s, &lesson(1, "Monday", 1, 1, 7)));
    assert!(!release(&mut s, &lesson(2, "Tuesday", 1, 2, 8)));
    assert_eq!(s.len(), 2);
    // of several lessons in the slot the last one leaves
    reserve(&mut s, lesson(2, "Monday", 1, 5, 5));
    assert!(release(&mut s, &lesson(2, "Monday", 1, 0, 0)));
    assert_eq!(s, vec![lesson(1, "Monday", 2, 1, 7), lesson(2, "Monday", 1, 2, 8)]);
}
