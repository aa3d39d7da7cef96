use school_roster::model::{
    Assignment, Classroom, Domain, Group, GroupSubjects, SubjectWithTeacher, Teacher,
};
use school_roster::optimize::{
    count_subject_kinds, optimize_classroom_usage, optimize_early_modules,
    optimize_group_subject_distribution, optimize_schedule, optimize_teacher_isolated_modules,
};
use school_roster::rooms::{assign_classrooms, best_room, room_score, set_room};
use school_roster::validate::{check_plannable, check_schedule, is_paired, is_qualified};

fn week() -> Vec<String> {
    vec!["Monday", "Tuesday", "Wednesday", "Thursday", "Friday"]
        .into_iter()
        .map(|d| d.to_string())
        .collect()
}

fn subject(id: i16, required: i16, spec: Option<&str>) -> SubjectWithTeacher {
    SubjectWithTeacher {
        id,
        name: format!("Subject {}", id),
        shorten: format!("S{}", id),
        color: "#112233".to_string(),
        spec: spec.map(|s| s.to_string()),
        required_modules: Some(required),
        priority: None,
        assigned_teacher: None,
    }
}

fn teacher(id: i16, subjects: Vec<i16>) -> Teacher {
    Teacher {
        id: Some(id),
        name: format!("Teacher {}", id),
        father_lastname: "Doe".to_string(),
        subjects,
        preferred_days: None,
        preferred_modules: None,
        commissioned_hours: None,
    }
}

fn group(id: i16) -> Group {
    Group {
        id: Some(id),
        grade: 1,
        group: "A".to_string(),
        career: None,
        students: Some(20),
        max_modules_per_day: Some(4),
    }
}

fn room(id: i16, building: &str, capacity: i16, kind: Option<&str>) -> Classroom {
    Classroom {
        id: Some(id),
        building_id: Some(building.to_string()),
        building_number: id,
        building_type: kind.map(|k| k.to_string()),
        capacity: Some(capacity),
        availability: None,
    }
}

fn lesson(group: i16, day: &str, module: i16, subject: i16, teacher: i16, room: i16) -> Assignment {
    Assignment {
        id: None,
        group_id: group,
        day: day.to_string(),
        module_index: module,
        subject_id: subject,
        teacher_id: teacher,
        classroom_id: room,
        subject_name: format!("Subject {}", subject),
        subject_shorten: format!("S{}", subject),
        subject_color: "#112233".to_string(),
    }
}

fn domain(subjects: Vec<SubjectWithTeacher>, teachers: Vec<Teacher>, rooms: Vec<Classroom>) -> Domain {
    let group_subjects =
        subjects.iter().map(|s| GroupSubjects { group_id: 1, subject_id: s.id }).collect();
    Domain {
        days: week(),
        modules_per_day: 9,
        subjects,
        teachers,
        groups: vec![group(1)],
        group_subjects,
        classrooms: rooms,
    }
}

#[test]
fn early_module_pass_fills_the_gap() {
    let d = domain(
        vec![subject(1, 2, None), subject(2, 1, None), subject(3, 1, None)],
        vec![teacher(1, vec![1]), teacher(2, vec![2]), teacher(3, vec![3])],
        vec![],
    );
    let mut s = vec![
        lesson(1, "Monday", 1, 1, 1, 0),
        lesson(1, "Monday", 2, 1, 1, 0),
        lesson(1, "Monday", 4, 2, 2, 0),
        lesson(1, "Monday", 5, 3, 3, 0),
    ];
    assert!(check_plannable(&s, &d));
    assert!(optimize_early_modules(&mut s, &d));
    let modules: Vec<i16> = s.iter().map(|a| a.module_index).collect();
    assert_eq!(modules, vec![1, 2, 3, 5]);
    assert_eq!(s[2].subject_id, 2);
    assert_eq!(s[2].day, "Monday");
    assert!(check_schedule(&s, &d));
    // the next call moves the lesson that now stands after the gap
    assert!(optimize_early_modules(&mut s, &d));
    let modules: Vec<i16> = s.iter().map(|a| a.module_index).collect();
    assert_eq!(modules, vec![1, 2, 3, 4]);
    assert!(!optimize_early_modules(&mut s, &d));
}

#[test]
fn early_module_pass_needs_a_free_teacher() {
    let mut d = domain(
        vec![subject(1, 2, None), subject(2, 1, None), subject(3, 1, None)],
        vec![teacher(1, vec![1]), teacher(2, vec![2, 3])],
        vec![],
    );
    d.groups.push(Group { id: Some(2), ..group(1) });
    d.group_subjects.push(GroupSubjects { group_id: 2, subject_id: 3 });
    let mut s = vec![
        lesson(1, "Monday", 1, 1, 1, 0),
        lesson(1, "Monday", 2, 1, 1, 0),
        lesson(1, "Monday", 4, 2, 2, 0),
        lesson(2, "Monday", 3, 3, 2, 0),
    ];
    assert!(check_plannable(&s, &d));
    let before = s.clone();
    assert!(!optimize_early_modules(&mut s, &d));
    assert_eq!(s, before);
}

#[test]
fn early_module_pass_keeps_blocks_together() {
    let d = domain(vec![subject(1, 2, None), subject(2, 2, None)], vec![teacher(1, vec![1, 2])], vec![]);
    let mut s = vec![
        lesson(1, "Monday", 1, 1, 1, 0),
        lesson(1, "Monday", 2, 1, 1, 0),
        lesson(1, "Monday", 4, 2, 1, 0),
        lesson(1, "Monday", 5, 2, 1, 0),
    ];
    assert!(check_plannable(&s, &d));
    let before = s.clone();
    assert!(!optimize_early_modules(&mut s, &d));
    assert_eq!(s, before);
}

#[test]
fn isolated_lesson_moves_next_to_the_teachers_block() {
    let d = domain(vec![subject(1, 1, None), subject(2, 2, None)], vec![teacher(1, vec![1, 2])], vec![]);
    let mut s = vec![
        lesson(1, "Monday", 1, 1, 1, 0),
        lesson(1, "Tuesday", 1, 2, 1, 0),
        lesson(1, "Tuesday", 2, 2, 1, 0),
    ];
    assert!(check_plannable(&s, &d));
    assert!(optimize_teacher_isolated_modules(&mut s, &d));
    assert_eq!((s[0].day.as_str(), s[0].module_index), ("Tuesday", 3));
    assert_eq!(s[0].teacher_id, 1);
    assert!(check_schedule(&s, &d));
    assert!(!optimize_teacher_isolated_modules(&mut s, &d));
}

#[test]
fn crowded_day_hands_a_lesson_to_another_teacher() {
    let d = domain(
        vec![subject(1, 1, None), subject(2, 1, None), subject(3, 1, None)],
        vec![teacher(1, vec![1, 2, 3]), teacher(2, vec![3])],
        vec![],
    );
    let mut s = vec![
        lesson(1, "Monday", 1, 1, 1, 0),
        lesson(1, "Tuesday", 1, 2, 1, 0),
        lesson(1, "Tuesday", 2, 3, 1, 0),
    ];
    assert!(check_plannable(&s, &d));
    assert!(optimize_teacher_isolated_modules(&mut s, &d));
    let teachers: Vec<i16> = s.iter().map(|a| a.teacher_id).collect();
    assert_eq!(teachers, vec![1, 1, 2]);
    assert!(check_schedule(&s, &d));
}

#[test]
fn a_day_with_four_subjects_gives_one_to_an_empty_day() {
    let d = domain(
        vec![subject(1, 1, None), subject(2, 1, None), subject(3, 1, None), subject(4, 1, None)],
        vec![teacher(1, vec![1, 2, 3, 4])],
        vec![],
    );
    let mut s = vec![
        lesson(1, "Monday", 1, 1, 1, 0),
        lesson(1, "Monday", 2, 2, 1, 0),
        lesson(1, "Monday", 3, 3, 1, 0),
        lesson(1, "Monday", 4, 4, 1, 0),
    ];
    assert!(check_plannable(&s, &d));
    assert_eq!(count_subject_kinds(&s, 1, "Monday"), 4);
    assert_eq!(count_subject_kinds(&s, 1, "Tuesday"), 0);
    assert!(optimize_group_subject_distribution(&mut s, &d));
    assert_eq!((s[0].day.as_str(), s[0].module_index), ("Tuesday", 1));
    assert_eq!(count_subject_kinds(&s, 1, "Monday"), 3);
    assert!(check_schedule(&s, &d));
    assert!(!optimize_group_subject_distribution(&mut s, &d));
}

#[test]
fn a_block_of_two_moves_as_a_whole() {
    let mut d = domain(
        vec![
            subject(1, 2, None),
            subject(2, 1, None),
            subject(3, 1, None),
            subject(4, 1, None),
        ],
        vec![teacher(1, vec![1, 2, 3, 4])],
        vec![],
    );
    d.groups[0].max_modules_per_day = Some(5);
    let mut s = vec![
        lesson(1, "Monday", 2, 1, 1, 0),
        lesson(1, "Monday", 1, 1, 1, 0),
        lesson(1, "Monday", 3, 2, 1, 0),
        lesson(1, "Monday", 4, 3, 1, 0),
        lesson(1, "Monday", 5, 4, 1, 0),
    ];
    assert!(check_plannable(&s, &d));
    assert!(optimize_group_subject_distribution(&mut s, &d));
    assert_eq!((s[0].day.as_str(), s[0].module_index), ("Tuesday", 2));
    assert_eq!((s[1].day.as_str(), s[1].module_index), ("Tuesday", 1));
    assert!(check_schedule(&s, &d));
}

#[test]
fn lessons_move_to_the_room_the_group_uses_most() {
    let d = domain(
        vec![subject(1, 2, None), subject(2, 1, None)],
        vec![teacher(1, vec![1, 2])],
        vec![room(1, "A", 30, None), room(2, "A", 30, None)],
    );
    let mut s = vec![
        lesson(1, "Monday", 1, 1, 1, 2),
        lesson(1, "Monday", 2, 1, 1, 2),
        lesson(1, "Monday", 3, 2, 1, 1),
    ];
    assert!(check_plannable(&s, &d));
    assert!(optimize_classroom_usage(&mut s, &d));
    let rooms: Vec<i16> = s.iter().map(|a| a.classroom_id).collect();
    assert_eq!(rooms, vec![2, 2, 2]);
    assert!(!optimize_classroom_usage(&mut s, &d));
}

#[test]
fn rooms_used_equally_often_meet_in_the_lower_one() {
    let d = domain(
        vec![subject(1, 1, None), subject(2, 1, None)],
        vec![teacher(1, vec![1, 2])],
        vec![room(1, "A", 30, None), room(2, "A", 30, None)],
    );
    let mut s = vec![lesson(1, "Monday", 1, 1, 1, 2), lesson(1, "Monday", 2, 2, 1, 1)];
    assert!(optimize_classroom_usage(&mut s, &d));
    let rooms: Vec<i16> = s.iter().map(|a| a.classroom_id).collect();
    assert_eq!(rooms, vec![1, 1]);
}

#[test]
fn room_consolidation_respects_the_type_of_room() {
    let d = domain(
        vec![subject(1, 2, None), subject(2, 1, Some("lab"))],
        vec![teacher(1, vec![1, 2])],
        vec![room(1, "A", 30, Some("computer lab")), room(2, "A", 30, Some("regular"))],
    );
    let mut s = vec![
        lesson(1, "Monday", 1, 1, 1, 2),
        lesson(1, "Monday", 2, 1, 1, 2),
        lesson(1, "Monday", 3, 2, 1, 1),
    ];
    assert!(check_plannable(&s, &d));
    assert!(!optimize_classroom_usage(&mut s, &d));
    assert_eq!(s[2].classroom_id, 1);
}

#[test]
fn optimizer_runs_until_nothing_changes() {
    let d = domain(
        vec![subject(1, 2, None), subject(2, 1, None), subject(3, 1, None)],
        vec![teacher(1, vec![1]), teacher(2, vec![2]), teacher(3, vec![3])],
        vec![room(1, "A", 30, None), room(2, "A", 30, None)],
    );
    let mut s = vec![
        lesson(1, "Monday", 1, 1, 1, 1),
        lesson(1, "Monday", 2, 1, 1, 1),
        lesson(1, "Monday", 4, 2, 2, 2),
        lesson(1, "Monday", 6, 3, 3, 1),
    ];
    assert!(check_plannable(&s, &d));
    assert!(optimize_schedule(&mut s, &d));
    let slots: Vec<(i16, i16)> = s.iter().map(|a| (a.module_index, a.classroom_id)).collect();
    assert_eq!(slots, vec![(1, 1), (2, 1), (3, 1), (4, 1)]);
    assert!(check_schedule(&s, &d));
}

#[test]
fn validity_checks_find_each_violation() {
    let d = domain(
        vec![subject(1, 2, None), subject(2, 1, Some("lab"))],
        vec![teacher(1, vec![1]), teacher(2, vec![2])],
        vec![room(1, "A", 30, None), room(2, "A", 10, Some("lab"))],
    );
    let good = vec![lesson(1, "Monday", 1, 1, 1, 1), lesson(1, "Monday", 2, 1, 1, 1)];
    assert!(check_schedule(&good, &d));
    assert!(is_paired(&good, 0));
    assert!(is_qualified(&d, 1, 1));
    assert!(!is_qualified(&d, 1, 2));
    assert!(!is_qualified(&d, 7, 1));
    // two lessons of a group in one slot
    let clash = vec![lesson(1, "Monday", 1, 1, 1, 0), lesson(1, "Monday", 1, 2, 2, 0)];
    assert!(!check_schedule(&clash, &d));
    // a teacher who may not teach the subject
    assert!(!check_schedule(&vec![lesson(1, "Monday", 1, 2, 1, 0)], &d));
    // a block that is not contiguous
    let apart = vec![lesson(1, "Monday", 1, 1, 1, 0), lesson(1, "Monday", 3, 1, 1, 0)];
    assert!(!check_schedule(&apart, &d));
    // a single lesson of a subject of two modules
    assert!(!check_schedule(&vec![lesson(1, "Monday", 1, 1, 1, 0)], &d));
    assert!(!is_paired(&vec![lesson(1, "Monday", 1, 1, 1, 0)], 0));
    // more lessons than the subject requires
    let over = vec![
        lesson(1, "Monday", 1, 1, 1, 0),
        lesson(1, "Monday", 2, 1, 1, 0),
        lesson(1, "Tuesday", 1, 1, 1, 0),
        lesson(1, "Tuesday", 2, 1, 1, 0),
    ];
    assert!(!check_schedule(&over, &d));
    // a module outside the day, a day outside the week
    assert!(!check_schedule(&vec![lesson(1, "Monday", 10, 2, 2, 0)], &d));
    assert!(!check_schedule(&vec![lesson(1, "Sunday", 1, 2, 2, 0)], &d));
    // a room that is too small, a room of the wrong type, an unknown room
    assert!(!check_schedule(&vec![lesson(1, "Monday", 1, 2, 2, 2)], &d));
    assert!(!check_schedule(&vec![lesson(1, "Monday", 1, 2, 2, 1)], &d));
    assert!(!check_schedule(&vec![lesson(1, "Monday", 1, 2, 2, 9)], &d));
    assert!(check_schedule(&vec![lesson(1, "Monday", 1, 2, 2, 0)], &d));
}

#[test]
fn room_scores_add_their_terms() {
    let d = domain(
        vec![subject(1, 2, Some("lab")), subject(2, 1, None)],
        vec![teacher(1, vec![1, 2])],
        vec![
            room(1, "A", 30, Some("science lab")),
            room(2, "A", 25, None),
            room(3, "B", 20, Some("lab")),
        ],
    );
    let s = vec![
        lesson(1, "Monday", 1, 2, 1, 2),
        lesson(1, "Monday", 2, 1, 1, 0),
        lesson(1, "Monday", 3, 1, 1, 0),
    ];
    // lesson 1 follows a lesson in building A, room 2 is in use that day
    assert_eq!(room_score(&s, &d, 1, 0, 0, 0), 90 + 100 + 150);
    assert_eq!(room_score(&s, &d, 1, 0, 0, 1), 95 + 200 + 100);
    assert_eq!(room_score(&s, &d, 1, 0, 0, 2), 100 + 150);
    // lesson 2 follows a lesson without room
    assert_eq!(room_score(&s, &d, 2, 0, 0, 0), 90 + 150);
    // the subject needs a lab: room 2 does not suit, room 1 scores highest
    assert_eq!(best_room(&s, &d, 1), Some(0));
    // without a type to match, the room in use that day wins
    assert_eq!(best_room(&s, &d, 0), Some(1));
}

#[test]
fn rooms_are_assigned_in_order_and_never_twice_in_a_slot() {
    let mut d = domain(
        vec![subject(1, 1, None)],
        vec![teacher(1, vec![1]), teacher(2, vec![1])],
        vec![room(1, "A", 30, None), room(2, "A", 30, None)],
    );
    d.groups.push(Group { id: Some(2), group: "B".to_string(), ..group(1) });
    d.group_subjects.push(GroupSubjects { group_id: 2, subject_id: 1 });
    let mut s = vec![lesson(1, "Monday", 1, 1, 1, 0), lesson(2, "Monday", 1, 1, 2, 0)];
    assert!(check_plannable(&s, &d));
    assert_eq!(assign_classrooms(&mut s, &d), Ok(()));
    assert_eq!(s[0].classroom_id, 1);
    assert_eq!(s[1].classroom_id, 2);
    set_room(&mut s, 1, 0);
    assert_eq!(s[1].classroom_id, 0);
    assert!(check_schedule(&s, &d));
}

#[test]
fn rooms_follow_their_availability() {
    let mut d = domain(
        vec![subject(1, 1, None)],
        vec![teacher(1, vec![1])],
        vec![room(1, "A", 30, None), room(2, "A", 30, None)],
    );
    d.classrooms[0].availability = Some(vec![("Tuesday".to_string(), 1), ("Monday".to_string(), 2)]);
    let mut s = vec![lesson(1, "Monday", 1, 1, 1, 0)];
    assert_eq!(assign_classrooms(&mut s, &d), Ok(()));
    assert_eq!(s[0].classroom_id, 2);
    d.classrooms[1].availability = Some(vec![]);
    let mut s = vec![lesson(1, "Monday", 1, 1, 1, 0)];
    assert!(assign_classrooms(&mut s, &d).is_err());
    d.classrooms[0].availability = Some(vec![("Monday".to_string(), 1)]);
    let mut s = vec![lesson(1, "Monday", 1, 1, 1, 0)];
    assert_eq!(assign_classrooms(&mut s, &d), Ok(()));
    assert_eq!(s[0].classroom_id, 1);
}
