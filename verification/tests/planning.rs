use school_roster::generate::{generate_schedule, PlanningOutcome};
use school_roster::model::{
    Assignment, Classroom, Domain, Group, GroupSubjects, PlanningError, SubjectWithTeacher,
    Teacher,
};
use school_roster::validate::{check_domain, check_schedule};

fn week() -> Vec<String> {
    vec!["Monday", "Tuesday", "Wednesday", "Thursday", "Friday"]
        .into_iter()
        .map(|d| d.to_string())
        .collect()
}

fn subject(id: i16, name: &str, required: Option<i16>, spec: Option<&str>) -> SubjectWithTeacher {
    SubjectWithTeacher {
        id,
        name: name.to_string(),
        shorten: name.chars().take(3).collect(),
        color: "#336699".to_string(),
        spec: spec.map(|s| s.to_string()),
        required_modules: required,
        priority: None,
        assigned_teacher: None,
    }
}

fn teacher(id: i16, subjects: Vec<i16>, cap: Option<i16>) -> Teacher {
    Teacher {
        id: Some(id),
        name: format!("Teacher {}", id),
        father_lastname: "Doe".to_string(),
        subjects,
        preferred_days: None,
        preferred_modules: None,
        commissioned_hours: cap,
    }
}

fn group(id: i16, students: Option<i16>, cap: Option<i16>) -> Group {
    Group {
        id: Some(id),
        grade: 1,
        group: "A".to_string(),
        career: None,
        students,
        max_modules_per_day: cap,
    }
}

fn room(id: i16, capacity: Option<i16>, kind: Option<&str>) -> Classroom {
    Classroom {
        id: Some(id),
        building_id: Some("B".to_string()),
        building_number: 100 + id,
        building_type: kind.map(|k| k.to_string()),
        capacity,
        availability: None,
    }
}

fn requirement(group_id: i16, subject_id: i16) -> GroupSubjects {
    GroupSubjects { group_id, subject_id }
}

fn minimal_domain() -> Domain {
    Domain {
        days: week(),
        modules_per_day: 9,
        subjects: vec![subject(1, "Mathematics", Some(2), None)],
        teachers: vec![teacher(1, vec![1], Some(40))],
        groups: vec![group(1, Some(20), None)],
        group_subjects: vec![requirement(1, 1)],
        classrooms: vec![room(1, Some(30), None)],
    }
}

fn plan(d: &Domain) -> PlanningOutcome {
    match generate_schedule(d) {
        Ok(out) => out,
        Err(e) => panic!("planning failed: {:?}", e),
    }
}

fn count(assignments: &[Assignment], group_id: i16, day: &str) -> usize {
    assignments.iter().filter(|a| a.group_id == group_id && a.day == day).count()
}

#[test]
fn minimal_schedule_is_two_modules_on_monday() {
    let d = minimal_domain();
    let out = plan(&d);
    assert_eq!(out.assignments.len(), 2);
    assert!(out.unplaced.is_empty());
    for (k, a) in out.assignments.iter().enumerate() {
        assert_eq!(a.day, "Monday");
        assert_eq!(a.module_index, (k + 1) as i16);
        assert_eq!(a.group_id, 1);
        assert_eq!(a.subject_id, 1);
        assert_eq!(a.teacher_id, 1);
        assert_eq!(a.classroom_id, 1);
        assert_eq!(a.id, None);
        assert_eq!(a.subject_name, "Mathematics");
        assert_eq!(a.subject_shorten, "Mat");
        assert_eq!(a.subject_color, "#336699");
    }
    assert!(out.settled);
    assert!(check_schedule(&out.assignments, &d));
}

#[test]
fn three_modules_split_into_two_blocks_on_different_days() {
    let mut d = minimal_domain();
    d.subjects = vec![subject(1, "Mathematics", Some(3), None)];
    let out = plan(&d);
    assert_eq!(out.assignments.len(), 3);
    let monday: Vec<i16> =
        out.assignments.iter().filter(|a| a.day == "Monday").map(|a| a.module_index).collect();
    let tuesday: Vec<i16> =
        out.assignments.iter().filter(|a| a.day == "Tuesday").map(|a| a.module_index).collect();
    assert_eq!(monday, vec![1, 2]);
    assert_eq!(tuesday, vec![1]);
    assert!(out.assignments.iter().all(|a| a.teacher_id == 1));
    assert!(check_schedule(&out.assignments, &d));
}

#[test]
fn group_daily_cap_spreads_ten_modules_over_three_days() {
    let mut d = minimal_domain();
    d.groups = vec![group(1, Some(20), Some(4))];
    d.subjects = (1..=5).map(|k| subject(k, &format!("Subject {}", k), Some(2), None)).collect();
    d.teachers = vec![teacher(1, vec![1, 2, 3, 4, 5], Some(40))];
    d.group_subjects = (1..=5).map(|k| requirement(1, k)).collect();
    let out = plan(&d);
    assert_eq!(out.assignments.len(), 10);
    assert!(out.unplaced.is_empty());
    let mut used_days = 0;
    for day in week() {
        let n = count(&out.assignments, 1, &day);
        assert!(n <= 4);
        if n > 0 {
            used_days += 1;
        }
    }
    assert!(used_days >= 3);
    assert_eq!(count(&out.assignments, 1, "Monday"), 4);
    assert_eq!(count(&out.assignments, 1, "Tuesday"), 4);
    assert_eq!(count(&out.assignments, 1, "Wednesday"), 2);
    assert!(check_schedule(&out.assignments, &d));
}

#[test]
fn specialized_subject_gets_the_specialized_room() {
    let mut d = minimal_domain();
    d.subjects = vec![subject(1, "Physics Lab", Some(2), Some("lab"))];
    d.classrooms = vec![room(1, Some(30), Some("regular")), room(2, Some(30), Some("lab"))];
    let out = plan(&d);
    assert_eq!(out.assignments.len(), 2);
    assert!(out.assignments.iter().all(|a| a.classroom_id == 2));
}

#[test]
fn teacher_load_cap_is_never_exceeded() {
    let mut d = minimal_domain();
    d.subjects =
        vec![subject(1, "Mathematics", Some(25), None), subject(2, "Spanish", Some(20), None)];
    d.teachers = vec![teacher(1, vec![1, 2], Some(40))];
    d.group_subjects = vec![requirement(1, 1), requirement(1, 2)];
    match generate_schedule(&d) {
        Err(PlanningError::NoFeasibleSlot { group_id, subject_id }) => {
            assert_eq!(group_id, 1);
            assert_eq!(subject_id, 1);
        }
        Err(PlanningError::NoQualifiedTeacher { .. }) => {}
        other => panic!("expected an infeasibility error, got {:?}", other.map(|o| o.assignments)),
    }
}

#[test]
fn critical_subject_over_the_teacher_cap_is_no_feasible_slot() {
    let mut d = minimal_domain();
    d.subjects = vec![subject(1, "Mathematics", Some(3), None)];
    d.teachers = vec![teacher(1, vec![1], Some(2))];
    assert_eq!(
        generate_schedule(&d).map(|o| o.assignments),
        Err(PlanningError::NoFeasibleSlot { group_id: 1, subject_id: 1 })
    );
}

#[test]
fn subject_without_teacher_is_no_qualified_teacher() {
    let mut d = minimal_domain();
    d.teachers = vec![teacher(1, vec![7], Some(40))];
    assert_eq!(
        generate_schedule(&d).map(|o| o.assignments),
        Err(PlanningError::NoQualifiedTeacher { subject_id: 1 })
    );
}

#[test]
fn lesson_without_room_is_no_suitable_classroom() {
    let mut d = minimal_domain();
    d.groups = vec![group(1, Some(40), None)];
    assert_eq!(
        generate_schedule(&d).map(|o| o.assignments),
        Err(PlanningError::NoSuitableClassroom {
            group_id: 1,
            subject_id: 1,
            day: "Monday".to_string(),
            module: 1,
        })
    );
}

#[test]
fn inconsistent_domains_are_refused() {
    let mut twice = minimal_domain();
    twice.groups = vec![group(1, Some(20), None), group(1, Some(25), None)];
    assert!(!check_domain(&twice));
    assert!(matches!(
        generate_schedule(&twice).map(|o| o.assignments),
        Err(PlanningError::DomainInconsistent { .. })
    ));

    let mut no_modules = minimal_domain();
    no_modules.modules_per_day = 0;
    assert!(!check_domain(&no_modules));

    let mut room_zero = minimal_domain();
    room_zero.classrooms = vec![room(0, Some(30), None)];
    assert!(!check_domain(&room_zero));

    let mut unnamed = minimal_domain();
    unnamed.teachers[0].id = None;
    assert!(!check_domain(&unnamed));

    let mut nothing_required = minimal_domain();
    nothing_required.subjects = vec![subject(1, "Mathematics", Some(0), None)];
    assert!(!check_domain(&nothing_required));

    let mut unknown_subject = minimal_domain();
    unknown_subject.group_subjects = vec![requirement(1, 9)];
    assert!(!check_domain(&unknown_subject));

    let mut negative_cap = minimal_domain();
    negative_cap.groups = vec![group(1, Some(20), Some(-1))];
    assert!(!check_domain(&negative_cap));

    assert!(check_domain(&minimal_domain()));
}

#[test]
fn small_subject_that_cannot_be_placed_is_reported_not_fatal() {
    let mut d = minimal_domain();
    d.teachers = vec![teacher(1, vec![1], Some(1))];
    let out = plan(&d);
    assert!(out.assignments.is_empty());
    assert_eq!(out.unplaced, vec![(1, 1)]);
}

#[test]
fn default_requirement_is_two_modules() {
    let mut d = minimal_domain();
    d.subjects = vec![subject(1, "Mathematics", None, None)];
    let out = plan(&d);
    assert_eq!(out.assignments.len(), 2);
}

#[test]
fn critical_subjects_reserve_before_small_ones() {
    let mut d = minimal_domain();
    d.subjects = vec![subject(1, "Art", Some(2), None), subject(2, "Mathematics", Some(4), None)];
    d.teachers = vec![teacher(1, vec![1], None), teacher(2, vec![2], None)];
    d.group_subjects = vec![requirement(1, 1), requirement(1, 2)];
    let out = plan(&d);
    assert_eq!(out.assignments.len(), 6);
    // the critical subject took Monday's first block and Tuesday's
    let first = &out.assignments[0];
    assert_eq!((first.subject_id, first.day.as_str(), first.module_index), (2, "Monday", 1));
    let math_tuesday = out
        .assignments
        .iter()
        .filter(|a| a.subject_id == 2 && a.day == "Tuesday")
        .count();
    assert_eq!(math_tuesday, 2);
    let art: Vec<(String, i16)> = out
        .assignments
        .iter()
        .filter(|a| a.subject_id == 1)
        .map(|a| (a.day.clone(), a.module_index))
        .collect();
    assert_eq!(art, vec![("Monday".to_string(), 3), ("Monday".to_string(), 4)]);
    assert!(check_schedule(&out.assignments, &d));
}

#[test]
fn two_groups_share_one_teacher_without_clashes() {
    let mut d = minimal_domain();
    d.groups = vec![group(1, Some(20), None), group(2, Some(20), None)];
    d.groups[1].group = "B".to_string();
    d.group_subjects = vec![requirement(1, 1), requirement(2, 1)];
    d.classrooms = vec![room(1, Some(30), None), room(2, Some(30), None)];
    let out = plan(&d);
    assert_eq!(out.assignments.len(), 4);
    for a in &out.assignments {
        for b in &out.assignments {
            if !std::ptr::eq(a, b) && a.day == b.day && a.module_index == b.module_index {
                assert_ne!(a.teacher_id, b.teacher_id);
                assert_ne!(a.group_id, b.group_id);
                assert_ne!(a.classroom_id, b.classroom_id);
            }
        }
    }
    assert!(check_schedule(&out.assignments, &d));
}

#[test]
fn planning_twice_gives_the_same_schedule() {
    let mut d = minimal_domain();
    d.subjects = vec![
        subject(1, "Mathematics", Some(5), None),
        subject(2, "Art", Some(1), None),
        subject(3, "Music", Some(2), None),
    ];
    d.teachers = vec![teacher(1, vec![1, 2], None), teacher(2, vec![2, 3], None)];
    d.group_subjects = vec![requirement(1, 1), requirement(1, 2), requirement(1, 3)];
    let a = plan(&d);
    let b = plan(&d);
    assert_eq!(a.assignments, b.assignments);
    assert_eq!(a.unplaced, b.unplaced);
    assert_eq!(a.assignments.len(), 8);
    assert!(check_schedule(&a.assignments, &d));
}

#[test]
fn a_school_of_six_groups_is_planned_validly() {
    let subjects: Vec<SubjectWithTeacher> = vec![
        subject(1, "Mathematics", Some(5), None),
        subject(2, "Spanish", Some(4), None),
        subject(3, "Science", Some(3), Some("lab")),
        subject(4, "History", Some(2), None),
        subject(5, "Art", Some(2), None),
        subject(6, "Sports", Some(1), None),
    ];
    let teachers: Vec<Teacher> = vec![
        teacher(1, vec![1, 2], Some(40)),
        teacher(2, vec![1, 4], Some(40)),
        teacher(3, vec![2, 5], Some(40)),
        teacher(4, vec![3], Some(40)),
        teacher(5, vec![4, 5, 6], Some(40)),
        teacher(6, vec![3, 6], Some(40)),
    ];
    let mut groups = Vec::new();
    let mut group_subjects = Vec::new();
    for g in 1..=6i16 {
        let mut one = group(g, Some(20 + g), None);
        one.grade = 1 + (g - 1) / 2;
        one.group = if g % 2 == 1 { "A".to_string() } else { "B".to_string() };
        groups.push(one);
        for s in 1..=6i16 {
            group_subjects.push(requirement(g, s));
        }
    }
    let mut classrooms: Vec<Classroom> = (1..=6).map(|r| room(r, Some(30), None)).collect();
    classrooms.push(room(7, Some(30), Some("science lab")));
    classrooms.push(room(8, Some(30), Some("lab")));
    let d = Domain {
        days: week(),
        modules_per_day: 9,
        subjects,
        teachers,
        groups,
        group_subjects,
        classrooms,
    };
    let out = plan(&d);
    assert!(check_schedule(&out.assignments, &d));
    for g in 1..=6i16 {
        for (s, required) in [(1i16, 5usize), (2, 4), (3, 3), (4, 2), (5, 2), (6, 1)] {
            let n = out
                .assignments
                .iter()
                .filter(|a| a.group_id == g && a.subject_id == s)
                .count();
            assert!(n == required || out.unplaced.contains(&(g, s)));
            assert!(n == required || n == 0);
        }
        for day in week() {
            assert!(count(&out.assignments, g, &day) <= 4);
        }
    }
    for a in &out.assignments {
        assert_ne!(a.classroom_id, 0);
        if a.subject_id == 3 {
            assert!(a.classroom_id == 7 || a.classroom_id == 8);
        }
    }
    println!("{} lessons, {} pairs unplaced", out.assignments.len(), out.unplaced.len());
}
