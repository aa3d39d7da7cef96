use school_roster::file_format::{
    check_file, checksum_from, frame_file, simple_checksum, ScheduleFileError,
    ScheduleFileHeader,
};
use school_roster::model::{Classroom, Group, SubjectWithTeacher};
use school_roster::ordering::{
    label_less, order_by_keys, sort_groups_by_priority, sort_subjects_by_priority, SortKey,
};
use school_roster::planner::{get_optimal_module_splits, get_sorted_days};
use school_roster::records::{
    availability_or_empty, availability_record, classroom_from_record, written_or_error,
    RecordError,
};
use school_roster::settings::Config;

#[test]
fn splits_follow_the_block_plan() {
    assert_eq!(get_optimal_module_splits(-3), Vec::<i16>::new());
    assert_eq!(get_optimal_module_splits(0), Vec::<i16>::new());
    assert_eq!(get_optimal_module_splits(1), vec![1]);
    assert_eq!(get_optimal_module_splits(2), vec![2]);
    assert_eq!(get_optimal_module_splits(3), vec![2, 1]);
    assert_eq!(get_optimal_module_splits(4), vec![2, 2]);
    assert_eq!(get_optimal_module_splits(5), vec![2, 2, 1]);
    assert_eq!(get_optimal_module_splits(8), vec![2, 2, 2, 2]);
    for r in 0..60 {
        let blocks = get_optimal_module_splits(r);
        assert_eq!(blocks.iter().sum::<i16>(), r);
        assert!(blocks.iter().all(|b| *b == 1 || *b == 2));
    }
}

#[test]
fn default_week_is_monday_to_friday() {
    assert_eq!(get_sorted_days(), vec!["Monday", "Tuesday", "Wednesday", "Thursday", "Friday"]);
    let c = Config::default();
    assert_eq!(c.days, get_sorted_days());
    assert_eq!(c.modules_per_day, 9);
    assert_eq!(c.module_duration, 50);
    assert_eq!(c.duration_unit, "minutes");
    assert!(!c.has_breaks);
    assert_eq!(c.break_count, 1);
    assert_eq!(c.break_duration, 30);
    assert_eq!(c.break_positions, vec![2]);
    assert_eq!(c.planning_modules(), Some(9));
    let mut none = Config::default();
    none.modules_per_day = 0;
    assert_eq!(none.planning_modules(), None);
    none.modules_per_day = 1001;
    assert_eq!(none.planning_modules(), None);
    none.modules_per_day = 1000;
    assert_eq!(none.planning_modules(), Some(1000));
}

#[test]
fn checksum_is_the_wrapping_sum_of_the_bytes() {
    assert_eq!(simple_checksum(&vec![]), 0);
    assert_eq!(simple_checksum(&vec![1, 2, 3]), 6);
    assert_eq!(simple_checksum(&vec![255, 255]), 510);
    assert_eq!(checksum_from(&vec![9, 9, 1, 2], 2), 3);
    assert_eq!(checksum_from(&vec![9, 9], 2), 0);
    let many = vec![255u8; 16_843_010];
    assert_eq!(simple_checksum(&many), 254);
}

#[test]
fn framed_file_has_the_documented_layout() {
    let payload = vec![1u8, 2, 3, 4, 5, 6];
    let bytes = frame_file(1, &payload);
    assert_eq!(
        bytes,
        vec![83, 67, 72, 65, 1, 0, 1, 0, 0, 0, 0, 0, 0, 0, 21, 0, 0, 0, 1, 2, 3, 4, 5, 6]
    );
    let stamped = frame_file(0x0102_0304_0506_0708, &payload);
    assert_eq!(&stamped[6..14], &[8, 7, 6, 5, 4, 3, 2, 1]);
    let before_epoch = frame_file(-2, &payload);
    assert_eq!(&before_epoch[6..14], &[254, 255, 255, 255, 255, 255, 255, 255]);
}

#[test]
fn header_matches_the_binary_encoding_of_its_fields() {
    let payload = vec![7u8; 300];
    for created_at in [0i64, 1, -1, 1_700_000_000, i64::MAX, i64::MIN] {
        let bytes = frame_file(created_at, &payload);
        let expected =
            bincode::serialize(&(*b"SCHA", 1u16, created_at, simple_checksum(&payload))).unwrap();
        assert_eq!(expected.len(), 18);
        assert_eq!(&bytes[..18], &expected[..]);
        assert_eq!(&bytes[18..], &payload[..]);
    }
}

#[test]
fn framed_file_reads_back() {
    let payload = vec![10u8, 20, 30, 40, 50, 60, 70];
    for created_at in [0i64, 1, -1, 1_700_000_000, i64::MAX, i64::MIN] {
        let bytes = frame_file(created_at, &payload);
        assert_eq!(
            check_file(&bytes),
            Ok(ScheduleFileHeader { magic: *b"SCHA", version: 1, created_at, checksum: 280 })
        );
    }
}

#[test]
fn damaged_files_are_refused() {
    let payload = vec![10u8, 20, 30, 40, 50, 60, 70];
    let good = frame_file(5, &payload);
    assert!(check_file(&good).is_ok());

    assert_eq!(check_file(&vec![]), Err(ScheduleFileError::InvalidFormat));
    assert_eq!(check_file(&good[..23].to_vec()), Err(ScheduleFileError::InvalidFormat));
    // five bytes of payload make a file that is too short to be read
    let short = frame_file(5, &vec![1, 2, 3, 4, 5]);
    assert_eq!(short.len(), 23);
    assert_eq!(check_file(&short), Err(ScheduleFileError::InvalidFormat));

    let mut magic = good.clone();
    magic[3] = 66;
    assert_eq!(check_file(&magic), Err(ScheduleFileError::InvalidFormat));

    let mut newer = good.clone();
    newer[4] = 2;
    assert_eq!(check_file(&newer), Err(ScheduleFileError::UnsuportedVersion(2)));
    newer[4] = 0;
    newer[5] = 1;
    assert_eq!(check_file(&newer), Err(ScheduleFileError::UnsuportedVersion(256)));

    let mut older = good.clone();
    older[4] = 0;
    assert_eq!(check_file(&older).map(|h| h.version), Ok(0));

    let mut payload_changed = good.clone();
    payload_changed[20] = 31;
    assert_eq!(check_file(&payload_changed), Err(ScheduleFileError::InvalidFormat));

    let mut sum_changed = good.clone();
    sum_changed[14] = sum_changed[14].wrapping_add(1);
    assert_eq!(check_file(&sum_changed), Err(ScheduleFileError::InvalidFormat));
}

fn key(major: i32, minor: i32, label: &str) -> SortKey {
    SortKey { major, minor, label: label.to_string() }
}

#[test]
fn labels_are_ordered_by_their_characters() {
    assert!(label_less("A", "B"));
    assert!(!label_less("B", "A"));
    assert!(!label_less("A", "A"));
    assert!(label_less("", "A"));
    assert!(!label_less("A", ""));
    assert!(!label_less("", ""));
    assert!(label_less("A", "AA"));
    assert!(label_less("AB", "B"));
    assert!(label_less("B", "a"));
    assert!(label_less("z", "é"));
    for (a, b) in [("A", "B"), ("Ab", "AB"), ("10", "9"), ("é", "z"), ("", "x")] {
        assert_eq!(label_less(a, b), a < b);
        assert_eq!(label_less(b, a), b < a);
    }
}

#[test]
fn keys_order_items_and_keep_equal_ones_in_place() {
    let keys = vec![key(2, 0, "b"), key(1, 5, "z"), key(2, 0, "a"), key(1, 5, "z"), key(1, 4, "zz")];
    assert_eq!(order_by_keys(&keys), vec![4, 1, 3, 2, 0]);
    assert_eq!(order_by_keys(&vec![]), Vec::<usize>::new());
}

fn subject(id: i16, priority: Option<i16>, required: Option<i16>) -> SubjectWithTeacher {
    SubjectWithTeacher {
        id,
        name: format!("Subject {}", id),
        shorten: format!("S{}", id),
        color: String::new(),
        spec: None,
        required_modules: required,
        priority,
        assigned_teacher: None,
    }
}

#[test]
fn subjects_go_by_priority_then_size() {
    let subjects = vec![
        subject(1, None, Some(2)),
        subject(2, Some(1), Some(1)),
        subject(3, None, Some(5)),
        subject(4, Some(1), Some(4)),
        subject(5, None, None),
        subject(6, Some(-1), Some(9)),
    ];
    assert_eq!(sort_subjects_by_priority(&subjects), vec![3, 1, 2, 0, 4, 5]);
}

fn group(id: i16, grade: i16, label: &str) -> Group {
    Group {
        id: Some(id),
        grade,
        group: label.to_string(),
        career: None,
        students: None,
        max_modules_per_day: None,
    }
}

#[test]
fn groups_go_by_grade_then_label() {
    let groups =
        vec![group(1, 2, "A"), group(2, 1, "B"), group(3, 1, "A"), group(4, 2, "A"), group(5, 1, "AB")];
    assert_eq!(sort_groups_by_priority(&groups), vec![2, 4, 1, 0, 3]);
}

#[test]
fn classroom_records_carry_the_availability_as_json() {
    let c = classroom_from_record(
        Some(3),
        Some("A".to_string()),
        303,
        Some("lab".to_string()),
        Some(30),
        "[[\"Monday\",1],[\"Tuesday\",4]]",
    );
    assert_eq!(
        c,
        Classroom {
            id: Some(3),
            building_id: Some("A".to_string()),
            building_number: 303,
            building_type: Some("lab".to_string()),
            capacity: Some(30),
            availability: Some(vec![("Monday".to_string(), 1), ("Tuesday".to_string(), 4)]),
        }
    );
    assert_eq!(availability_record(&c), Ok("[[\"Monday\",1],[\"Tuesday\",4]]".to_string()));

    let unreadable = classroom_from_record(None, None, 1, None, None, "not json");
    assert_eq!(unreadable.availability, Some(vec![]));
    let null = classroom_from_record(None, None, 1, None, None, "null");
    assert_eq!(null.availability, Some(vec![]));
    let too_big = classroom_from_record(None, None, 1, None, None, "[[\"Monday\",40000]]");
    assert_eq!(too_big.availability, Some(vec![]));

    let mut open = c.clone();
    open.availability = None;
    assert_eq!(availability_record(&open), Ok("null".to_string()));
    open.availability = Some(vec![]);
    assert_eq!(availability_record(&open), Ok("[]".to_string()));

    assert_eq!(availability_or_empty(serde_json::from_str("[[\"Friday\",9]]")), vec![("Friday".to_string(), 9)]);
    assert_eq!(availability_or_empty(serde_json::from_str("{}")), vec![]);
}

#[test]
fn a_mask_that_was_not_written_is_an_error_of_the_record() {
    assert_eq!(written_or_error(Ok("[]".to_string())), Ok("[]".to_string()));
    let failure = serde_json::from_str::<Vec<(String, i16)>>("{").unwrap_err();
    assert_eq!(written_or_error(Err(failure)), Err(RecordError::Availability));
}
