//! The constraint evaluator: the hard constraints that a proposed block must
//! meet before the planner may place it.

use crate::availability::{
    by_teacher, count_matching, count_of, free_block, in_group_day, in_use, is_teacher_available,
    of_group_subject_day, range_in_use, Resource,
};
use crate::model::{group_cap, teacher_cap, Assignment, Group, Placement, Subject, Teacher, timetable};
use vstd::prelude::*;

verus! {

/// Placing the block leaves no free module between it and the nearest
/// lesson that the teacher already has on the day, on either side.
pub open spec fn leaves_no_gap(
    s: Seq<Placement>,
    teacher_id: i16,
    day: Seq<char>,
    start: int,
    size: int,
) -> bool {
    &&& in_use(s, Resource::Teacher, teacher_id, day, i16::MIN as int, start) ==> in_use(
        s,
        Resource::Teacher,
        teacher_id,
        day,
        start - 1,
        start,
    )
    &&& in_use(s, Resource::Teacher, teacher_id, day, start + size, i16::MAX + 1) ==> in_use(
        s,
        Resource::Teacher,
        teacher_id,
        day,
        start + size,
        start + size + 1,
    )
}

/// The hard constraints on placing `size` modules of a subject for a group
/// on `day` from module `start`, taught by `teacher`:
/// the group's daily cap, one block of a subject per day, the teacher free
/// for the whole block, the teacher's weekly cap, and no gap in the
/// teacher's day.
pub open spec fn placement_allowed(
    s: Seq<Placement>,
    group: Group,
    day: Seq<char>,
    start: int,
    size: int,
    subject_id: i16,
    teacher: Teacher,
) -> bool {
    let g = group.id.unwrap();
    let t = teacher.id.unwrap();
    &&& count_of(s, in_group_day(g, day)) + size <= group_cap(group)
    &&& count_of(s, of_group_subject_day(g, subject_id, day)) == 0
    &&& free_block(s, Resource::Teacher, t, day, start, size)
    &&& count_of(s, by_teacher(t)) + size <= teacher_cap(teacher)
    &&& leaves_no_gap(s, t, day, start, size)
}

/// Whether `count + size <= cap`.
pub fn fits_cap(count: usize, size: i16, cap: i16) -> (r: bool)
    ensures
        r == (count + size <= cap),
{
    if count > 65535 {
        false
    } else {
        (count as i64) + (size as i64) <= (cap as i64)
    }
}

/// Evaluates the hard constraints for a subject given by its identifier.
pub fn placement_permitted(
    schedule: &Vec<Assignment>,
    group: &Group,
    day: &str,
    start: i16,
    subject_id: i16,
    teacher: &Teacher,
    size: i16,
) -> (r: bool)
    requires
        group.id is Some,
        teacher.id is Some,
    ensures
        r == placement_allowed(
            timetable(schedule@),
            *group,
            day@,
            start as int,
            size as int,
            subject_id,
            *teacher,
        ),
{
    let g = group.id.unwrap();
    let t = teacher.id.unwrap();
    let on_day = count_matching(schedule, Some(g), None, None, Some(day), None);
    if !fits_cap(on_day, size, group.daily_cap()) {
        return false;
    }
    let same_subject = count_matching(schedule, Some(g), None, Some(subject_id), Some(day), None);
    if same_subject != 0 {
        return false;
    }
    if !is_teacher_available(schedule, t, day, start, size) {
        return false;
    }
    let load = count_matching(schedule, None, Some(t), None, None, None);
    if !fits_cap(load, size, teacher.load_cap()) {
        return false;
    }
    let first = start as i32;
    let after = start as i32 + size as i32;
    if range_in_use(schedule, Resource::Teacher, t, day, i16::MIN as i32, first) && !range_in_use(
        schedule,
        Resource::Teacher,
        t,
        day,
        first - 1,
        first,
    ) {
        return false;
    }
    if range_in_use(schedule, Resource::Teacher, t, day, after, i16::MAX as i32 + 1)
        && !range_in_use(schedule, Resource::Teacher, t, day, after, after + 1) {
        return false;
    }
    true
}

/// Whether a block of `proposed_modules_count` modules of `subject` may be
/// placed for `group` on `day` from `module_index`, taught by `teacher`.
pub fn constraints_satisfied(
    schedule: &Vec<Assignment>,
    group: &Group,
    day: &str,
    module_index: i16,
    subject: &Subject,
    teacher: &Teacher,
    proposed_modules_count: i16,
) -> (r: bool)
    requires
        group.id is Some,
        teacher.id is Some,
    ensures
        r == placement_allowed(
            timetable(schedule@),
            *group,
            day@,
            module_index as int,
            proposed_modules_count as int,
            subject.id,
            *teacher,
        ),
{
    placement_permitted(
        schedule,
        group,
        day,
        module_index,
        subject.id,
        teacher,
        proposed_modules_count,
    )
}

} // verus!
