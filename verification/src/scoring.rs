//! The scoring engine for teachers: the soft preferences that rank the
//! teachers who pass the hard constraints, and the choice of the best one.

use crate::availability::{
    busy_at, by_teacher, count_matching, count_of, range_in_use, used_on_day, Resource,
};
use crate::constraints::{placement_allowed, placement_permitted};
use crate::model::{teacher_cap, Assignment, Group, Placement, SubjectWithTeacher, Teacher, timetable};
use crate::text::same_text;
use vstd::prelude::*;

verus! {

/// Points for a block on a day the teacher prefers.
pub const PREFERRED_DAY_POINTS: i128 = 10;

/// Points for each module of the block that the teacher prefers.
pub const PREFERRED_MODULE_POINTS: i128 = 5;

/// Points for a block next to a lesson the teacher already has that day.
pub const ADJACENT_POINTS: i128 = 20;

/// Points for a block on a day the teacher already teaches, not next to a
/// lesson.
pub const SAME_DAY_POINTS: i128 = 5;

/// `day` is among the teacher's preferred days.
pub open spec fn prefers_day(t: Teacher, day: Seq<char>) -> bool {
    t.preferred_days matches Some(v) && exists|k: int|
        0 <= k < v@.len() && (#[trigger] v@[k])@ == day
}

/// Module `m` is among the teacher's preferred modules.
pub open spec fn prefers_module(t: Teacher, m: int) -> bool {
    t.preferred_modules matches Some(v) && exists|k: int|
        0 <= k < v@.len() && #[trigger] v@[k] == m
}

/// How many modules of `start .. start + size` the teacher prefers.
pub open spec fn preferred_hits(t: Teacher, start: int, size: int) -> int
    decreases size,
{
    if size <= 0 {
        0
    } else {
        preferred_hits(t, start, size - 1) + if prefers_module(t, start + size - 1) {
            1int
        } else {
            0int
        }
    }
}

/// The block touches a lesson that the teacher already has on the day.
pub open spec fn adjacent_to_lessons(
    s: Seq<Placement>,
    teacher_id: i16,
    day: Seq<char>,
    start: int,
    size: int,
) -> bool {
    busy_at(s, Resource::Teacher, teacher_id, day, start - 1) || busy_at(
        s,
        Resource::Teacher,
        teacher_id,
        day,
        start + size,
    )
}

/// Half of `x`, rounded toward zero.
pub open spec fn half_toward_zero(x: int) -> int {
    if x >= 0 {
        x / 2
    } else {
        -((-x) / 2)
    }
}

/// The score of a teacher for a block: preferred day, preferred modules,
/// continuity with the lessons of the day, and the free share of the
/// weekly cap.
pub open spec fn score_of_teacher(
    s: Seq<Placement>,
    t: Teacher,
    day: Seq<char>,
    start: int,
    size: int,
) -> int {
    let id = t.id.unwrap();
    (if prefers_day(t, day) {
        10int
    } else {
        0int
    }) + 5 * preferred_hits(t, start, size) + (if used_on_day(s, Resource::Teacher, id, day) {
        if adjacent_to_lessons(s, id, day, start, size) {
            20int
        } else {
            5int
        }
    } else {
        0int
    }) + half_toward_zero(teacher_cap(t) - count_of(s, by_teacher(id)))
}

/// A teacher who may take the block: identified, passing the hard
/// constraints and, where asked, qualified for the subject.
pub open spec fn eligible(
    s: Seq<Placement>,
    group: Group,
    subject_id: i16,
    day: Seq<char>,
    start: int,
    size: int,
    t: Teacher,
    qualified_only: bool,
) -> bool {
    &&& t.id is Some
    &&& qualified_only ==> t.subjects@.contains(subject_id)
    &&& placement_allowed(s, group, day, start, size, subject_id, t)
}

/// `a` is ranked no later than `b`: a higher score first, and of two equal
/// scores the lower identifier.
pub open spec fn ranks_before(
    s: Seq<Placement>,
    day: Seq<char>,
    start: int,
    size: int,
    a: Teacher,
    b: Teacher,
) -> bool {
    let sa = score_of_teacher(s, a, day, start, size);
    let sb = score_of_teacher(s, b, day, start, size);
    sa > sb || (sa == sb && a.id.unwrap() <= b.id.unwrap())
}

/// Teacher `k` of the list is eligible and ranked before every other
/// eligible teacher.
pub open spec fn is_best_teacher(
    s: Seq<Placement>,
    group: Group,
    subject_id: i16,
    day: Seq<char>,
    start: int,
    size: int,
    teachers: Seq<Teacher>,
    qualified_only: bool,
    k: int,
) -> bool {
    &&& 0 <= k < teachers.len()
    &&& eligible(s, group, subject_id, day, start, size, teachers[k], qualified_only)
    &&& forall|j: int|
        0 <= j < teachers.len() && eligible(
            s,
            group,
            subject_id,
            day,
            start,
            size,
            #[trigger] teachers[j],
            qualified_only,
        ) ==> ranks_before(s, day, start, size, teachers[k], teachers[j])
}

/// No teacher of the list is eligible.
pub open spec fn no_eligible_teacher(
    s: Seq<Placement>,
    group: Group,
    subject_id: i16,
    day: Seq<char>,
    start: int,
    size: int,
    teachers: Seq<Teacher>,
    qualified_only: bool,
) -> bool {
    forall|j: int|
        0 <= j < teachers.len() ==> !eligible(
            s,
            group,
            subject_id,
            day,
            start,
            size,
            #[trigger] teachers[j],
            qualified_only,
        )
}

fn likes_day(t: &Teacher, day: &str) -> (r: bool)
    ensures
        r == prefers_day(*t, day@),
{
    match &t.preferred_days {
        Some(v) => {
            let mut i: usize = 0;
            while i < v.len()
                invariant
                    i <= v.len(),
                    t.preferred_days == Some(*v),
                    forall|k: int| 0 <= k < i ==> (#[trigger] v@[k])@ != day@,
                decreases v.len() - i,
            {
                if same_text(v[i].as_str(), day) {
                    assert(v@[i as int]@ == day@);
                    assert(exists|k: int| 0 <= k < v@.len() && (#[trigger] v@[k])@ == day@);
                    assert(t.preferred_days matches Some(w) && w == *v);
                    return true;
                }
                i += 1;
            }
            false
        },
        None => false,
    }
}

fn likes_module(t: &Teacher, m: i32) -> (r: bool)
    ensures
        r == prefers_module(*t, m as int),
{
    match &t.preferred_modules {
        Some(v) => {
            let mut i: usize = 0;
            while i < v.len()
                invariant
                    i <= v.len(),
                    t.preferred_modules == Some(*v),
                    forall|k: int| 0 <= k < i ==> #[trigger] v@[k] != m,
                decreases v.len() - i,
            {
                if v[i] as i32 == m {
                    assert(v@[i as int] == m);
                    assert(exists|k: int| 0 <= k < v@.len() && #[trigger] v@[k] == m);
                    assert(t.preferred_modules matches Some(w) && w == *v);
                    return true;
                }
                i += 1;
            }
            false
        },
        None => false,
    }
}

/// The soft-preference score of `teacher` for the block.
pub fn teacher_score(
    schedule: &Vec<Assignment>,
    teacher: &Teacher,
    day: &str,
    start: i16,
    size: i16,
) -> (r: i128)
    requires
        teacher.id is Some,
    ensures
        r == score_of_teacher(timetable(schedule@), *teacher, day@, start as int, size as int),
{
    let id = teacher.id.unwrap();
    let ghost tt = timetable(schedule@);
    let mut score: i128 = 0;
    if likes_day(teacher, day) {
        score = score + PREFERRED_DAY_POINTS;
    }
    let mut hits: i128 = 0;
    let mut o: i32 = 0;
    while o < size as i32
        invariant
            0 <= o,
            o <= size || o == 0,
            hits == preferred_hits(*teacher, start as int, o as int),
            0 <= hits <= o,
        decreases size - o,
    {
        if likes_module(teacher, start as i32 + o) {
            hits = hits + 1;
        }
        o = o + 1;
    }
    assert(hits == preferred_hits(*teacher, start as int, size as int));
    score = score + PREFERRED_MODULE_POINTS * hits;
    let ghost part = score as int;
    assert(part == (if prefers_day(*teacher, day@) { 10int } else { 0int }) + 5 * preferred_hits(*teacher, start as int, size as int));
    if range_in_use(schedule, Resource::Teacher, id, day, i16::MIN as i32, i16::MAX as i32 + 1) {
        let before = range_in_use(
            schedule,
            Resource::Teacher,
            id,
            day,
            start as i32 - 1,
            start as i32,
        );
        let after = range_in_use(
            schedule,
            Resource::Teacher,
            id,
            day,
            start as i32 + size as i32,
            start as i32 + size as i32 + 1,
        );
        if before || after {
            score = score + ADJACENT_POINTS;
        } else {
            score = score + SAME_DAY_POINTS;
        }
    }
    assert(score - part == (if used_on_day(tt, Resource::Teacher, id, day@) {
        if adjacent_to_lessons(tt, id, day@, start as int, size as int) {
            20int
        } else {
            5int
        }
    } else {
        0int
    }));
    let load = count_matching(schedule, None, Some(id), None, None, None);
    assert(load == count_of(tt, by_teacher(id)));
    let spare: i128 = teacher.load_cap() as i128 - load as i128;
    let half: i128 = if spare >= 0 {
        spare / 2
    } else {
        -((-spare) / 2)
    };
    assert(half == half_toward_zero(teacher_cap(*teacher) - count_of(tt, by_teacher(id))));
    score + half
}

/// The best teacher of `teachers` for the block: the eligible teacher with
/// the highest score, and of several with that score the one with the
/// lowest identifier.
pub fn best_teacher_index(
    schedule: &Vec<Assignment>,
    group: &Group,
    subject_id: i16,
    day: &str,
    start: i16,
    size: i16,
    teachers: &Vec<Teacher>,
    qualified_only: bool,
) -> (r: Option<usize>)
    requires
        group.id is Some,
    ensures
        match r {
            Some(k) => is_best_teacher(
                timetable(schedule@),
                *group,
                subject_id,
                day@,
                start as int,
                size as int,
                teachers@,
                qualified_only,
                k as int,
            ),
            None => no_eligible_teacher(
                timetable(schedule@),
                *group,
                subject_id,
                day@,
                start as int,
                size as int,
                teachers@,
                qualified_only,
            ),
        },
{
    let ghost tt = timetable(schedule@);
    let mut best: Option<usize> = None;
    let mut best_score: i128 = 0;
    let mut best_id: i16 = 0;
    let mut j: usize = 0;
    while j < teachers.len()
        invariant
            j <= teachers.len(),
            group.id is Some,
            tt == timetable(schedule@),
            match best {
                Some(k) => {
                    &&& k < j
                    &&& eligible(
                        tt,
                        *group,
                        subject_id,
                        day@,
                        start as int,
                        size as int,
                        teachers@[k as int],
                        qualified_only,
                    )
                    &&& best_score == score_of_teacher(
                        tt,
                        teachers@[k as int],
                        day@,
                        start as int,
                        size as int,
                    )
                    &&& Some(best_id) == teachers@[k as int].id
                    &&& forall|x: int|
                        0 <= x < j && eligible(
                            tt,
                            *group,
                            subject_id,
                            day@,
                            start as int,
                            size as int,
                            #[trigger] teachers@[x],
                            qualified_only,
                        ) ==> ranks_before(
                            tt,
                            day@,
                            start as int,
                            size as int,
                            teachers@[k as int],
                            teachers@[x],
                        )
                },
                None => forall|x: int|
                    0 <= x < j ==> !eligible(
                        tt,
                        *group,
                        subject_id,
                        day@,
                        start as int,
                        size as int,
                        #[trigger] teachers@[x],
                        qualified_only,
                    ),
            },
        decreases teachers.len() - j,
    {
        let t = &teachers[j];
        if t.id.is_some() && (!qualified_only || t.teaches(subject_id)) {
            if placement_permitted(schedule, group, day, start, subject_id, t, size) {
                let sc = teacher_score(schedule, t, day, start, size);
                let id = t.id.unwrap();
                let take = match best {
                    Some(_) => sc > best_score || (sc == best_score && id < best_id),
                    None => true,
                };
                if take {
                    best = Some(j);
                    best_score = sc;
                    best_id = id;
                }
            }
        }
        j += 1;
    }
    best
}

/// The best teacher for the block among those of `teachers` who are
/// qualified for the subject.
pub fn find_best_teacher(
    schedule: &Vec<Assignment>,
    group: &Group,
    subject: &SubjectWithTeacher,
    day: &str,
    starting_module: i16,
    block_size: i16,
    teachers: &Vec<Teacher>,
) -> (r: Option<usize>)
    requires
        group.id is Some,
    ensures
        match r {
            Some(k) => is_best_teacher(
                timetable(schedule@),
                *group,
                subject.id,
                day@,
                starting_module as int,
                block_size as int,
                teachers@,
                true,
                k as int,
            ),
            None => no_eligible_teacher(
                timetable(schedule@),
                *group,
                subject.id,
                day@,
                starting_module as int,
                block_size as int,
                teachers@,
                true,
            ),
        },
{
    best_teacher_index(
        schedule,
        group,
        subject.id,
        day,
        starting_module,
        block_size,
        teachers,
        true,
    )
}

/// The best teacher for the block among `qualified_teachers`, a list that
/// the caller has already narrowed to the subject.
pub fn find_best_teacher_from_list(
    schedule: &Vec<Assignment>,
    group: &Group,
    subject: &SubjectWithTeacher,
    day: &str,
    starting_module: i16,
    block_size: i16,
    qualified_teachers: &Vec<Teacher>,
) -> (r: Option<usize>)
    requires
        group.id is Some,
    ensures
        match r {
            Some(k) => is_best_teacher(
                timetable(schedule@),
                *group,
                subject.id,
                day@,
                starting_module as int,
                block_size as int,
                qualified_teachers@,
                false,
                k as int,
            ),
            None => no_eligible_teacher(
                timetable(schedule@),
                *group,
                subject.id,
                day@,
                starting_module as int,
                block_size as int,
                qualified_teachers@,
                false,
            ),
        },
{
    best_teacher_index(
        schedule,
        group,
        subject.id,
        day,
        starting_module,
        block_size,
        qualified_teachers,
        false,
    )
}

} // verus!
