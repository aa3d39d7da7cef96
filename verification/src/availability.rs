//! The availability index: which (teacher, day), (group, day) and
//! (room, day) slots a timetable already uses, and how many lessons it
//! holds for a group, a teacher or a subject.

use crate::model::{Assignment, Placement, timetable};
use crate::text::same_text;
use vstd::prelude::*;

verus! {

/// The three kinds of resource whose slots the index tracks.
#[derive(Debug, Clone, Copy)]
pub enum Resource {
    Teacher,
    Group,
    Room,
}

/// The identifier under which a placement uses a kind of resource.
pub open spec fn key_of(p: Placement, kind: Resource) -> i16 {
    match kind {
        Resource::Teacher => p.teacher_id,
        Resource::Group => p.group_id,
        Resource::Room => p.classroom_id,
    }
}

/// The placement uses module `m` of `day` for resource `key`.
pub open spec fn occupies(p: Placement, kind: Resource, key: i16, day: Seq<char>, m: int) -> bool {
    key_of(p, kind) == key && p.day == day && p.module_index == m
}

/// The placement uses one of the modules `lo .. hi` of `day` for resource
/// `key`.
pub open spec fn within_range(
    p: Placement,
    kind: Resource,
    key: i16,
    day: Seq<char>,
    lo: int,
    hi: int,
) -> bool {
    key_of(p, kind) == key && p.day == day && lo <= p.module_index < hi
}

/// Some module in `lo .. hi` of `day` is in the busy set of resource `key`.
pub open spec fn in_use(
    s: Seq<Placement>,
    kind: Resource,
    key: i16,
    day: Seq<char>,
    lo: int,
    hi: int,
) -> bool {
    exists|i: int| 0 <= i < s.len() && within_range(#[trigger] s[i], kind, key, day, lo, hi)
}

/// Module `m` of `day` is in the busy set of resource `key`.
pub open spec fn busy_at(s: Seq<Placement>, kind: Resource, key: i16, day: Seq<char>, m: int) -> bool {
    in_use(s, kind, key, day, m, m + 1)
}

/// None of the modules `start .. start + size` is busy for resource `key`.
pub open spec fn free_block(
    s: Seq<Placement>,
    kind: Resource,
    key: i16,
    day: Seq<char>,
    start: int,
    size: int,
) -> bool {
    !in_use(s, kind, key, day, start, start + size)
}

/// The resource has some lesson on `day`.
pub open spec fn used_on_day(s: Seq<Placement>, kind: Resource, key: i16, day: Seq<char>) -> bool {
    in_use(s, kind, key, day, i16::MIN as int, i16::MAX + 1)
}

/// Which placements a count looks at: each field that is set must match.
pub struct Selector {
    pub group: Option<i16>,
    pub teacher: Option<i16>,
    pub subject: Option<i16>,
    pub day: Option<Seq<char>>,
    pub room: Option<i16>,
}

/// The selector picks the placement.
pub open spec fn selects(sel: Selector, p: Placement) -> bool {
    &&& (sel.group matches Some(g) ==> p.group_id == g)
    &&& (sel.teacher matches Some(t) ==> p.teacher_id == t)
    &&& (sel.subject matches Some(u) ==> p.subject_id == u)
    &&& (sel.day matches Some(d) ==> p.day == d)
    &&& (sel.room matches Some(r) ==> p.classroom_id == r)
}

/// The lessons of a group on a day.
pub open spec fn in_group_day(g: i16, day: Seq<char>) -> Selector {
    Selector { group: Some(g), teacher: None, subject: None, day: Some(day), room: None }
}

/// The lessons of a teacher in the week.
pub open spec fn by_teacher(t: i16) -> Selector {
    Selector { group: None, teacher: Some(t), subject: None, day: None, room: None }
}

/// The lessons of a teacher on a day.
pub open spec fn by_teacher_day(t: i16, day: Seq<char>) -> Selector {
    Selector { group: None, teacher: Some(t), subject: None, day: Some(day), room: None }
}

/// The lessons of a group on a day in a room.
pub open spec fn in_group_day_room(g: i16, day: Seq<char>, room: i16) -> Selector {
    Selector { group: Some(g), teacher: None, subject: None, day: Some(day), room: Some(room) }
}

/// The lessons of a subject that a group has in the week.
pub open spec fn of_group_subject(g: i16, u: i16) -> Selector {
    Selector { group: Some(g), teacher: None, subject: Some(u), day: None, room: None }
}

/// The lessons of a subject that a group has on a day.
pub open spec fn of_group_subject_day(g: i16, u: i16, day: Seq<char>) -> Selector {
    Selector { group: Some(g), teacher: None, subject: Some(u), day: Some(day), room: None }
}

/// How many placements of `s` the selector picks.
pub open spec fn count_of(s: Seq<Placement>, sel: Selector) -> nat
    decreases s.len(),
{
    if s.len() == 0 {
        0
    } else {
        count_of(s.drop_last(), sel) + if selects(sel, s.last()) {
            1nat
        } else {
            0nat
        }
    }
}

/// The timetable of a schedule with one more lesson.
pub proof fn lemma_timetable_push(s: Seq<Assignment>, a: Assignment)
    ensures
        timetable(s.push(a)) == timetable(s).push(a@),
{
    assert(timetable(s.push(a)) =~= timetable(s).push(a@));
}

/// The timetable of a schedule with one lesson replaced.
pub proof fn lemma_timetable_update(s: Seq<Assignment>, i: int, a: Assignment)
    requires
        0 <= i < s.len(),
    ensures
        timetable(s.update(i, a)) == timetable(s).update(i, a@),
{
    assert(timetable(s.update(i, a)) =~= timetable(s).update(i, a@));
}

/// Counting one more placement adds one exactly when the selector picks it.
pub proof fn lemma_count_push(s: Seq<Placement>, p: Placement, sel: Selector)
    ensures
        count_of(s.push(p), sel) == count_of(s, sel) + if selects(sel, p) {
            1nat
        } else {
            0nat
        },
{
    assert(s.push(p).drop_last() =~= s);
}

/// A prefix that is one lesson longer counts that lesson where the
/// selector picks it.
pub proof fn lemma_count_take_step(s: Seq<Placement>, i: int, sel: Selector)
    requires
        0 <= i < s.len(),
    ensures
        count_of(s.take(i + 1), sel) == count_of(s.take(i), sel) + if selects(sel, s[i]) {
            1nat
        } else {
            0nat
        },
{
    assert(s.take(i + 1).drop_last() =~= s.take(i));
}

/// A count is zero exactly when the selector picks no placement.
pub proof fn lemma_count_zero(s: Seq<Placement>, sel: Selector)
    ensures
        count_of(s, sel) == 0 <==> forall|i: int| 0 <= i < s.len() ==> !selects(sel, #[trigger] s[i]),
    decreases s.len(),
{
    if s.len() > 0 {
        lemma_count_zero(s.drop_last(), sel);
        if count_of(s, sel) == 0 {
            assert forall|i: int| 0 <= i < s.len() implies !selects(sel, #[trigger] s[i]) by {
                if i < s.len() - 1 {
                    assert(s.drop_last()[i] == s[i]);
                }
            }
        } else {
            if selects(sel, s.last()) {
                assert(selects(sel, s[s.len() - 1]));
            } else {
                let k = choose|k: int|
                    0 <= k < s.drop_last().len() && selects(sel, #[trigger] s.drop_last()[k]);
                assert(s[k] == s.drop_last()[k]);
            }
        }
    }
}

/// Two timetables that agree wherever the selector looks have equal counts.
pub proof fn lemma_count_same(a: Seq<Placement>, b: Seq<Placement>, sel: Selector)
    requires
        a.len() == b.len(),
        forall|i: int| 0 <= i < a.len() ==> selects(sel, #[trigger] a[i]) == selects(sel, b[i]),
    ensures
        count_of(a, sel) == count_of(b, sel),
    decreases a.len(),
{
    if a.len() > 0 {
        assert forall|i: int| 0 <= i < a.drop_last().len() implies selects(
            sel,
            #[trigger] a.drop_last()[i],
        ) == selects(sel, b.drop_last()[i]) by {
            assert(a.drop_last()[i] == a[i]);
            assert(b.drop_last()[i] == b[i]);
        }
        lemma_count_same(a.drop_last(), b.drop_last(), sel);
        assert(a.last() == a[a.len() - 1]);
    }
}

/// A positive count has a witness.
pub proof fn lemma_count_witness(s: Seq<Placement>, sel: Selector) -> (k: int)
    requires
        count_of(s, sel) > 0,
    ensures
        0 <= k < s.len(),
        selects(sel, s[k]),
{
    lemma_count_zero(s, sel);
    choose|k: int| 0 <= k < s.len() && selects(sel, #[trigger] s[k])
}

/// Enters a lesson into the schedule.
pub fn reserve(schedule: &mut Vec<Assignment>, assignment: Assignment)
    ensures
        final(schedule)@ == old(schedule)@.push(assignment),
        timetable(final(schedule)@) == timetable(old(schedule)@).push(assignment@),
{
    proof {
        lemma_timetable_push(schedule@, assignment);
    }
    schedule.push(assignment);
}

/// Lesson `k` is the last lesson of the group in the slot of `a`.
pub open spec fn last_in_slot(s: Seq<Placement>, a: Placement, k: int) -> bool {
    &&& 0 <= k < s.len()
    &&& occupies(s[k], Resource::Group, a.group_id, a.day, a.module_index as int)
    &&& forall|j: int|
        k < j < s.len() ==> !occupies(
            #[trigger] s[j],
            Resource::Group,
            a.group_id,
            a.day,
            a.module_index as int,
        )
}

/// Takes the lesson that the group of `assignment` has in its slot out of
/// the schedule: the last one, where there are several.  Returns whether
/// there was one.
pub fn release(schedule: &mut Vec<Assignment>, assignment: &Assignment) -> (found: bool)
    ensures
        found == busy_at(
            timetable(old(schedule)@),
            Resource::Group,
            assignment.group_id,
            assignment.day@,
            assignment.module_index as int,
        ),
        !found ==> final(schedule)@ == old(schedule)@,
        found ==> exists|k: int|
            last_in_slot(timetable(old(schedule)@), assignment@, k) && #[trigger] old(
                schedule,
            )@.remove(k) == final(schedule)@,
{
    let ghost tt = timetable(schedule@);
    let mut k: usize = schedule.len();
    while k > 0
        invariant
            k <= schedule.len(),
            schedule@ == old(schedule)@,
            tt == timetable(schedule@),
            forall|j: int|
                k <= j < tt.len() ==> !occupies(
                    #[trigger] tt[j],
                    Resource::Group,
                    assignment.group_id,
                    assignment.day@,
                    assignment.module_index as int,
                ),
        decreases k,
    {
        k -= 1;
        let a = &schedule[k];
        if a.group_id == assignment.group_id && a.module_index == assignment.module_index {
            if same_text(a.day.as_str(), assignment.day.as_str()) {
                proof {
                    assert(within_range(
                        tt[k as int],
                        Resource::Group,
                        assignment.group_id,
                        assignment.day@,
                        assignment.module_index as int,
                        assignment.module_index + 1,
                    ));
                    assert(last_in_slot(tt, assignment@, k as int));
                }
                let _ = schedule.remove(k);
                return true;
            }
        }
    }
    proof {
        assert forall|j: int| 0 <= j < tt.len() implies !within_range(
            #[trigger] tt[j],
            Resource::Group,
            assignment.group_id,
            assignment.day@,
            assignment.module_index as int,
            assignment.module_index + 1,
        ) by {
            assert(!occupies(
                tt[j],
                Resource::Group,
                assignment.group_id,
                assignment.day@,
                assignment.module_index as int,
            ));
        }
    }
    false
}

/// Whether resource `key` uses some module in `lo .. hi` of `day`.
pub fn range_in_use(
    schedule: &Vec<Assignment>,
    kind: Resource,
    key: i16,
    day: &str,
    lo: i32,
    hi: i32,
) -> (r: bool)
    ensures
        r == in_use(timetable(schedule@), kind, key, day@, lo as int, hi as int),
{
    let ghost tt = timetable(schedule@);
    let mut i: usize = 0;
    while i < schedule.len()
        invariant
            i <= schedule.len(),
            tt == timetable(schedule@),
            forall|k: int|
                0 <= k < i ==> !within_range(#[trigger] tt[k], kind, key, day@, lo as int, hi as int),
        decreases schedule.len() - i,
    {
        let a = &schedule[i];
        let k = match kind {
            Resource::Teacher => a.teacher_id,
            Resource::Group => a.group_id,
            Resource::Room => a.classroom_id,
        };
        if k == key && lo <= a.module_index as i32 && (a.module_index as i32) < hi {
            if same_text(a.day.as_str(), day) {
                proof {
                    assert(within_range(tt[i as int], kind, key, day@, lo as int, hi as int));
                }
                return true;
            }
        }
        i += 1;
    }
    false
}

/// Whether resource `key` is free on `day` for the whole block
/// `start .. start + size`.
pub fn is_free_block(
    schedule: &Vec<Assignment>,
    kind: Resource,
    key: i16,
    day: &str,
    start: i16,
    size: i16,
) -> (r: bool)
    ensures
        r == free_block(timetable(schedule@), kind, key, day@, start as int, size as int),
{
    !range_in_use(schedule, kind, key, day, start as i32, start as i32 + size as i32)
}

/// Whether the group has no lesson in any module of the block.
pub fn is_schedule_available(
    schedule: &Vec<Assignment>,
    group_id: i16,
    day: &str,
    starting_module: i16,
    block_size: i16,
) -> (r: bool)
    ensures
        r == free_block(
            timetable(schedule@),
            Resource::Group,
            group_id,
            day@,
            starting_module as int,
            block_size as int,
        ),
{
    is_free_block(schedule, Resource::Group, group_id, day, starting_module, block_size)
}

/// Whether the teacher has no lesson in any module of the block.
pub fn is_teacher_available(
    schedule: &Vec<Assignment>,
    teacher_id: i16,
    day: &str,
    starting_module: i16,
    block_size: i16,
) -> (r: bool)
    ensures
        r == free_block(
            timetable(schedule@),
            Resource::Teacher,
            teacher_id,
            day@,
            starting_module as int,
            block_size as int,
        ),
{
    is_free_block(schedule, Resource::Teacher, teacher_id, day, starting_module, block_size)
}

/// Whether module `m` of `day` is in the busy set of resource `key`.
pub fn is_busy(schedule: &Vec<Assignment>, kind: Resource, key: i16, day: &str, m: i16) -> (r:
    bool)
    ensures
        r == busy_at(timetable(schedule@), kind, key, day@, m as int),
{
    range_in_use(schedule, kind, key, day, m as i32, m as i32 + 1)
}

/// The modules `1 ..= modules_per_day` of `day` that the teacher teaches,
/// in ascending order.
pub fn teacher_modules_on_day(
    schedule: &Vec<Assignment>,
    teacher_id: i16,
    day: &str,
    modules_per_day: i16,
) -> (r: Vec<i16>)
    ensures
        forall|a: int, b: int| 0 <= a < b < r.len() ==> r[a] < r[b],
        forall|m: i16|
            r@.contains(m) <==> 1 <= m <= modules_per_day && busy_at(
                timetable(schedule@),
                Resource::Teacher,
                teacher_id,
                day@,
                m as int,
            ),
{
    let ghost tt = timetable(schedule@);
    let mut r: Vec<i16> = Vec::new();
    let mut m: i32 = 1;
    while m <= modules_per_day as i32
        invariant
            1 <= m,
            m <= modules_per_day + 1 || m == 1,
            tt == timetable(schedule@),
            forall|a: int, b: int| 0 <= a < b < r.len() ==> r[a] < r[b],
            forall|a: int| 0 <= a < r.len() ==> 1 <= #[trigger] r[a] < m,
            forall|w: i16|
                1 <= w < m && busy_at(tt, Resource::Teacher, teacher_id, day@, w as int)
                    ==> r@.contains(w),
            forall|a: int|
                0 <= a < r.len() ==> busy_at(
                    tt,
                    Resource::Teacher,
                    teacher_id,
                    day@,
                    #[trigger] r[a] as int,
                ),
        decreases modules_per_day + 1 - m,
    {
        if is_busy(schedule, Resource::Teacher, teacher_id, day, m as i16) {
            let ghost before = r@;
            r.push(m as i16);
            proof {
                assert(r@[r.len() - 1] == m);
                assert forall|w: i16|
                    1 <= w < m + 1 && busy_at(
                        tt,
                        Resource::Teacher,
                        teacher_id,
                        day@,
                        w as int,
                    ) implies r@.contains(w) by {
                    if w < m {
                        assert(before.contains(w));
                        let k = choose|k: int| 0 <= k < before.len() && before[k] == w;
                        assert(r@[k] == w);
                    } else {
                        assert(r@[r.len() - 1] == w);
                    }
                }
            }
        }
        m += 1;
    }
    r
}

/// The modules `1 ..= modules_per_day` of `day` in which the teacher has
/// no lesson, in ascending order.
pub fn free_modules_on_day(
    schedule: &Vec<Assignment>,
    teacher_id: i16,
    day: &str,
    modules_per_day: i16,
) -> (r: Vec<i16>)
    ensures
        forall|a: int, b: int| 0 <= a < b < r.len() ==> r[a] < r[b],
        forall|m: i16|
            r@.contains(m) <==> 1 <= m <= modules_per_day && !busy_at(
                timetable(schedule@),
                Resource::Teacher,
                teacher_id,
                day@,
                m as int,
            ),
{
    let ghost tt = timetable(schedule@);
    let mut r: Vec<i16> = Vec::new();
    let mut m: i32 = 1;
    while m <= modules_per_day as i32
        invariant
            1 <= m,
            m <= modules_per_day + 1 || m == 1,
            tt == timetable(schedule@),
            forall|a: int, b: int| 0 <= a < b < r.len() ==> r[a] < r[b],
            forall|a: int| 0 <= a < r.len() ==> 1 <= #[trigger] r[a] < m,
            forall|w: i16|
                1 <= w < m && !busy_at(tt, Resource::Teacher, teacher_id, day@, w as int)
                    ==> r@.contains(w),
            forall|a: int|
                0 <= a < r.len() ==> !busy_at(
                    tt,
                    Resource::Teacher,
                    teacher_id,
                    day@,
                    #[trigger] r[a] as int,
                ),
        decreases modules_per_day + 1 - m,
    {
        if !is_busy(schedule, Resource::Teacher, teacher_id, day, m as i16) {
            let ghost before = r@;
            r.push(m as i16);
            proof {
                assert(r@[r.len() - 1] == m);
                assert forall|w: i16|
                    1 <= w < m + 1 && !busy_at(
                        tt,
                        Resource::Teacher,
                        teacher_id,
                        day@,
                        w as int,
                    ) implies r@.contains(w) by {
                    if w < m {
                        assert(before.contains(w));
                        let k = choose|k: int| 0 <= k < before.len() && before[k] == w;
                        assert(r@[k] == w);
                    } else {
                        assert(r@[r.len() - 1] == w);
                    }
                }
            }
        }
        m += 1;
    }
    r
}

/// For every day of `days`, in order, the modules `1 ..= modules_per_day`
/// in which the teacher has no lesson.
pub fn get_teacher_availability(
    teacher_id: i16,
    schedule: &Vec<Assignment>,
    days: &Vec<String>,
    modules_per_day: i16,
) -> (r: Vec<Vec<i16>>)
    ensures
        r@.len() == days@.len(),
        forall|d: int, m: i16|
            0 <= d < days@.len() ==> (#[trigger] r@[d]@.contains(m) <==> 1 <= m <= modules_per_day
                && !busy_at(
                timetable(schedule@),
                Resource::Teacher,
                teacher_id,
                days@[d]@,
                m as int,
            )),
        forall|d: int, a: int, b: int|
            0 <= d < days@.len() && 0 <= a < b < r@[d]@.len() ==> (#[trigger] r@[d]@[a]) < (
            #[trigger] r@[d]@[b]),
{
    let mut r: Vec<Vec<i16>> = Vec::new();
    let mut d: usize = 0;
    while d < days.len()
        invariant
            d <= days.len(),
            r@.len() == d,
            forall|x: int, m: i16|
                0 <= x < d ==> (#[trigger] r@[x]@.contains(m) <==> 1 <= m <= modules_per_day
                    && !busy_at(
                    timetable(schedule@),
                    Resource::Teacher,
                    teacher_id,
                    days@[x]@,
                    m as int,
                )),
            forall|x: int, a: int, b: int|
                0 <= x < d && 0 <= a < b < r@[x]@.len() ==> (#[trigger] r@[x]@[a]) < (
                #[trigger] r@[x]@[b]),
        decreases days.len() - d,
    {
        let free = free_modules_on_day(schedule, teacher_id, days[d].as_str(), modules_per_day);
        r.push(free);
        d += 1;
    }
    r
}

/// How many assignments match every field that is given.
pub fn count_matching(
    schedule: &Vec<Assignment>,
    group: Option<i16>,
    teacher: Option<i16>,
    subject: Option<i16>,
    day: Option<&str>,
    room: Option<i16>,
) -> (n: usize)
    ensures
        n <= schedule.len(),
        n == count_of(
            timetable(schedule@),
            Selector {
                group,
                teacher,
                subject,
                day: match day {
                    Some(d) => Some(d@),
                    None => None,
                },
                room,
            },
        ),
{
    let ghost tt = timetable(schedule@);
    let ghost sel = Selector {
        group,
        teacher,
        subject,
        day: match day {
            Some(d) => Some(d@),
            None => None,
        },
        room,
    };
    let mut n: usize = 0;
    let mut i: usize = 0;
    proof {
        assert(tt.take(0) =~= Seq::<Placement>::empty());
    }
    while i < schedule.len()
        invariant
            i <= schedule.len(),
            tt == timetable(schedule@),
            n == count_of(tt.take(i as int), sel),
            n <= i,
            sel == (Selector {
                group,
                teacher,
                subject,
                day: match day {
                    Some(d) => Some(d@),
                    None => None,
                },
                room,
            }),
        decreases schedule.len() - i,
    {
        let a = &schedule[i];
        let g_ok = match group {
            Some(g) => a.group_id == g,
            None => true,
        };
        let t_ok = match teacher {
            Some(t) => a.teacher_id == t,
            None => true,
        };
        let u_ok = match subject {
            Some(u) => a.subject_id == u,
            None => true,
        };
        let r_ok = match room {
            Some(r) => a.classroom_id == r,
            None => true,
        };
        let mut hit = false;
        if g_ok && t_ok && u_ok && r_ok {
            hit = match day {
                Some(d) => same_text(a.day.as_str(), d),
                None => true,
            };
        }
        proof {
            lemma_count_take_step(tt, i as int, sel);
            assert(hit == selects(sel, tt[i as int]));
        }
        if hit {
            n += 1;
        }
        i += 1;
    }
    proof {
        assert(tt.take(schedule.len() as int) =~= tt);
    }
    n
}

} // verus!
