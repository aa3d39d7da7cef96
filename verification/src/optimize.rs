//! The schedule optimizer: four passes of local search over a feasible
//! schedule.  Each pass looks for a change of its kind that keeps every
//! invariant of the schedule, applies the first one it finds and reports
//! whether it found one.

use crate::availability::{
    busy_at, by_teacher_day, count_matching, count_of, in_group_day_room, in_use, is_busy,
    lemma_timetable_update, range_in_use, Resource,
};
use crate::invariants::{
    paired, plannable, qualified, same_run, schedule_valid,
};
use crate::model::{Assignment, Domain, Placement, timetable};
use crate::rooms::in_room;
use crate::text::same_text;
use crate::validate::check_schedule;
use vstd::prelude::*;

verus! {

/// The placement at another module of its day.
pub open spec fn at_module(pl: Placement, m: int) -> Placement {
    Placement { module_index: m as i16, ..pl }
}

/// `q` holds the lessons of `p`, each perhaps at another day or module,
/// with another teacher or in another room.
pub open spec fn retimed(p: Seq<Placement>, q: Seq<Placement>) -> bool {
    &&& q.len() == p.len()
    &&& forall|j: int|
        0 <= j < p.len() ==> #[trigger] q[j] == (Placement {
            day: q[j].day,
            module_index: q[j].module_index,
            teacher_id: q[j].teacher_id,
            classroom_id: q[j].classroom_id,
            ..p[j]
        })
}

/// Replaces lesson `i` by `a` where the schedule stays valid, and leaves
/// the timetable as it was where it would not.
pub fn try_replace(schedule: &mut Vec<Assignment>, d: &Domain, i: usize, a: Assignment) -> (ok:
    bool)
    requires
        plannable(*d, timetable(old(schedule)@)),
        i < old(schedule)@.len(),
    ensures
        final(schedule)@.len() == old(schedule)@.len(),
        ok == schedule_valid(*d, timetable(old(schedule)@).update(i as int, a@)),
        ok ==> timetable(final(schedule)@) == timetable(old(schedule)@).update(i as int, a@),
        !ok ==> timetable(final(schedule)@) == timetable(old(schedule)@),
        plannable(*d, timetable(final(schedule)@)),
{
    let ghost s0 = schedule@;
    let ghost p0 = timetable(schedule@);
    proof {
        reveal(plannable);
    }
    let saved = schedule[i].duplicate();
    schedule[i] = a;
    proof {
        assert(schedule@ =~= s0.update(i as int, a));
        lemma_timetable_update(s0, i as int, a);
    }
    if check_schedule(schedule, d) {
        return true;
    }
    let ghost s1 = schedule@;
    schedule[i] = saved;
    proof {
        assert(schedule@ =~= s1.update(i as int, saved));
        lemma_timetable_update(s1, i as int, saved);
        assert(timetable(schedule@) =~= p0);
    }
    false
}

/// Lesson `i` can fill a gap of its group's day from module `m`: the
/// module before `m` is used by the group, the modules from `m` up to the
/// lesson are free for the group, and the teacher is free across them.
pub open spec fn fills_gap(p: Seq<Placement>, i: int, m: int) -> bool {
    let x = p[i];
    &&& 0 <= i < p.len()
    &&& 1 <= m < x.module_index
    &&& busy_at(p, Resource::Group, x.group_id, x.day, m - 1)
    &&& !in_use(p, Resource::Group, x.group_id, x.day, m, x.module_index as int)
    &&& !in_use(p, Resource::Teacher, x.teacher_id, x.day, m, x.module_index as int)
}

/// Moving lesson `i` to module `m` fills a gap and keeps the schedule
/// valid.
pub open spec fn compaction(d: Domain, p: Seq<Placement>, i: int, m: int) -> bool {
    fills_gap(p, i, m) && schedule_valid(d, p.update(i, at_module(p[i], m)))
}

/// Early-module compaction: moves the first lesson, in schedule order,
/// that stands right after a gap in its group's day into the first free
/// module of the gap, provided its teacher is free across the gap and the
/// schedule stays valid.
#[verifier::rlimit(40)]
pub fn optimize_early_modules(schedule: &mut Vec<Assignment>, d: &Domain) -> (improved: bool)
    requires
        plannable(*d, timetable(old(schedule)@)),
    ensures
        plannable(*d, timetable(final(schedule)@)),
        retimed(timetable(old(schedule)@), timetable(final(schedule)@)),
        final(schedule)@.len() == old(schedule)@.len(),
        compaction_step(*d, timetable(old(schedule)@), timetable(final(schedule)@), improved),
{
    let ghost p0 = timetable(schedule@);
    let n = schedule.len();
    let mut i: usize = 0;
    while i < n
        invariant
            i <= n,
            n == schedule@.len(),
            n == old(schedule)@.len(),
            p0 == timetable(old(schedule)@),
            timetable(schedule@) == p0,
            plannable(*d, p0),
            forall|i2: int, m2: int| i2 < i ==> !#[trigger] compaction(*d, p0, i2, m2),
        decreases n - i,
    {
        let b = schedule[i].module_index;
        let g = schedule[i].group_id;
        let t = schedule[i].teacher_id;
        let mut m: i16 = 1;
        while m < b
            invariant
                1 <= m,
                i < n,
                n == schedule@.len(),
                n == old(schedule)@.len(),
                p0 == timetable(old(schedule)@),
                timetable(schedule@) == p0,
                plannable(*d, p0),
                b == p0[i as int].module_index,
                g == p0[i as int].group_id,
                t == p0[i as int].teacher_id,
                forall|i2: int, m2: int| i2 < i ==> !#[trigger] compaction(*d, p0, i2, m2),
                forall|m2: int| m2 < m ==> !#[trigger] compaction(*d, p0, i as int, m2),
            decreases b - m,
        {
            let day = schedule[i].day.clone();
            let fits = is_busy(schedule, Resource::Group, g, day.as_str(), m - 1) && !range_in_use(
                schedule,
                Resource::Group,
                g,
                day.as_str(),
                m as i32,
                b as i32,
            ) && !range_in_use(schedule, Resource::Teacher, t, day.as_str(), m as i32, b as i32);
            if fits {
                let mut a = schedule[i].duplicate();
                a.module_index = m;
                if try_replace(schedule, d, i, a) {
                    proof {
                        assert(compaction(*d, p0, i as int, m as int));
                        lemma_compaction_found(*d, p0, timetable(schedule@), i as int, m as int);
                    }
                    return true;
                }
            }
            m = m + 1;
        }
        i += 1;
    }
    proof {
        lemma_compaction_none(*d, p0);
    }
    false
}

/// Room `r` is the room that the group uses most on the day: no other room
/// of the group's lessons that day is used more often, and of the rooms
/// used equally often it has the lowest identifier.
pub open spec fn most_used_room(p: Seq<Placement>, g: i16, day: Seq<char>, r: i16) -> bool {
    &&& r != 0
    &&& count_of(p, in_group_day_room(g, day, r)) > 0
    &&& forall|j: int|
        0 <= j < p.len() && (#[trigger] p[j]).group_id == g && p[j].day == day
            && p[j].classroom_id != 0 ==> {
            let c = count_of(p, in_group_day_room(g, day, p[j].classroom_id));
            let best = count_of(p, in_group_day_room(g, day, r));
            c < best || (c == best && r <= p[j].classroom_id)
        }
}

/// Moving lesson `i` to room `r` brings it into the room that its group
/// uses most that day and keeps the schedule valid.
pub open spec fn consolidation(d: Domain, p: Seq<Placement>, i: int, r: i16) -> bool {
    &&& 0 <= i < p.len()
    &&& p[i].classroom_id != 0
    &&& p[i].classroom_id != r
    &&& most_used_room(p, p[i].group_id, p[i].day, r)
    &&& schedule_valid(d, p.update(i, in_room(p[i], r)))
}

/// The room that the group of lesson `i` uses most on the day of the
/// lesson.
fn favourite_room(schedule: &Vec<Assignment>, i: usize) -> (r: i16)
    requires
        i < schedule.len(),
        schedule@[i as int].classroom_id != 0,
    ensures
        most_used_room(
            timetable(schedule@),
            schedule@[i as int].group_id,
            schedule@[i as int].day@,
            r,
        ),
{
    let ghost tt = timetable(schedule@);
    let g = schedule[i].group_id;
    let day = schedule[i].day.clone();
    let mut best: i16 = schedule[i].classroom_id;
    let mut best_count: usize = count_matching(
        schedule,
        Some(g),
        None,
        None,
        Some(day.as_str()),
        Some(best),
        );
    proof {
        let sel = in_group_day_room(g, day@, best);
        if count_of(tt, sel) == 0 {
            crate::availability::lemma_count_zero(tt, sel);
            assert(crate::availability::selects(sel, tt[i as int]));
        }
    }
    let mut j: usize = 0;
    while j < schedule.len()
        invariant
            j <= schedule.len(),
            tt == timetable(schedule@),
            day@ == schedule@[i as int].day@,
            g == schedule@[i as int].group_id,
            best != 0,
            best_count == count_of(tt, in_group_day_room(g, day@, best)),
            best_count > 0,
            forall|x: int|
                0 <= x < j && (#[trigger] tt[x]).group_id == g && tt[x].day == day@
                    && tt[x].classroom_id != 0 ==> {
                    let c = count_of(tt, in_group_day_room(g, day@, tt[x].classroom_id));
                    c < best_count || (c == best_count && best <= tt[x].classroom_id)
                },
        decreases schedule.len() - j,
    {
        let a = &schedule[j];
        if a.group_id == g && a.classroom_id != 0 {
            if same_text(a.day.as_str(), day.as_str()) {
                let c = count_matching(
                    schedule,
                    Some(g),
                    None,
                    None,
                    Some(day.as_str()),
                    Some(a.classroom_id),
                );
                if c > best_count || (c == best_count && a.classroom_id < best) {
                    best = a.classroom_id;
                    best_count = c;
                }
            }
        }
        j += 1;
    }
    best
}

/// Room consolidation: moves the first lesson, in schedule order, that is
/// not in the room its group uses most that day into that room, provided
/// the schedule stays valid.
#[verifier::rlimit(40)]
pub fn optimize_classroom_usage(schedule: &mut Vec<Assignment>, d: &Domain) -> (improved: bool)
    requires
        plannable(*d, timetable(old(schedule)@)),
    ensures
        plannable(*d, timetable(final(schedule)@)),
        retimed(timetable(old(schedule)@), timetable(final(schedule)@)),
        final(schedule)@.len() == old(schedule)@.len(),
        consolidation_step(*d, timetable(old(schedule)@), timetable(final(schedule)@), improved),
{
    let ghost p0 = timetable(schedule@);
    let n = schedule.len();
    let mut i: usize = 0;
    while i < n
        invariant
            i <= n,
            n == schedule@.len(),
            n == old(schedule)@.len(),
            p0 == timetable(old(schedule)@),
            timetable(schedule@) == p0,
            plannable(*d, p0),
            forall|i2: int, r2: i16| i2 < i ==> !#[trigger] consolidation(*d, p0, i2, r2),
        decreases n - i,
    {
        if schedule[i].classroom_id != 0 {
            let r = favourite_room(schedule, i);
            proof {
                assert forall|r2: i16| most_used_room(
                    p0,
                    p0[i as int].group_id,
                    p0[i as int].day,
                    r2,
                ) implies r2 == r by {
                    lemma_most_used_unique(p0, p0[i as int].group_id, p0[i as int].day, r, r2);
                }
            }
            if r != schedule[i].classroom_id {
                let mut a = schedule[i].duplicate();
                a.classroom_id = r;
                if try_replace(schedule, d, i, a) {
                    proof {
                        assert(consolidation(*d, p0, i as int, r));
                        lemma_consolidation_found(*d, p0, timetable(schedule@), i as int, r);
                    }
                    return true;
                }
            }
        }
        i += 1;
    }
    proof {
        lemma_consolidation_none(*d, p0);
    }
    false
}

/// The room that a group uses most on a day is unique.
pub proof fn lemma_most_used_unique(p: Seq<Placement>, g: i16, day: Seq<char>, r1: i16, r2: i16)
    requires
        most_used_room(p, g, day, r1),
        most_used_room(p, g, day, r2),
    ensures
        r1 == r2,
{
    let s1 = in_group_day_room(g, day, r1);
    let s2 = in_group_day_room(g, day, r2);
    let j1 = crate::availability::lemma_count_witness(p, s1);
    let j2 = crate::availability::lemma_count_witness(p, s2);
    assert(p[j1].classroom_id == r1 && p[j1].group_id == g && p[j1].day == day);
    assert(p[j2].classroom_id == r2 && p[j2].group_id == g && p[j2].day == day);
}

/// The placement with another teacher.
pub open spec fn with_teacher(pl: Placement, t: i16) -> Placement {
    Placement { teacher_id: t, ..pl }
}

/// The placement at another day and module.
pub open spec fn moved_to(pl: Placement, day: Seq<char>, m: int) -> Placement {
    Placement { day, module_index: m as i16, ..pl }
}

/// Lesson `i` is the only lesson of its teacher on its day.
pub open spec fn isolated(p: Seq<Placement>, i: int) -> bool {
    0 <= i < p.len() && count_of(p, by_teacher_day(p[i].teacher_id, p[i].day)) == 1
}

/// The teacher of the isolated lesson `i` hands lesson `j`, of a day with
/// two or more of their lessons, over to teacher `ti2`, and the schedule
/// stays valid.
pub open spec fn handover(d: Domain, p: Seq<Placement>, i: int, j: int, ti2: int) -> bool {
    &&& isolated(p, i)
    &&& 0 <= j < p.len()
    &&& p[j].teacher_id == p[i].teacher_id
    &&& p[j].day != p[i].day
    &&& count_of(p, by_teacher_day(p[i].teacher_id, p[j].day)) >= 2
    &&& 0 <= ti2 < d.teachers@.len()
    &&& d.teachers@[ti2].id is Some
    &&& d.teachers@[ti2].id != Some(p[i].teacher_id)
    &&& schedule_valid(d, p.update(j, with_teacher(p[j], d.teachers@[ti2].id.unwrap())))
}

/// The isolated lesson `i` moves to module `m` of day `di2`, another day,
/// next to a lesson that its teacher has there, and the schedule stays
/// valid.
pub open spec fn relocation(d: Domain, p: Seq<Placement>, i: int, di2: int, m: int) -> bool {
    &&& isolated(p, i)
    &&& 0 <= di2 < d.days@.len()
    &&& d.days@[di2]@ != p[i].day
    &&& 1 <= m <= d.modules_per_day
    &&& (busy_at(p, Resource::Teacher, p[i].teacher_id, d.days@[di2]@, m - 1) || busy_at(
        p,
        Resource::Teacher,
        p[i].teacher_id,
        d.days@[di2]@,
        m + 1,
    ))
    &&& schedule_valid(d, p.update(i, moved_to(p[i], d.days@[di2]@, m)))
}

/// No lesson before lesson `i` admits a handover or a relocation.
pub open spec fn none_before(d: Domain, p: Seq<Placement>, i: int) -> bool {
    &&& forall|x: int, j: int, ti2: int| x < i ==> !#[trigger] handover(d, p, x, j, ti2)
    &&& forall|x: int, di2: int, m: int| x < i ==> !#[trigger] relocation(d, p, x, di2, m)
}

/// The isolated lesson `i` admits no handover.
pub open spec fn no_handover_of(d: Domain, p: Seq<Placement>, i: int) -> bool {
    forall|j: int, ti2: int| !#[trigger] handover(d, p, i, j, ti2)
}

/// The handover of lesson `j` to teacher `ti2` is the first that the
/// isolated lesson `i` admits: no earlier lesson can be handed over, and
/// lesson `j` to no earlier teacher.
pub open spec fn first_for_lesson(d: Domain, p: Seq<Placement>, i: int, j: int, ti2: int) -> bool {
    &&& forall|j2: int, t2: int| j2 < j ==> !#[trigger] handover(d, p, i, j2, t2)
    &&& forall|t2: int| t2 < ti2 ==> !#[trigger] handover(d, p, i, j, t2)
}

/// The slot is the first to which the isolated lesson `i` can move: no
/// earlier day takes it, and on the day no earlier module.
pub open spec fn first_slot_for_lesson(
    d: Domain,
    p: Seq<Placement>,
    i: int,
    di2: int,
    m: int,
) -> bool {
    &&& forall|d2: int, m2: int| d2 < di2 ==> !#[trigger] relocation(d, p, i, d2, m2)
    &&& forall|m2: int| m2 < m ==> !#[trigger] relocation(d, p, i, di2, m2)
}

/// A lesson whose teacher is not qualified for its subject makes a
/// schedule invalid.
proof fn lemma_unqualified_invalid(d: Domain, p: Seq<Placement>, j: int, ti2: int)
    requires
        plannable(d, p),
        0 <= j < p.len(),
        0 <= ti2 < d.teachers@.len(),
        d.teachers@[ti2].id is Some,
        !d.teachers@[ti2].subjects@.contains(p[j].subject_id),
    ensures
        !schedule_valid(d, p.update(j, with_teacher(p[j], d.teachers@[ti2].id.unwrap()))),
{
    reveal(plannable);
    let t2 = d.teachers@[ti2].id.unwrap();
    let q = p.update(j, with_teacher(p[j], t2));
    if schedule_valid(d, q) {
        assert(qualified(d, q[j].teacher_id, q[j].subject_id));
        let w = choose|w: int|
            0 <= w < d.teachers@.len() && (#[trigger] d.teachers@[w]).id == Some(t2)
                && d.teachers@[w].subjects@.contains(p[j].subject_id);
        assert(d.teachers@[w].id == d.teachers@[ti2].id);
        assert(w == ti2);
    }
}

#[verifier::rlimit(40)]
fn try_handover_of(schedule: &mut Vec<Assignment>, d: &Domain, i: usize, j: usize) -> (ok: bool)
    requires
        plannable(*d, timetable(old(schedule)@)),
        i < old(schedule)@.len(),
        j < old(schedule)@.len(),
        isolated(timetable(old(schedule)@), i as int),
        timetable(old(schedule)@)[j as int].teacher_id == timetable(
            old(schedule)@,
        )[i as int].teacher_id,
        timetable(old(schedule)@)[j as int].day != timetable(old(schedule)@)[i as int].day,
        count_of(
            timetable(old(schedule)@),
            by_teacher_day(
                timetable(old(schedule)@)[i as int].teacher_id,
                timetable(old(schedule)@)[j as int].day,
            ),
        ) >= 2,
    ensures
        plannable(*d, timetable(final(schedule)@)),
        final(schedule)@.len() == old(schedule)@.len(),
        ok ==> exists|ti2: int|
            #![trigger d.teachers@[ti2]]
            handover(*d, timetable(old(schedule)@), i as int, j as int, ti2) && timetable(
                final(schedule)@,
            ) == timetable(old(schedule)@).update(
                j as int,
                with_teacher(timetable(old(schedule)@)[j as int], d.teachers@[ti2].id.unwrap()),
            ) && forall|t2: int|
                t2 < ti2 ==> !#[trigger] handover(
                    *d,
                    timetable(old(schedule)@),
                    i as int,
                    j as int,
                    t2,
                ),
        !ok ==> timetable(final(schedule)@) == timetable(old(schedule)@) && forall|ti2: int|
            !#[trigger] handover(*d, timetable(old(schedule)@), i as int, j as int, ti2),
{
    let ghost p0 = timetable(schedule@);
    let t = schedule[i].teacher_id;
    let u = schedule[j].subject_id;
    let mut ti2: usize = 0;
    while ti2 < d.teachers.len()
        invariant
            ti2 <= d.teachers.len(),
            i < schedule@.len(),
            j < schedule@.len(),
            schedule@.len() == old(schedule)@.len(),
            p0 == timetable(old(schedule)@),
            timetable(schedule@) == p0,
            plannable(*d, p0),
            t == p0[i as int].teacher_id,
            u == p0[j as int].subject_id,
            isolated(p0, i as int),
            p0[j as int].teacher_id == t,
            p0[j as int].day != p0[i as int].day,
            count_of(p0, by_teacher_day(t, p0[j as int].day)) >= 2,
            forall|x: int| x < ti2 ==> !#[trigger] handover(*d, p0, i as int, j as int, x),
        decreases d.teachers.len() - ti2,
    {
        match d.teachers[ti2].id {
            Some(t2) => {
                if t2 != t {
                    if d.teachers[ti2].teaches(u) {
                        let mut a = schedule[j].duplicate();
                        a.teacher_id = t2;
                        if try_replace(schedule, d, j, a) {
                            proof {
                                assert(handover(*d, p0, i as int, j as int, ti2 as int));
                            }
                            return true;
                        }
                    } else {
                        proof {
                            lemma_unqualified_invalid(*d, p0, j as int, ti2 as int);
                        }
                    }
                }
            },
            None => {},
        }
        ti2 += 1;
    }
    false
}

#[verifier::rlimit(40)]
fn try_handover(schedule: &mut Vec<Assignment>, d: &Domain, i: usize) -> (ok: bool)
    requires
        plannable(*d, timetable(old(schedule)@)),
        i < old(schedule)@.len(),
        isolated(timetable(old(schedule)@), i as int),
    ensures
        plannable(*d, timetable(final(schedule)@)),
        final(schedule)@.len() == old(schedule)@.len(),
        ok ==> exists|j: int, ti2: int|
            #![trigger handover(*d, timetable(old(schedule)@), i as int, j, ti2)]
            handover(*d, timetable(old(schedule)@), i as int, j, ti2) && timetable(
                final(schedule)@,
            ) == timetable(old(schedule)@).update(
                j,
                with_teacher(timetable(old(schedule)@)[j], d.teachers@[ti2].id.unwrap()),
            ) && first_for_lesson(*d, timetable(old(schedule)@), i as int, j, ti2),
        !ok ==> timetable(final(schedule)@) == timetable(old(schedule)@) && forall|
            j: int,
            ti2: int,
        | !#[trigger] handover(*d, timetable(old(schedule)@), i as int, j, ti2),
{
    let ghost p0 = timetable(schedule@);
    let t = schedule[i].teacher_id;
    let n = schedule.len();
    let mut j: usize = 0;
    while j < n
        invariant
            j <= n,
            i < n,
            n == schedule@.len(),
            n == old(schedule)@.len(),
            p0 == timetable(old(schedule)@),
            timetable(schedule@) == p0,
            plannable(*d, p0),
            t == p0[i as int].teacher_id,
            isolated(p0, i as int),
            forall|x: int, ti2: int| x < j ==> !#[trigger] handover(*d, p0, i as int, x, ti2),
        decreases n - j,
    {
        if schedule[j].teacher_id == t && !same_text(
            schedule[j].day.as_str(),
            schedule[i].day.as_str(),
        ) {
            let c = count_matching(
                schedule,
                None,
                Some(t),
                None,
                Some(schedule[j].day.as_str()),
                None,
            );
            if c >= 2 {
                if try_handover_of(schedule, d, i, j) {
                    return true;
                }
            }
        }
        j += 1;
    }
    false
}

#[verifier::rlimit(40)]
fn try_relocation_on(schedule: &mut Vec<Assignment>, d: &Domain, i: usize, di2: usize) -> (ok:
    bool)
    requires
        plannable(*d, timetable(old(schedule)@)),
        i < old(schedule)@.len(),
        di2 < d.days.len(),
        isolated(timetable(old(schedule)@), i as int),
        d.days@[di2 as int]@ != timetable(old(schedule)@)[i as int].day,
    ensures
        plannable(*d, timetable(final(schedule)@)),
        final(schedule)@.len() == old(schedule)@.len(),
        ok ==> exists|m: int|
            #![trigger relocation(*d, timetable(old(schedule)@), i as int, di2 as int, m)]
            relocation(*d, timetable(old(schedule)@), i as int, di2 as int, m) && timetable(
                final(schedule)@,
            ) == timetable(old(schedule)@).update(
                i as int,
                moved_to(timetable(old(schedule)@)[i as int], d.days@[di2 as int]@, m),
            ) && forall|m2: int|
                m2 < m ==> !#[trigger] relocation(
                    *d,
                    timetable(old(schedule)@),
                    i as int,
                    di2 as int,
                    m2,
                ),
        !ok ==> timetable(final(schedule)@) == timetable(old(schedule)@) && forall|m: int|
            !#[trigger] relocation(*d, timetable(old(schedule)@), i as int, di2 as int, m),
{
    let ghost p0 = timetable(schedule@);
    let t = schedule[i].teacher_id;
    let mut m: i16 = 1;
    while m <= d.modules_per_day
        invariant
            1 <= m,
            m <= d.modules_per_day + 1 || m == 1,
            i < schedule@.len(),
            di2 < d.days.len(),
            schedule@.len() == old(schedule)@.len(),
            p0 == timetable(old(schedule)@),
            timetable(schedule@) == p0,
            plannable(*d, p0),
            t == p0[i as int].teacher_id,
            isolated(p0, i as int),
            d.days@[di2 as int]@ != p0[i as int].day,
            forall|x: int| x < m ==> !#[trigger] relocation(*d, p0, i as int, di2 as int, x),
        decreases d.modules_per_day + 1 - m,
    {
        let day2 = d.days[di2].as_str();
        let near = range_in_use(schedule, Resource::Teacher, t, day2, m as i32 - 1, m as i32)
            || range_in_use(schedule, Resource::Teacher, t, day2, m as i32 + 1, m as i32 + 2);
        if near {
            let mut a = schedule[i].duplicate();
            a.day = d.days[di2].clone();
            a.module_index = m;
            if try_replace(schedule, d, i, a) {
                proof {
                    assert(relocation(*d, p0, i as int, di2 as int, m as int));
                }
                return true;
            }
        }
        if m == i16::MAX {
            return false;
        }
        m = m + 1;
    }
    false
}

#[verifier::rlimit(40)]
fn try_relocation(schedule: &mut Vec<Assignment>, d: &Domain, i: usize) -> (ok: bool)
    requires
        plannable(*d, timetable(old(schedule)@)),
        i < old(schedule)@.len(),
        isolated(timetable(old(schedule)@), i as int),
    ensures
        plannable(*d, timetable(final(schedule)@)),
        final(schedule)@.len() == old(schedule)@.len(),
        ok ==> exists|di2: int, m: int|
            #![trigger relocation(*d, timetable(old(schedule)@), i as int, di2, m)]
            relocation(*d, timetable(old(schedule)@), i as int, di2, m) && timetable(
                final(schedule)@,
            ) == timetable(old(schedule)@).update(
                i as int,
                moved_to(timetable(old(schedule)@)[i as int], d.days@[di2]@, m),
            ) && first_slot_for_lesson(*d, timetable(old(schedule)@), i as int, di2, m),
        !ok ==> timetable(final(schedule)@) == timetable(old(schedule)@) && forall|
            di2: int,
            m: int,
        | !#[trigger] relocation(*d, timetable(old(schedule)@), i as int, di2, m),
{
    let ghost p0 = timetable(schedule@);
    let mut di2: usize = 0;
    while di2 < d.days.len()
        invariant
            di2 <= d.days.len(),
            i < schedule@.len(),
            schedule@.len() == old(schedule)@.len(),
            p0 == timetable(old(schedule)@),
            timetable(schedule@) == p0,
            plannable(*d, p0),
            isolated(p0, i as int),
            forall|x: int, m: int| x < di2 ==> !#[trigger] relocation(*d, p0, i as int, x, m),
        decreases d.days.len() - di2,
    {
        if !same_text(d.days[di2].as_str(), schedule[i].day.as_str()) {
            if try_relocation_on(schedule, d, i, di2) {
                return true;
            }
        }
        di2 += 1;
    }
    false
}

/// Teacher isolated-module elimination: for the first lesson, in schedule
/// order, that is its teacher's only lesson of the day and for which one
/// of these keeps the schedule valid: another teacher takes over a lesson
/// of a day on which the teacher has two or more; or the lesson moves to
/// another day, next to a lesson that the teacher has there.
#[verifier::rlimit(40)]
pub fn optimize_teacher_isolated_modules(schedule: &mut Vec<Assignment>, d: &Domain) -> (improved:
    bool)
    requires
        plannable(*d, timetable(old(schedule)@)),
    ensures
        plannable(*d, timetable(final(schedule)@)),
        retimed(timetable(old(schedule)@), timetable(final(schedule)@)),
        final(schedule)@.len() == old(schedule)@.len(),
        isolated_step(*d, timetable(old(schedule)@), timetable(final(schedule)@), improved),
{
    let ghost p0 = timetable(schedule@);
    let n = schedule.len();
    let mut i: usize = 0;
    while i < n
        invariant
            i <= n,
            n == schedule@.len(),
            n == old(schedule)@.len(),
            p0 == timetable(old(schedule)@),
            timetable(schedule@) == p0,
            plannable(*d, p0),
            forall|x: int, j: int, ti2: int| x < i ==> !#[trigger] handover(*d, p0, x, j, ti2),
            forall|x: int, di2: int, m: int| x < i ==> !#[trigger] relocation(*d, p0, x, di2, m),
        decreases n - i,
    {
        let c = count_matching(
            schedule,
            None,
            Some(schedule[i].teacher_id),
            None,
            Some(schedule[i].day.as_str()),
            None,
        );
        if c == 1 {
            if try_handover(schedule, d, i) {
                proof {
                    lemma_handover_found(*d, p0, timetable(schedule@), i as int);
                }
                return true;
            }
            if try_relocation(schedule, d, i) {
                proof {
                    lemma_relocation_found(*d, p0, timetable(schedule@), i as int);
                }
                return true;
            }
        }
        i += 1;
    }
    proof {
        lemma_isolated_none(*d, p0);
    }
    false
}

/// Lesson `k` is the first lesson, in schedule order, of its group,
/// subject and day.
pub open spec fn leads_run(p: Seq<Placement>, k: int) -> bool {
    forall|j: int| 0 <= j < k ==> !same_run(#[trigger] p[j], p[k])
}

/// How many different subjects the group has on the day, among the first
/// `k` lessons.
pub open spec fn kinds_upto(p: Seq<Placement>, g: i16, day: Seq<char>, k: int) -> nat
    decreases k,
{
    if k <= 0 {
        0
    } else {
        kinds_upto(p, g, day, k - 1) + if p[k - 1].group_id == g && p[k - 1].day == day
            && leads_run(p, k - 1) {
            1nat
        } else {
            0nat
        }
    }
}

/// How many different subjects the group has on the day.
pub open spec fn subject_kinds(p: Seq<Placement>, g: i16, day: Seq<char>) -> nat {
    kinds_upto(p, g, day, p.len() as int)
}

/// How many different subjects the group has on the day.
pub fn count_subject_kinds(schedule: &Vec<Assignment>, group_id: i16, day: &str) -> (n: usize)
    ensures
        n == subject_kinds(timetable(schedule@), group_id, day@),
{
    let ghost tt = timetable(schedule@);
    let mut n: usize = 0;
    let mut k: usize = 0;
    while k < schedule.len()
        invariant
            k <= schedule.len(),
            tt == timetable(schedule@),
            n == kinds_upto(tt, group_id, day@, k as int),
            n <= k,
        decreases schedule.len() - k,
    {
        let mut first = false;
        if schedule[k].group_id == group_id && same_text(schedule[k].day.as_str(), day) {
            first = true;
            let mut j: usize = 0;
            while j < k && first
                invariant
                    j <= k,
                    k < schedule.len(),
                    tt == timetable(schedule@),
                    first ==> forall|x: int| 0 <= x < j ==> !same_run(#[trigger] tt[x], tt[k as int]),
                    !first ==> !leads_run(tt, k as int),
                decreases k - j + (if first { 1int } else { 0int }),
            {
                if schedule[j].group_id == schedule[k].group_id && schedule[j].subject_id
                    == schedule[k].subject_id && same_text(
                    schedule[j].day.as_str(),
                    schedule[k].day.as_str(),
                ) {
                    assert(same_run(tt[j as int], tt[k as int]));
                    first = false;
                } else {
                    j += 1;
                }
            }
        }
        if first {
            n += 1;
        }
        k += 1;
    }
    n
}

/// The other lesson of the block of lesson `i`, where it has one.
pub open spec fn partner_of(p: Seq<Placement>, i: int) -> int {
    choose|k: int| 0 <= k < p.len() && k != i && same_run(p[i], #[trigger] p[k])
}

/// The timetable after the block of lesson `i` has moved to `day2`, lesson
/// `i` to module `m` and its partner, if it has one, as far from it as
/// before.
pub open spec fn spread_result(p: Seq<Placement>, i: int, day2: Seq<char>, m: int) -> Seq<
    Placement,
> {
    if paired(p, i) {
        let k = partner_of(p, i);
        p.update(i, moved_to(p[i], day2, m)).update(
            k,
            moved_to(p[k], day2, m + p[k].module_index - p[i].module_index),
        )
    } else {
        p.update(i, moved_to(p[i], day2, m))
    }
}

/// The group of lesson `i` has more than three subjects on the day of the
/// lesson and fewer than two on day `di2`, and moving the block of the
/// lesson there, lesson `i` to module `m`, keeps the schedule valid.
pub open spec fn spread(d: Domain, p: Seq<Placement>, i: int, di2: int, m: int) -> bool {
    &&& 0 <= i < p.len()
    &&& subject_kinds(p, p[i].group_id, p[i].day) > 3
    &&& 0 <= di2 < d.days@.len()
    &&& d.days@[di2]@ != p[i].day
    &&& subject_kinds(p, p[i].group_id, d.days@[di2]@) < 2
    &&& 1 <= m <= d.modules_per_day
    &&& schedule_valid(d, spread_result(p, i, d.days@[di2]@, m))
}

/// The slot is the first to which the block of lesson `i` can move: no
/// earlier day takes it, and on the day no earlier module.
pub open spec fn first_day_for_block(d: Domain, p: Seq<Placement>, i: int, di2: int, m: int) -> bool {
    &&& forall|d2: int, m2: int| d2 < di2 ==> !#[trigger] spread(d, p, i, d2, m2)
    &&& forall|m2: int| m2 < m ==> !#[trigger] spread(d, p, i, di2, m2)
}

/// In a valid timetable a lesson has at most one partner, in the module
/// before or after it.
proof fn lemma_partner(d: Domain, p: Seq<Placement>, i: int, k: int)
    requires
        plannable(d, p),
        0 <= i < p.len(),
        0 <= k < p.len(),
        k != i,
        same_run(p[i], p[k]),
    ensures
        paired(p, i),
        partner_of(p, i) == k,
        -1 <= p[k].module_index - p[i].module_index <= 1,
{
    assert(crate::invariants::blocks_shaped(p) && crate::invariants::slots_unique(
        p,
        Resource::Group,
    )) by {
        reveal(plannable);
    }
    lemma_one_partner(p, i, k, partner_of(p, i));
}

proof fn lemma_one_partner(p: Seq<Placement>, i: int, k: int, x: int)
    requires
        crate::invariants::blocks_shaped(p),
        crate::invariants::slots_unique(p, Resource::Group),
        0 <= i < p.len(),
        0 <= k < p.len(),
        k != i,
        same_run(p[i], p[k]),
        0 <= x < p.len() && x != i && same_run(p[i], p[x]),
    ensures
        x == k,
        -1 <= p[k].module_index - p[i].module_index <= 1,
{
    assert(-1 <= p[i].module_index - p[k].module_index <= 1);
    if x != k {
        assert(same_run(p[x], p[k]));
        assert(-1 <= p[x].module_index - p[k].module_index <= 1);
        assert(-1 <= p[i].module_index - p[x].module_index <= 1);
        if i < x {
            assert(!crate::invariants::same_slot(p[i], p[x]));
        } else {
            assert(!crate::invariants::same_slot(p[x], p[i]));
        }
        if i < k {
            assert(!crate::invariants::same_slot(p[i], p[k]));
        } else {
            assert(!crate::invariants::same_slot(p[k], p[i]));
        }
        if x < k {
            assert(!crate::invariants::same_slot(p[x], p[k]));
        } else {
            assert(!crate::invariants::same_slot(p[k], p[x]));
        }
        assert(false);
    }
}

proof fn lemma_module_range(d: Domain, p: Seq<Placement>, i: int)
    requires
        plannable(d, p),
        0 <= i < p.len(),
    ensures
        1 <= p[i].module_index <= d.modules_per_day <= 1000,
{
    reveal(plannable);
}

/// Replaces lessons `i` and `k` by `a` and `b` where the schedule stays
/// valid, and leaves the timetable as it was where it would not.
pub fn try_replace_two(
    schedule: &mut Vec<Assignment>,
    d: &Domain,
    i: usize,
    a: Assignment,
    k: usize,
    b: Assignment,
) -> (ok: bool)
    requires
        plannable(*d, timetable(old(schedule)@)),
        i < old(schedule)@.len(),
        k < old(schedule)@.len(),
        i != k,
    ensures
        final(schedule)@.len() == old(schedule)@.len(),
        ok == schedule_valid(
            *d,
            timetable(old(schedule)@).update(i as int, a@).update(k as int, b@),
        ),
        ok ==> timetable(final(schedule)@) == timetable(old(schedule)@).update(
            i as int,
            a@,
        ).update(k as int, b@),
        !ok ==> timetable(final(schedule)@) == timetable(old(schedule)@),
        plannable(*d, timetable(final(schedule)@)),
{
    let ghost s0 = schedule@;
    let ghost p0 = timetable(schedule@);
    proof {
        reveal(plannable);
    }
    let saved_i = schedule[i].duplicate();
    let saved_k = schedule[k].duplicate();
    schedule[i] = a;
    schedule[k] = b;
    proof {
        assert(schedule@ =~= s0.update(i as int, a).update(k as int, b));
        lemma_timetable_update(s0, i as int, a);
        lemma_timetable_update(s0.update(i as int, a), k as int, b);
    }
    if check_schedule(schedule, d) {
        return true;
    }
    let ghost s1 = schedule@;
    schedule[i] = saved_i;
    schedule[k] = saved_k;
    proof {
        assert(schedule@ =~= s1.update(i as int, saved_i).update(k as int, saved_k));
        lemma_timetable_update(s1, i as int, saved_i);
        lemma_timetable_update(s1.update(i as int, saved_i), k as int, saved_k);
        assert(timetable(schedule@) =~= p0);
    }
    false
}

fn find_partner(schedule: &Vec<Assignment>, i: usize) -> (r: Option<usize>)
    requires
        i < schedule.len(),
    ensures
        match r {
            Some(k) => k < schedule.len() && k != i && same_run(
                timetable(schedule@)[i as int],
                timetable(schedule@)[k as int],
            ),
            None => !paired(timetable(schedule@), i as int),
        },
{
    let ghost tt = timetable(schedule@);
    let mut k: usize = 0;
    while k < schedule.len()
        invariant
            k <= schedule.len(),
            i < schedule.len(),
            tt == timetable(schedule@),
            forall|x: int| 0 <= x < k && x != i ==> !same_run(tt[i as int], #[trigger] tt[x]),
        decreases schedule.len() - k,
    {
        if k != i && schedule[k].group_id == schedule[i].group_id && schedule[k].subject_id
            == schedule[i].subject_id {
            if same_text(schedule[k].day.as_str(), schedule[i].day.as_str()) {
                return Some(k);
            }
        }
        k += 1;
    }
    None
}

/// The partner of lesson `i` is `partner`: the one other lesson of its
/// block, a module before or after it, or none.
pub open spec fn partner_is(p: Seq<Placement>, i: int, partner: Option<usize>) -> bool {
    match partner {
        Some(k) => k < p.len() && k != i && paired(p, i) && partner_of(p, i) == k && -1
            <= p[k as int].module_index - p[i].module_index <= 1,
        None => !paired(p, i),
    }
}

#[verifier::rlimit(40)]
fn try_spread_at(
    schedule: &mut Vec<Assignment>,
    d: &Domain,
    i: usize,
    di2: usize,
    m: i16,
    partner: Option<usize>,
) -> (ok: bool)
    requires
        plannable(*d, timetable(old(schedule)@)),
        i < old(schedule)@.len(),
        di2 < d.days.len(),
        1 <= m <= d.modules_per_day <= 1000,
        partner_is(timetable(old(schedule)@), i as int, partner),
    ensures
        plannable(*d, timetable(final(schedule)@)),
        final(schedule)@.len() == old(schedule)@.len(),
        ok == schedule_valid(
            *d,
            spread_result(timetable(old(schedule)@), i as int, d.days@[di2 as int]@, m as int),
        ),
        ok ==> timetable(final(schedule)@) == spread_result(
            timetable(old(schedule)@),
            i as int,
            d.days@[di2 as int]@,
            m as int,
        ),
        !ok ==> timetable(final(schedule)@) == timetable(old(schedule)@),
{
    let ghost p0 = timetable(schedule@);
    let mut a = schedule[i].duplicate();
    a.day = d.days[di2].clone();
    a.module_index = m;
    proof {
        assert(a@ == moved_to(p0[i as int], d.days@[di2 as int]@, m as int));
    }
    match partner {
        Some(k) => {
            let off = schedule[k].module_index as i32 - schedule[i].module_index as i32;
            let mut b = schedule[k].duplicate();
            b.day = d.days[di2].clone();
            b.module_index = (m as i32 + off) as i16;
            proof {
                assert(b@ == moved_to(
                    p0[k as int],
                    d.days@[di2 as int]@,
                    m + p0[k as int].module_index - p0[i as int].module_index,
                ));
            }
            try_replace_two(schedule, d, i, a, k, b)
        },
        None => try_replace(schedule, d, i, a),
    }
}

#[verifier::rlimit(40)]
fn try_spread_on(schedule: &mut Vec<Assignment>, d: &Domain, i: usize, di2: usize) -> (ok: bool)
    requires
        plannable(*d, timetable(old(schedule)@)),
        i < old(schedule)@.len(),
        di2 < d.days.len(),
        subject_kinds(
            timetable(old(schedule)@),
            timetable(old(schedule)@)[i as int].group_id,
            timetable(old(schedule)@)[i as int].day,
        ) > 3,
        d.days@[di2 as int]@ != timetable(old(schedule)@)[i as int].day,
        subject_kinds(
            timetable(old(schedule)@),
            timetable(old(schedule)@)[i as int].group_id,
            d.days@[di2 as int]@,
        ) < 2,
    ensures
        plannable(*d, timetable(final(schedule)@)),
        final(schedule)@.len() == old(schedule)@.len(),
        ok ==> exists|m: int|
            #![trigger spread(*d, timetable(old(schedule)@), i as int, di2 as int, m)]
            spread(*d, timetable(old(schedule)@), i as int, di2 as int, m) && timetable(
                final(schedule)@,
            ) == spread_result(timetable(old(schedule)@), i as int, d.days@[di2 as int]@, m)
                && forall|m2: int|
                m2 < m ==> !#[trigger] spread(
                    *d,
                    timetable(old(schedule)@),
                    i as int,
                    di2 as int,
                    m2,
                ),
        !ok ==> timetable(final(schedule)@) == timetable(old(schedule)@) && forall|m: int|
            !#[trigger] spread(*d, timetable(old(schedule)@), i as int, di2 as int, m),
{
    let ghost p0 = timetable(schedule@);
    let partner = find_partner(schedule, i);
    proof {
        lemma_module_range(*d, p0, i as int);
        match partner {
            Some(k) => {
                lemma_partner(*d, p0, i as int, k as int);
            },
            None => {},
        }
    }
    let mut m: i16 = 1;
    while m <= d.modules_per_day
        invariant
            1 <= m <= d.modules_per_day + 1,
            d.modules_per_day <= 1000,
            i < schedule@.len(),
            di2 < d.days.len(),
            schedule@.len() == old(schedule)@.len(),
            p0 == timetable(old(schedule)@),
            timetable(schedule@) == p0,
            plannable(*d, p0),
            subject_kinds(p0, p0[i as int].group_id, p0[i as int].day) > 3,
            d.days@[di2 as int]@ != p0[i as int].day,
            subject_kinds(p0, p0[i as int].group_id, d.days@[di2 as int]@) < 2,
            partner_is(p0, i as int, partner),
            forall|x: int| x < m ==> !#[trigger] spread(*d, p0, i as int, di2 as int, x),
        decreases d.modules_per_day + 1 - m,
    {
        let ok = try_spread_at(schedule, d, i, di2, m, partner);
        if ok {
            proof {
                assert(spread(*d, p0, i as int, di2 as int, m as int));
            }
            return true;
        }
        m = m + 1;
    }
    false
}

#[verifier::rlimit(40)]
fn try_spread(schedule: &mut Vec<Assignment>, d: &Domain, i: usize) -> (ok: bool)
    requires
        plannable(*d, timetable(old(schedule)@)),
        i < old(schedule)@.len(),
        subject_kinds(
            timetable(old(schedule)@),
            timetable(old(schedule)@)[i as int].group_id,
            timetable(old(schedule)@)[i as int].day,
        ) > 3,
    ensures
        plannable(*d, timetable(final(schedule)@)),
        final(schedule)@.len() == old(schedule)@.len(),
        ok ==> exists|di2: int, m: int|
            #![trigger spread(*d, timetable(old(schedule)@), i as int, di2, m)]
            spread(*d, timetable(old(schedule)@), i as int, di2, m) && timetable(
                final(schedule)@,
            ) == spread_result(timetable(old(schedule)@), i as int, d.days@[di2]@, m)
                && first_day_for_block(*d, timetable(old(schedule)@), i as int, di2, m),
        !ok ==> timetable(final(schedule)@) == timetable(old(schedule)@) && forall|
            di2: int,
            m: int,
        | !#[trigger] spread(*d, timetable(old(schedule)@), i as int, di2, m),
{
    let ghost p0 = timetable(schedule@);
    let mut di2: usize = 0;
    while di2 < d.days.len()
        invariant
            di2 <= d.days.len(),
            i < schedule@.len(),
            schedule@.len() == old(schedule)@.len(),
            p0 == timetable(old(schedule)@),
            timetable(schedule@) == p0,
            plannable(*d, p0),
            subject_kinds(p0, p0[i as int].group_id, p0[i as int].day) > 3,
            forall|x: int, m: int| x < di2 ==> !#[trigger] spread(*d, p0, i as int, x, m),
        decreases d.days.len() - di2,
    {
        if !same_text(d.days[di2].as_str(), schedule[i].day.as_str()) {
            let kinds = count_subject_kinds(schedule, schedule[i].group_id, d.days[di2].as_str());
            if kinds < 2 {
                if try_spread_on(schedule, d, i, di2) {
                    return true;
                }
            }
        }
        di2 += 1;
    }
    false
}

/// Group subject spread: for the first lesson, in schedule order, whose
/// group has more than three subjects on the lesson's day, moves the
/// whole block of the lesson to a day on which the group has fewer than
/// two subjects, provided the schedule stays valid.  The block moves as a
/// whole or not at all.
#[verifier::rlimit(40)]
pub fn optimize_group_subject_distribution(schedule: &mut Vec<Assignment>, d: &Domain) -> (improved:
    bool)
    requires
        plannable(*d, timetable(old(schedule)@)),
    ensures
        plannable(*d, timetable(final(schedule)@)),
        retimed(timetable(old(schedule)@), timetable(final(schedule)@)),
        final(schedule)@.len() == old(schedule)@.len(),
        spread_step(*d, timetable(old(schedule)@), timetable(final(schedule)@), improved),
{
    let ghost p0 = timetable(schedule@);
    let n = schedule.len();
    let mut i: usize = 0;
    while i < n
        invariant
            i <= n,
            n == schedule@.len(),
            n == old(schedule)@.len(),
            p0 == timetable(old(schedule)@),
            timetable(schedule@) == p0,
            plannable(*d, p0),
            forall|x: int, di2: int, m: int| x < i ==> !#[trigger] spread(*d, p0, x, di2, m),
        decreases n - i,
    {
        let kinds = count_subject_kinds(schedule, schedule[i].group_id, schedule[i].day.as_str());
        if kinds > 3 {
            if try_spread(schedule, d, i) {
                proof {
                    lemma_spread_found(*d, p0, timetable(schedule@), i as int);
                }
                return true;
            }
        }
        i += 1;
    }
    proof {
        lemma_spread_none(*d, p0);
    }
    false
}

/// What early-module compaction does to a timetable: it applies the first
/// compaction, in schedule order, or leaves the timetable as it is where
/// there is none.
#[verifier::opaque]
pub open spec fn compaction_step(d: Domain, p: Seq<Placement>, q: Seq<Placement>, improved: bool) -> bool {
    &&& improved ==> exists|i: int, m: int|
        #![trigger compaction(d, p, i, m)]
        compaction(d, p, i, m) && q == p.update(i, at_module(p[i], m)) && forall|i2: int, m2: int|
            i2 < i ==> !#[trigger] compaction(d, p, i2, m2)
    &&& !improved ==> q == p && forall|i: int, m: int| !#[trigger] compaction(d, p, i, m)
}

/// What room consolidation does to a timetable: it applies the first
/// consolidation, in schedule order, or leaves the timetable as it is
/// where there is none.
#[verifier::opaque]
pub open spec fn consolidation_step(
    d: Domain,
    p: Seq<Placement>,
    q: Seq<Placement>,
    improved: bool,
) -> bool {
    &&& improved ==> exists|i: int, r: i16|
        #![trigger consolidation(d, p, i, r)]
        consolidation(d, p, i, r) && q == p.update(i, in_room(p[i], r)) && forall|
            i2: int,
            r2: i16,
        | i2 < i ==> !#[trigger] consolidation(d, p, i2, r2)
    &&& !improved ==> q == p && forall|i: int, r: i16| !#[trigger] consolidation(d, p, i, r)
}

/// What isolated-module elimination does to a timetable: for the first
/// isolated lesson that admits one, it applies the first handover, or
/// where the lesson admits none the first relocation; it leaves the
/// timetable as it is where no isolated lesson admits either.
#[verifier::opaque]
pub open spec fn isolated_step(d: Domain, p: Seq<Placement>, q: Seq<Placement>, improved: bool) -> bool {
    &&& improved ==> (exists|i: int, j: int, ti2: int|
        #![trigger handover(d, p, i, j, ti2)]
        handover(d, p, i, j, ti2) && q == p.update(
            j,
            with_teacher(p[j], d.teachers@[ti2].id.unwrap()),
        ) && none_before(d, p, i) && first_for_lesson(d, p, i, j, ti2)) || (exists|
        i: int,
        di2: int,
        m: int,
    |
        #![trigger relocation(d, p, i, di2, m)]
        relocation(d, p, i, di2, m) && q == p.update(i, moved_to(p[i], d.days@[di2]@, m))
            && none_before(d, p, i) && no_handover_of(d, p, i) && first_slot_for_lesson(
            d,
            p,
            i,
            di2,
            m,
        ))
    &&& !improved ==> q == p && (forall|i: int, j: int, ti2: int|
        !#[trigger] handover(d, p, i, j, ti2)) && (forall|i: int, di2: int, m: int|
        !#[trigger] relocation(d, p, i, di2, m))
}

/// What subject spread does to a timetable: it applies the first spread,
/// by lesson, then day, then module, or leaves the timetable as it is
/// where there is none.
#[verifier::opaque]
pub open spec fn spread_step(d: Domain, p: Seq<Placement>, q: Seq<Placement>, improved: bool) -> bool {
    &&& improved ==> exists|i: int, di2: int, m: int|
        #![trigger spread(d, p, i, di2, m)]
        spread(d, p, i, di2, m) && q == spread_result(p, i, d.days@[di2]@, m) && (forall|
            x: int,
            d2: int,
            m2: int,
        | x < i ==> !#[trigger] spread(d, p, x, d2, m2)) && first_day_for_block(d, p, i, di2, m)
    &&& !improved ==> q == p && forall|i: int, di2: int, m: int|
        !#[trigger] spread(d, p, i, di2, m)
}

proof fn lemma_compaction_found(d: Domain, p: Seq<Placement>, q: Seq<Placement>, i: int, m: int)
    requires
        compaction(d, p, i, m),
        q == p.update(i, at_module(p[i], m)),
        forall|i2: int, m2: int| i2 < i ==> !#[trigger] compaction(d, p, i2, m2),
    ensures
        compaction_step(d, p, q, true),
{
    reveal(compaction_step);
}

proof fn lemma_compaction_none(d: Domain, p: Seq<Placement>)
    requires
        forall|i: int, m: int| i < p.len() ==> !#[trigger] compaction(d, p, i, m),
    ensures
        compaction_step(d, p, p, false),
{
    reveal(compaction_step);
}

proof fn lemma_consolidation_found(d: Domain, p: Seq<Placement>, q: Seq<Placement>, i: int, r: i16)
    requires
        consolidation(d, p, i, r),
        q == p.update(i, in_room(p[i], r)),
        forall|i2: int, r2: i16| i2 < i ==> !#[trigger] consolidation(d, p, i2, r2),
    ensures
        consolidation_step(d, p, q, true),
{
    reveal(consolidation_step);
}

proof fn lemma_consolidation_none(d: Domain, p: Seq<Placement>)
    requires
        forall|i: int, r: i16| i < p.len() ==> !#[trigger] consolidation(d, p, i, r),
    ensures
        consolidation_step(d, p, p, false),
{
    reveal(consolidation_step);
}

proof fn lemma_handover_found(d: Domain, p: Seq<Placement>, q: Seq<Placement>, i: int)
    requires
        none_before(d, p, i),
        exists|j: int, ti2: int|
            #![trigger handover(d, p, i, j, ti2)]
            handover(d, p, i, j, ti2) && q == p.update(
                j,
                with_teacher(p[j], d.teachers@[ti2].id.unwrap()),
            ) && first_for_lesson(d, p, i, j, ti2),
    ensures
        isolated_step(d, p, q, true),
{
    reveal(isolated_step);
}

proof fn lemma_relocation_found(d: Domain, p: Seq<Placement>, q: Seq<Placement>, i: int)
    requires
        none_before(d, p, i),
        no_handover_of(d, p, i),
        exists|di2: int, m: int|
            #![trigger relocation(d, p, i, di2, m)]
            relocation(d, p, i, di2, m) && q == p.update(i, moved_to(p[i], d.days@[di2]@, m))
                && first_slot_for_lesson(d, p, i, di2, m),
    ensures
        isolated_step(d, p, q, true),
{
    reveal(isolated_step);
}

proof fn lemma_isolated_none(d: Domain, p: Seq<Placement>)
    requires
        none_before(d, p, p.len() as int),
    ensures
        isolated_step(d, p, p, false),
{
    reveal(isolated_step);
}

proof fn lemma_spread_found(d: Domain, p: Seq<Placement>, q: Seq<Placement>, i: int)
    requires
        forall|x: int, d2: int, m2: int| x < i ==> !#[trigger] spread(d, p, x, d2, m2),
        exists|di2: int, m: int|
            #![trigger spread(d, p, i, di2, m)]
            spread(d, p, i, di2, m) && q == spread_result(p, i, d.days@[di2]@, m)
                && first_day_for_block(d, p, i, di2, m),
    ensures
        spread_step(d, p, q, true),
{
    reveal(spread_step);
}

proof fn lemma_spread_none(d: Domain, p: Seq<Placement>)
    requires
        forall|x: int, d2: int, m2: int| x < p.len() ==> !#[trigger] spread(d, p, x, d2, m2),
    ensures
        spread_step(d, p, p, false),
{
    reveal(spread_step);
}

/// One round of the optimizer: the four passes, one after the other.
#[verifier::opaque]
pub open spec fn round_of(d: Domain, p: Seq<Placement>, q: Seq<Placement>, improved: bool) -> bool {
    exists|a: Seq<Placement>, b: Seq<Placement>, c: Seq<Placement>, f: (bool, bool, bool, bool)|
        #![trigger isolated_step(d, p, a, f.0), spread_step(d, a, b, f.1), compaction_step(d, b, c, f.2), consolidation_step(d, c, q, f.3)]
        isolated_step(d, p, a, f.0) && spread_step(d, a, b, f.1) && compaction_step(d, b, c, f.2)
            && consolidation_step(d, c, q, f.3) && improved == (f.0 || f.1 || f.2 || f.3)
}

/// At most `n` rounds of the optimizer lead from `p` to `q`: rounds go on
/// while they change something, and `settled` tells whether the last one
/// changed nothing.
pub open spec fn rounds_of(d: Domain, p: Seq<Placement>, q: Seq<Placement>, n: nat, settled: bool) -> bool
    decreases n,
{
    if n == 0 {
        q == p && !settled
    } else {
        exists|mid: Seq<Placement>, improved: bool|
            #![trigger round_of(d, p, mid, improved)]
            round_of(d, p, mid, improved) && if improved {
                rounds_of(d, mid, q, (n - 1) as nat, settled)
            } else {
                q == mid && settled
            }
    }
}

/// Rounds after which the optimizer stops even if it still finds changes.
pub const MAX_OPTIMIZER_ROUNDS: usize = 1000;

/// No pass of the optimizer finds a change that keeps the schedule valid.
pub open spec fn no_improvement(d: Domain, p: Seq<Placement>) -> bool {
    &&& forall|i: int, j: int, ti2: int| !#[trigger] handover(d, p, i, j, ti2)
    &&& forall|i: int, di2: int, m: int| !#[trigger] relocation(d, p, i, di2, m)
    &&& forall|i: int, di2: int, m: int| !#[trigger] spread(d, p, i, di2, m)
    &&& forall|i: int, m: int| !#[trigger] compaction(d, p, i, m)
    &&& forall|i: int, r: i16| !#[trigger] consolidation(d, p, i, r)
}

/// Runs the four passes, round after round, until a round changes nothing
/// or the cap on rounds is reached.  Returns whether the last round
/// changed nothing.
#[verifier::rlimit(40)]
pub fn optimize_schedule(schedule: &mut Vec<Assignment>, d: &Domain) -> (settled: bool)
    requires
        plannable(*d, timetable(old(schedule)@)),
    ensures
        plannable(*d, timetable(final(schedule)@)),
        retimed(timetable(old(schedule)@), timetable(final(schedule)@)),
        final(schedule)@.len() == old(schedule)@.len(),
        rounds_of(
            *d,
            timetable(old(schedule)@),
            timetable(final(schedule)@),
            MAX_OPTIMIZER_ROUNDS as nat,
            settled,
        ),
        settled ==> no_improvement(*d, timetable(final(schedule)@)),
{
    let ghost start = timetable(schedule@);
    let ghost mut left: nat = MAX_OPTIMIZER_ROUNDS as nat;
    let mut rounds: usize = 0;
    while rounds < MAX_OPTIMIZER_ROUNDS
        invariant
            rounds <= MAX_OPTIMIZER_ROUNDS,
            left == MAX_OPTIMIZER_ROUNDS - rounds,
            start == timetable(old(schedule)@),
            schedule@.len() == old(schedule)@.len(),
            plannable(*d, timetable(schedule@)),
            retimed(start, timetable(schedule@)),
            forall|q: Seq<Placement>, st: bool|
                #[trigger] rounds_of(*d, timetable(schedule@), q, left, st) ==> rounds_of(
                    *d,
                    start,
                    q,
                    MAX_OPTIMIZER_ROUNDS as nat,
                    st,
                ),
        decreases MAX_OPTIMIZER_ROUNDS - rounds,
    {
        let ghost at_start = timetable(schedule@);
        let a = optimize_teacher_isolated_modules(schedule, d);
        let ghost after_isolated = timetable(schedule@);
        let b = optimize_group_subject_distribution(schedule, d);
        let ghost after_spread = timetable(schedule@);
        let c = optimize_early_modules(schedule, d);
        let ghost after_compaction = timetable(schedule@);
        let e = optimize_classroom_usage(schedule, d);
        let ghost at_end = timetable(schedule@);
        let improved = a || b || c || e;
        proof {
            lemma_retimed_chain(start, at_start, after_isolated);
            lemma_retimed_chain(start, after_isolated, after_spread);
            lemma_retimed_chain(start, after_spread, after_compaction);
            lemma_retimed_chain(start, after_compaction, at_end);
            lemma_round(
                *d,
                at_start,
                after_isolated,
                after_spread,
                after_compaction,
                at_end,
                (a, b, c, e),
            );
            if improved {
                lemma_round_goes_on(*d, start, at_start, at_end, left, MAX_OPTIMIZER_ROUNDS as nat);
                left = (left - 1) as nat;
            } else {
                lemma_round_settles(*d, at_start, at_end, left);
                lemma_nothing_found(
                    *d,
                    at_start,
                    after_isolated,
                    after_spread,
                    after_compaction,
                    at_end,
                );
            }
        }
        if !improved {
            return true;
        }
        rounds += 1;
    }
    proof {
        assert(rounds_of(*d, timetable(schedule@), timetable(schedule@), left, false));
    }
    false
}

proof fn lemma_round(
    d: Domain,
    p: Seq<Placement>,
    a: Seq<Placement>,
    b: Seq<Placement>,
    c: Seq<Placement>,
    q: Seq<Placement>,
    f: (bool, bool, bool, bool),
)
    requires
        isolated_step(d, p, a, f.0),
        spread_step(d, a, b, f.1),
        compaction_step(d, b, c, f.2),
        consolidation_step(d, c, q, f.3),
    ensures
        round_of(d, p, q, f.0 || f.1 || f.2 || f.3),
{
    reveal(round_of);
}

proof fn lemma_nothing_found(
    d: Domain,
    p: Seq<Placement>,
    a: Seq<Placement>,
    b: Seq<Placement>,
    c: Seq<Placement>,
    q: Seq<Placement>,
)
    requires
        isolated_step(d, p, a, false),
        spread_step(d, a, b, false),
        compaction_step(d, b, c, false),
        consolidation_step(d, c, q, false),
    ensures
        q == p,
        no_improvement(d, q),
{
    reveal(isolated_step);
    reveal(spread_step);
    reveal(compaction_step);
    reveal(consolidation_step);
}

proof fn lemma_round_goes_on(
    d: Domain,
    start: Seq<Placement>,
    cur: Seq<Placement>,
    next: Seq<Placement>,
    left: nat,
    total: nat,
)
    requires
        left >= 1,
        round_of(d, cur, next, true),
        forall|q: Seq<Placement>, st: bool| #[trigger]
            rounds_of(d, cur, q, left, st) ==> rounds_of(d, start, q, total, st),
    ensures
        forall|q: Seq<Placement>, st: bool| #[trigger]
            rounds_of(d, next, q, (left - 1) as nat, st) ==> rounds_of(d, start, q, total, st),
{
    assert forall|q: Seq<Placement>, st: bool| #[trigger]
        rounds_of(d, next, q, (left - 1) as nat, st) implies rounds_of(
        d,
        start,
        q,
        total,
        st,
    ) by {
        assert(rounds_of(d, cur, q, left, st));
    }
}

proof fn lemma_round_settles(d: Domain, cur: Seq<Placement>, next: Seq<Placement>, left: nat)
    requires
        left >= 1,
        round_of(d, cur, next, false),
    ensures
        rounds_of(d, cur, next, left, true),
{
}

/// Lessons retimed twice are retimed.
pub proof fn lemma_retimed_chain(p: Seq<Placement>, q: Seq<Placement>, r: Seq<Placement>)
    requires
        retimed(p, q),
        retimed(q, r),
    ensures
        retimed(p, r),
{
    assert forall|j: int| 0 <= j < p.len() implies #[trigger] r[j] == (Placement {
        day: r[j].day,
        module_index: r[j].module_index,
        teacher_id: r[j].teacher_id,
        classroom_id: r[j].classroom_id,
        ..p[j]
    }) by {
        assert(q[j] == (Placement {
            day: q[j].day,
            module_index: q[j].module_index,
            teacher_id: q[j].teacher_id,
            classroom_id: q[j].classroom_id,
            ..p[j]
        }));
    }
}

/// Retiming changes no count of a group's lessons of a subject.
pub proof fn lemma_retimed_counts(p: Seq<Placement>, q: Seq<Placement>, g: i16, u: i16)
    requires
        retimed(p, q),
    ensures
        count_of(q, crate::availability::of_group_subject(g, u)) == count_of(
            p,
            crate::availability::of_group_subject(g, u),
        ),
{
    let sel = crate::availability::of_group_subject(g, u);
    assert forall|j: int| 0 <= j < q.len() implies crate::availability::selects(
        sel,
        #[trigger] q[j],
    ) == crate::availability::selects(sel, p[j]) by {
        assert(q[j] == (Placement {
            day: q[j].day,
            module_index: q[j].module_index,
            teacher_id: q[j].teacher_id,
            classroom_id: q[j].classroom_id,
            ..p[j]
        }));
    }
    crate::availability::lemma_count_same(q, p, sel);
}

} // verus!
