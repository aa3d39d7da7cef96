//! The classroom assigner: the rooms that suit a lesson, their scores, and
//! the assignment of the best room to every lesson of a timetable.

use crate::availability::{count_of, lemma_count_same, lemma_timetable_update, selects, Resource, Selector, key_of};
use crate::invariants::{
    blocks_shaped, domain_wf, group_caps_kept, has_day, has_group, has_subject, one_single_each,
    paired, placements_known, plannable, qualified, room_fits, room_ok, rooms_suitable, same_run,
    same_slot, singles_complete, slots_unique, teacher_loads_kept,
    teachers_qualified, teaching_valid,
};
use crate::model::{
    Assignment, Classroom, Domain, Group, Placement, PlanningError, SubjectWithTeacher, timetable,
};
use crate::text::{contains_text, is_substring, same_text};
use vstd::prelude::*;

verus! {

/// Points for a room that the group already uses on the day.
pub const SAME_ROOM_POINTS: i32 = 200;

/// Points for a room in the building where the group has its lesson of
/// the module before.
pub const SAME_BUILDING_POINTS: i32 = 100;

/// Points for a room of the type that the subject needs.
pub const SPECIALIZED_POINTS: i32 = 150;

/// The index of the group with this identifier.
pub open spec fn group_index(d: Domain, id: i16) -> int {
    choose|gi: int| 0 <= gi < d.groups@.len() && (#[trigger] d.groups@[gi]).id == Some(id)
}

/// The index of the subject with this identifier.
pub open spec fn subject_index(d: Domain, id: i16) -> int {
    choose|ui: int| 0 <= ui < d.subjects@.len() && (#[trigger] d.subjects@[ui]).id == id
}

/// The building of a room, as text.
pub open spec fn building_of(c: Classroom) -> Option<Seq<char>> {
    match c.building_id {
        Some(b) => Some(b@),
        None => None,
    }
}

/// No other lesson uses room `rid` in the slot of lesson `i`.
pub open spec fn room_free_for(p: Seq<Placement>, i: int, rid: i16) -> bool {
    forall|j: int|
        0 <= j < p.len() && j != i ==> !((#[trigger] p[j]).classroom_id == rid && same_slot(
            p[j],
            p[i],
        ))
}

/// Room `ri` suits lesson `i`: it is identified, free in the slot, and
/// fits the group, the slot and the subject.
pub open spec fn suitable_room(d: Domain, p: Seq<Placement>, i: int, ri: int) -> bool {
    let room = d.classrooms@[ri];
    &&& 0 <= ri < d.classrooms@.len()
    &&& room.id is Some
    &&& room_free_for(p, i, room.id.unwrap())
    &&& room_fits(
        room,
        d.groups@[group_index(d, p[i].group_id)],
        d.subjects@[subject_index(d, p[i].subject_id)],
        p[i].day,
        p[i].module_index as int,
    )
}

/// How close the room's capacity is to the size of the group.
pub open spec fn capacity_fit(room: Classroom, group: Group) -> int {
    match (room.capacity, group.students) {
        (Some(c), Some(n)) => if c >= n {
            100 - (c - n)
        } else {
            100 - (n - c)
        },
        _ => 0,
    }
}

/// The group of lesson `i` has a lesson in room `rid` on the day.
pub open spec fn room_used_that_day(p: Seq<Placement>, i: int, rid: i16) -> bool {
    exists|j: int|
        0 <= j < p.len() && (#[trigger] p[j]).group_id == p[i].group_id && p[j].day == p[i].day
            && p[j].classroom_id == rid
}

/// The group of lesson `i` has its lesson of the module before in a room
/// of the same building as `room`.
pub open spec fn follows_in_building(d: Domain, p: Seq<Placement>, i: int, room: Classroom) -> bool {
    exists|j: int, rj: int|
        #![trigger p[j], d.classrooms@[rj]]
        0 <= j < p.len() && 0 <= rj < d.classrooms@.len() && p[j].group_id == p[i].group_id
            && p[j].day == p[i].day && p[j].module_index == p[i].module_index - 1
            && p[j].classroom_id != 0 && d.classrooms@[rj].id == Some(p[j].classroom_id)
            && building_of(d.classrooms@[rj]) == building_of(room)
}

/// The subject needs a type of room and the room is of that type.
pub open spec fn specialized_for(room: Classroom, subject: SubjectWithTeacher) -> bool {
    subject.spec matches Some(tag) && room.building_type matches Some(ty) && is_substring(
        ty@,
        tag@,
    )
}

/// The score of room `ri` for lesson `i`: capacity fit, the room the group
/// already uses that day, the building of the lesson before, and the type
/// of room that the subject needs.
pub open spec fn score_of_room(d: Domain, p: Seq<Placement>, i: int, ri: int) -> int {
    let room = d.classrooms@[ri];
    capacity_fit(room, d.groups@[group_index(d, p[i].group_id)]) + (if room_used_that_day(
        p,
        i,
        room.id.unwrap(),
    ) {
        200int
    } else {
        0int
    }) + (if follows_in_building(d, p, i, room) {
        100int
    } else {
        0int
    }) + (if specialized_for(room, d.subjects@[subject_index(d, p[i].subject_id)]) {
        150int
    } else {
        0int
    })
}

/// Room `r1` is ranked no later than room `r2` for lesson `i`: the higher
/// score first, and of two equal scores the lower identifier.
pub open spec fn room_ranks_before(d: Domain, p: Seq<Placement>, i: int, r1: int, r2: int) -> bool {
    let s1 = score_of_room(d, p, i, r1);
    let s2 = score_of_room(d, p, i, r2);
    s1 > s2 || (s1 == s2 && d.classrooms@[r1].id.unwrap() <= d.classrooms@[r2].id.unwrap())
}

/// Room `ri` suits lesson `i` and is ranked before every other room that
/// does.
pub open spec fn is_best_room(d: Domain, p: Seq<Placement>, i: int, ri: int) -> bool {
    &&& suitable_room(d, p, i, ri)
    &&& forall|r2: int|
        #![trigger d.classrooms@[r2]]
        0 <= r2 < d.classrooms@.len() && suitable_room(d, p, i, r2) ==> room_ranks_before(
            d,
            p,
            i,
            ri,
            r2,
        )
}

/// The placement with another room.
pub open spec fn in_room(pl: Placement, rid: i16) -> Placement {
    Placement { classroom_id: rid, ..pl }
}

/// The timetable after lesson `i` has got its best room; `None` where no
/// room suits it.
pub open spec fn room_step(d: Domain, p: Seq<Placement>, i: int) -> Option<Seq<Placement>> {
    if exists|ri: int| is_best_room(d, p, i, ri) {
        let ri = choose|ri: int| is_best_room(d, p, i, ri);
        Some(p.update(i, in_room(p[i], d.classrooms@[ri].id.unwrap())))
    } else {
        None
    }
}

/// The timetable after the first `k` lessons have got their rooms, in
/// order; `None` where one of them found no room.
pub open spec fn rooms_state(d: Domain, p: Seq<Placement>, k: int) -> Option<Seq<Placement>>
    decreases k,
{
    if k <= 0 {
        Some(p)
    } else {
        match rooms_state(d, p, k - 1) {
            Some(q) => room_step(d, q, k - 1),
            None => None,
        }
    }
}

/// `q` is `p` with other rooms: every lesson keeps all but its room.
pub open spec fn rooms_changed(p: Seq<Placement>, q: Seq<Placement>) -> bool {
    &&& q.len() == p.len()
    &&& forall|j: int| 0 <= j < p.len() ==> #[trigger] q[j] == in_room(p[j], q[j].classroom_id)
}

/// What a timetable needs apart from rooms does not depend on the rooms.
#[verifier::rlimit(40)]
pub proof fn lemma_rooms_only(d: Domain, p: Seq<Placement>, q: Seq<Placement>)
    requires
        teaching_valid(d, p),
        rooms_changed(p, q),
    ensures
        teaching_valid(d, q),
        forall|sel: Selector| sel.room is None ==> count_of(q, sel) == count_of(p, sel),
{
    assert forall|sel: Selector| sel.room is None implies count_of(q, sel) == count_of(p, sel) by {
        assert forall|j: int| 0 <= j < q.len() implies selects(sel, #[trigger] q[j]) == selects(
            sel,
            p[j],
        ) by {}
        lemma_count_same(q, p, sel);
    }
    assert forall|j: int| 0 <= j < p.len() implies paired(q, j) == paired(p, j) by {
        if paired(p, j) {
            let k = choose|k: int| 0 <= k < p.len() && k != j && same_run(p[j], #[trigger] p[k]);
            assert(same_run(q[j], q[k]));
        }
        if paired(q, j) {
            let k = choose|k: int| 0 <= k < q.len() && k != j && same_run(q[j], #[trigger] q[k]);
            assert(same_run(p[j], p[k]));
        }
    }
    assert(slots_unique(q, Resource::Group)) by {
        assert forall|i: int, j: int|
            #![trigger q[i], q[j]]
            0 <= i < j < q.len() && key_of(q[i], Resource::Group) == key_of(
                q[j],
                Resource::Group,
            ) implies !same_slot(q[i], q[j]) by {
            assert(!same_slot(p[i], p[j]));
        }
    }
    assert(slots_unique(q, Resource::Teacher)) by {
        assert forall|i: int, j: int|
            #![trigger q[i], q[j]]
            0 <= i < j < q.len() && key_of(q[i], Resource::Teacher) == key_of(
                q[j],
                Resource::Teacher,
            ) implies !same_slot(q[i], q[j]) by {
            assert(!same_slot(p[i], p[j]));
        }
    }
    assert(blocks_shaped(q)) by {
        assert forall|i: int, j: int|
            #![trigger q[i], q[j]]
            0 <= i < q.len() && 0 <= j < q.len() && i != j && same_run(
                q[i],
                q[j],
            ) implies q[i].teacher_id == q[j].teacher_id && -1 <= q[i].module_index
            - q[j].module_index <= 1 by {
            assert(same_run(p[i], p[j]));
        }
    }
    assert(one_single_each(q)) by {
        assert forall|i: int, j: int|
            #![trigger q[i], q[j]]
            0 <= i < j < q.len() && q[i].group_id == q[j].group_id && q[i].subject_id
                == q[j].subject_id implies paired(q, i) || paired(q, j) by {
            assert(p[i].group_id == p[j].group_id);
            assert(paired(p, i) || paired(p, j));
        }
    }
    assert(singles_complete(d, q)) by {
        assert forall|i: int, x: int|
            #![trigger q[i], d.subjects@[x]]
            0 <= i < q.len() && 0 <= x < d.subjects@.len() && d.subjects@[x].id
                == q[i].subject_id && !paired(q, i) implies count_of(
            q,
            crate::availability::of_group_subject(q[i].group_id, q[i].subject_id),
        ) == crate::model::required_of(d.subjects@[x]) by {
            assert(!paired(p, i));
            assert(p[i].subject_id == q[i].subject_id);
        }
    }
    assert(crate::invariants::coverage_bounded(d, q)) by {
        assert forall|i: int, x: int|
            #![trigger q[i], d.subjects@[x]]
            0 <= i < q.len() && 0 <= x < d.subjects@.len() && d.subjects@[x].id
                == q[i].subject_id implies count_of(
            q,
            crate::availability::of_group_subject(q[i].group_id, q[i].subject_id),
        ) <= crate::model::required_of(d.subjects@[x]) by {
            assert(p[i].subject_id == q[i].subject_id);
        }
    }
    assert(teachers_qualified(d, q)) by {
        assert forall|i: int| 0 <= i < q.len() implies qualified(
            d,
            (#[trigger] q[i]).teacher_id,
            q[i].subject_id,
        ) by {
            assert(qualified(d, p[i].teacher_id, p[i].subject_id));
        }
    }
    assert(placements_known(d, q)) by {
        assert forall|i: int| 0 <= i < q.len() implies has_group(d, (#[trigger] q[i]).group_id)
            && has_subject(d, q[i].subject_id) && has_day(d, q[i].day) && 1 <= q[i].module_index
            <= d.modules_per_day by {
            assert(has_group(d, p[i].group_id));
        }
    }
    assert(group_caps_kept(d, q));
    assert(teacher_loads_kept(d, q));
}

/// The index of the group with the identifier, if there is one.
pub fn find_group(d: &Domain, id: i16) -> (r: Option<usize>)
    ensures
        match r {
            Some(k) => k < d.groups@.len() && d.groups@[k as int].id == Some(id),
            None => !has_group(*d, id),
        },
{
    let mut k: usize = 0;
    while k < d.groups.len()
        invariant
            k <= d.groups.len(),
            forall|j: int| 0 <= j < k ==> (#[trigger] d.groups@[j]).id != Some(id),
        decreases d.groups.len() - k,
    {
        match d.groups[k].id {
            Some(x) => {
                if x == id {
                    return Some(k);
                }
            },
            None => {},
        }
        k += 1;
    }
    None
}

/// The index of the subject with the identifier, if there is one.
pub fn find_subject(d: &Domain, id: i16) -> (r: Option<usize>)
    ensures
        match r {
            Some(k) => k < d.subjects@.len() && d.subjects@[k as int].id == id,
            None => !has_subject(*d, id),
        },
{
    let mut k: usize = 0;
    while k < d.subjects.len()
        invariant
            k <= d.subjects.len(),
            forall|j: int| 0 <= j < k ==> (#[trigger] d.subjects@[j]).id != id,
        decreases d.subjects.len() - k,
    {
        if d.subjects[k].id == id {
            return Some(k);
        }
        k += 1;
    }
    None
}

/// The index of the room with the identifier, if there is one.
pub fn find_classroom(d: &Domain, id: i16) -> (r: Option<usize>)
    ensures
        match r {
            Some(k) => k < d.classrooms@.len() && d.classrooms@[k as int].id == Some(id),
            None => forall|j: int|
                0 <= j < d.classrooms@.len() ==> (#[trigger] d.classrooms@[j]).id != Some(id),
        },
{
    let mut k: usize = 0;
    while k < d.classrooms.len()
        invariant
            k <= d.classrooms.len(),
            forall|j: int| 0 <= j < k ==> (#[trigger] d.classrooms@[j]).id != Some(id),
        decreases d.classrooms.len() - k,
    {
        match d.classrooms[k].id {
            Some(x) => {
                if x == id {
                    return Some(k);
                }
            },
            None => {},
        }
        k += 1;
    }
    None
}

/// In the planner's state every lesson names one group and one subject of
/// the snapshot.
pub proof fn lemma_lesson_known(d: Domain, p: Seq<Placement>, i: int)
    requires
        plannable(d, p),
        0 <= i < p.len(),
    ensures
        has_group(d, p[i].group_id),
        has_subject(d, p[i].subject_id),
        forall|gi: int|
            0 <= gi < d.groups@.len() && (#[trigger] d.groups@[gi]).id == Some(p[i].group_id)
                ==> group_index(d, p[i].group_id) == gi,
        forall|ui: int|
            0 <= ui < d.subjects@.len() && (#[trigger] d.subjects@[ui]).id == p[i].subject_id
                ==> subject_index(d, p[i].subject_id) == ui,
{
    reveal(plannable);
    assert(has_group(d, p[i].group_id));
    assert forall|gi: int|
        0 <= gi < d.groups@.len() && (#[trigger] d.groups@[gi]).id == Some(
            p[i].group_id,
        ) implies group_index(d, p[i].group_id) == gi by {
        lemma_group_index(d, p[i].group_id, gi);
    }
    assert forall|ui: int|
        0 <= ui < d.subjects@.len() && (#[trigger] d.subjects@[ui]).id
            == p[i].subject_id implies subject_index(d, p[i].subject_id) == ui by {
        lemma_subject_index(d, p[i].subject_id, ui);
    }
}

/// In a well-formed snapshot the group with an identifier is the one
/// group that has it.
pub proof fn lemma_group_index(d: Domain, id: i16, gi: int)
    requires
        domain_wf(d),
        0 <= gi < d.groups@.len(),
        d.groups@[gi].id == Some(id),
    ensures
        group_index(d, id) == gi,
{
    let c = group_index(d, id);
    assert(d.groups@[c].id == d.groups@[gi].id);
}

/// In a well-formed snapshot the subject with an identifier is the one
/// subject that has it.
pub proof fn lemma_subject_index(d: Domain, id: i16, ui: int)
    requires
        domain_wf(d),
        0 <= ui < d.subjects@.len(),
        d.subjects@[ui].id == id,
    ensures
        subject_index(d, id) == ui,
{
    let c = subject_index(d, id);
    assert(d.subjects@[c].id == d.subjects@[ui].id);
}

/// Whether the room is large enough for the group, may be used at the
/// slot, and is of the type that the subject needs.
pub fn room_fits_check(
    room: &Classroom,
    group: &Group,
    subject: &SubjectWithTeacher,
    day: &str,
    m: i16,
) -> (r: bool)
    ensures
        r == room_fits(*room, *group, *subject, day@, m as int),
{
    match (room.capacity, group.students) {
        (Some(c), Some(n)) => {
            if c < n {
                return false;
            }
        },
        _ => {},
    }
    match &room.availability {
        Some(v) => {
            let mut found = false;
            let mut k: usize = 0;
            while k < v.len() && !found
                invariant
                    k <= v.len(),
                    room.availability == Some(*v),
                    found ==> exists|j: int|
                        0 <= j < v@.len() && (#[trigger] v@[j]).0@ == day@ && v@[j].1 == m,
                    !found ==> forall|j: int|
                        0 <= j < k ==> !((#[trigger] v@[j]).0@ == day@ && v@[j].1 == m),
                decreases v.len() - k + (if found { 0int } else { 1int }),
            {
                if v[k].1 == m && same_text(v[k].0.as_str(), day) {
                    found = true;
                    assert((v@[k as int]).0@ == day@ && v@[k as int].1 == m);
                } else {
                    k += 1;
                }
            }
            if !found {
                return false;
            }
        },
        None => {},
    }
    match &subject.spec {
        Some(tag) => {
            match &room.building_type {
                Some(ty) => contains_text(ty.as_str(), tag.as_str()),
                None => false,
            }
        },
        None => true,
    }
}

/// Whether no other lesson uses the room in the slot of lesson `i`.
pub fn room_is_free(schedule: &Vec<Assignment>, i: usize, rid: i16) -> (r: bool)
    requires
        i < schedule.len(),
    ensures
        r == room_free_for(timetable(schedule@), i as int, rid),
{
    let ghost tt = timetable(schedule@);
    let mut j: usize = 0;
    while j < schedule.len()
        invariant
            j <= schedule.len(),
            i < schedule.len(),
            tt == timetable(schedule@),
            forall|x: int|
                0 <= x < j && x != i ==> !((#[trigger] tt[x]).classroom_id == rid && same_slot(
                    tt[x],
                    tt[i as int],
                )),
        decreases schedule.len() - j,
    {
        if j != i && schedule[j].classroom_id == rid && schedule[j].module_index
            == schedule[i].module_index {
            if same_text(schedule[j].day.as_str(), schedule[i].day.as_str()) {
                assert(tt[j as int].classroom_id == rid && same_slot(tt[j as int], tt[i as int]));
                return false;
            }
        }
        j += 1;
    }
    true
}

fn same_building(a: &Classroom, b: &Classroom) -> (r: bool)
    ensures
        r == (building_of(*a) == building_of(*b)),
{
    match (&a.building_id, &b.building_id) {
        (Some(x), Some(y)) => same_text(x.as_str(), y.as_str()),
        (None, None) => true,
        _ => false,
    }
}

fn uses_room_that_day(schedule: &Vec<Assignment>, i: usize, rid: i16) -> (r: bool)
    requires
        i < schedule.len(),
    ensures
        r == room_used_that_day(timetable(schedule@), i as int, rid),
{
    let ghost tt = timetable(schedule@);
    let mut j: usize = 0;
    while j < schedule.len()
        invariant
            j <= schedule.len(),
            i < schedule.len(),
            tt == timetable(schedule@),
            forall|x: int|
                0 <= x < j ==> !((#[trigger] tt[x]).group_id == tt[i as int].group_id && tt[x].day
                    == tt[i as int].day && tt[x].classroom_id == rid),
        decreases schedule.len() - j,
    {
        if schedule[j].group_id == schedule[i].group_id && schedule[j].classroom_id == rid {
            if same_text(schedule[j].day.as_str(), schedule[i].day.as_str()) {
                assert(tt[j as int].group_id == tt[i as int].group_id && tt[j as int].day
                    == tt[i as int].day && tt[j as int].classroom_id == rid);
                return true;
            }
        }
        j += 1;
    }
    false
}

fn follows_building(schedule: &Vec<Assignment>, d: &Domain, i: usize, room: &Classroom) -> (r:
    bool)
    requires
        i < schedule.len(),
    ensures
        r == follows_in_building(*d, timetable(schedule@), i as int, *room),
{
    let ghost tt = timetable(schedule@);
    let mut j: usize = 0;
    while j < schedule.len()
        invariant
            j <= schedule.len(),
            i < schedule.len(),
            tt == timetable(schedule@),
            forall|x: int, rj: int|
                #![trigger tt[x], d.classrooms@[rj]]
                0 <= x < j && 0 <= rj < d.classrooms@.len() ==> !(tt[x].group_id
                    == tt[i as int].group_id && tt[x].day == tt[i as int].day
                    && tt[x].module_index == tt[i as int].module_index - 1 && tt[x].classroom_id
                    != 0 && d.classrooms@[rj].id == Some(tt[x].classroom_id) && building_of(
                    d.classrooms@[rj],
                ) == building_of(*room)),
        decreases schedule.len() - j,
    {
        let a = &schedule[j];
        if a.group_id == schedule[i].group_id && a.classroom_id != 0 && a.module_index as i32
            == schedule[i].module_index as i32 - 1 {
            if same_text(a.day.as_str(), schedule[i].day.as_str()) {
                let mut rj: usize = 0;
                while rj < d.classrooms.len()
                    invariant
                        rj <= d.classrooms.len(),
                        j < schedule.len(),
                        i < schedule.len(),
                        tt == timetable(schedule@),
                        *a == schedule@[j as int],
                        tt[j as int].group_id == tt[i as int].group_id,
                        tt[j as int].day == tt[i as int].day,
                        tt[j as int].module_index == tt[i as int].module_index - 1,
                        tt[j as int].classroom_id != 0,
                        forall|y: int|
                            #![trigger d.classrooms@[y]]
                            0 <= y < rj ==> !(d.classrooms@[y].id == Some(tt[j as int].classroom_id)
                                && building_of(d.classrooms@[y]) == building_of(*room)),
                    decreases d.classrooms.len() - rj,
                {
                    let hit = match d.classrooms[rj].id {
                        Some(x) => x == a.classroom_id,
                        None => false,
                    };
                    if hit && same_building(&d.classrooms[rj], room) {
                        assert(tt[j as int].group_id == tt[i as int].group_id && d.classrooms@[rj as int].id
                            == Some(tt[j as int].classroom_id));
                        assert(follows_in_building(*d, tt, i as int, *room));
                        return true;
                    }
                    rj += 1;
                }
            }
        }
        j += 1;
    }
    false
}

/// The score of room `ri` for lesson `i`, whose group and subject are
/// `gi` and `ui`.
pub fn room_score(schedule: &Vec<Assignment>, d: &Domain, i: usize, gi: usize, ui: usize, ri: usize) -> (r:
    i32)
    requires
        i < schedule.len(),
        gi < d.groups.len(),
        ui < d.subjects.len(),
        ri < d.classrooms.len(),
        d.classrooms@[ri as int].id is Some,
        gi == group_index(*d, timetable(schedule@)[i as int].group_id),
        ui == subject_index(*d, timetable(schedule@)[i as int].subject_id),
    ensures
        r == score_of_room(*d, timetable(schedule@), i as int, ri as int),
{
    let room = &d.classrooms[ri];
    let group = &d.groups[gi];
    let subject = &d.subjects[ui];
    let mut score: i32 = match (room.capacity, group.students) {
        (Some(c), Some(n)) => if c >= n {
            100 - (c as i32 - n as i32)
        } else {
            100 - (n as i32 - c as i32)
        },
        _ => 0,
    };
    if uses_room_that_day(schedule, i, room.id.unwrap()) {
        score = score + SAME_ROOM_POINTS;
    }
    if follows_building(schedule, d, i, room) {
        score = score + SAME_BUILDING_POINTS;
    }
    let special = match &subject.spec {
        Some(tag) => match &room.building_type {
            Some(ty) => contains_text(ty.as_str(), tag.as_str()),
            None => false,
        },
        None => false,
    };
    if special {
        score = score + SPECIALIZED_POINTS;
    }
    score
}

/// The best room for lesson `i`: the suitable room with the highest score,
/// and of several with that score the one with the lowest identifier.
#[verifier::rlimit(40)]
pub fn best_room(schedule: &Vec<Assignment>, d: &Domain, i: usize) -> (r: Option<usize>)
    requires
        plannable(*d, timetable(schedule@)),
        i < schedule.len(),
    ensures
        match r {
            Some(ri) => is_best_room(*d, timetable(schedule@), i as int, ri as int),
            None => forall|ri: int| !suitable_room(*d, timetable(schedule@), i as int, ri),
        },
{
    let ghost tt = timetable(schedule@);
    proof {
        lemma_lesson_known(*d, tt, i as int);
    }
    let gi = match find_group(d, schedule[i].group_id) {
        Some(k) => k,
        None => {
            return None;
        },
    };
    let ui = match find_subject(d, schedule[i].subject_id) {
        Some(k) => k,
        None => {
            return None;
        },
    };
    let mut best: Option<usize> = None;
    let mut best_score: i32 = 0;
    let mut best_id: i16 = 0;
    let mut ri: usize = 0;
    while ri < d.classrooms.len()
        invariant
            ri <= d.classrooms.len(),
            i < schedule.len(),
            gi < d.groups.len(),
            ui < d.subjects.len(),
            tt == timetable(schedule@),
            gi == group_index(*d, tt[i as int].group_id),
            ui == subject_index(*d, tt[i as int].subject_id),
            match best {
                Some(k) => {
                    &&& k < ri
                    &&& suitable_room(*d, tt, i as int, k as int)
                    &&& best_score == score_of_room(*d, tt, i as int, k as int)
                    &&& Some(best_id) == d.classrooms@[k as int].id
                    &&& forall|r2: int|
                        #![trigger d.classrooms@[r2]]
                        0 <= r2 < ri && suitable_room(*d, tt, i as int, r2) ==> room_ranks_before(
                            *d,
                            tt,
                            i as int,
                            k as int,
                            r2,
                        )
                },
                None => forall|r2: int|
                    #![trigger d.classrooms@[r2]]
                    0 <= r2 < ri ==> !suitable_room(*d, tt, i as int, r2),
            },
        decreases d.classrooms.len() - ri,
    {
        let room = &d.classrooms[ri];
        match room.id {
            Some(rid) => {
                if room_is_free(schedule, i, rid) && room_fits_check(
                    room,
                    &d.groups[gi],
                    &d.subjects[ui],
                    schedule[i].day.as_str(),
                    schedule[i].module_index,
                ) {
                    let sc = room_score(schedule, d, i, gi, ui, ri);
                    let take = match best {
                        Some(_) => sc > best_score || (sc == best_score && rid < best_id),
                        None => true,
                    };
                    if take {
                        best = Some(ri);
                        best_score = sc;
                        best_id = rid;
                    }
                }
            },
            None => {},
        }
        ri += 1;
    }
    best
}

/// Gives lesson `i` the room `rid`.
pub fn set_room(schedule: &mut Vec<Assignment>, i: usize, rid: i16)
    requires
        i < old(schedule)@.len(),
    ensures
        final(schedule)@.len() == old(schedule)@.len(),
        timetable(final(schedule)@) == timetable(old(schedule)@).update(
            i as int,
            in_room(old(schedule)@[i as int]@, rid),
        ),
{
    let ghost s0 = schedule@;
    let mut a = schedule[i].duplicate();
    a.classroom_id = rid;
    schedule[i] = a;
    proof {
        assert(schedule@ =~= s0.update(i as int, a));
        lemma_timetable_update(s0, i as int, a);
    }
}

/// Among identified rooms with distinct identifiers the best room for a
/// lesson is unique.
pub proof fn lemma_best_room_unique(d: Domain, p: Seq<Placement>, i: int, r1: int, r2: int)
    requires
        domain_wf(d),
        is_best_room(d, p, i, r1),
        is_best_room(d, p, i, r2),
    ensures
        r1 == r2,
{
    assert(room_ranks_before(d, p, i, r1, r2));
    assert(room_ranks_before(d, p, i, r2, r1));
    assert(d.classrooms@[r1].id == d.classrooms@[r2].id);
}

/// Giving a lesson its best room keeps a valid timetable valid.
#[verifier::rlimit(40)]
pub proof fn lemma_room_step_valid(d: Domain, p: Seq<Placement>, i: int, ri: int, q: Seq<Placement>)
    requires
        plannable(d, p),
        0 <= i < p.len(),
        is_best_room(d, p, i, ri),
        q == p.update(i, in_room(p[i], d.classrooms@[ri].id.unwrap())),
    ensures
        plannable(d, q),
        room_step(d, p, i) == Some(q),
        forall|sel: Selector| sel.room is None ==> count_of(q, sel) == count_of(p, sel),
{
    reveal(plannable);
    let rid = d.classrooms@[ri].id.unwrap();
    let c = choose|c: int| is_best_room(d, p, i, c);
    lemma_best_room_unique(d, p, i, ri, c);
    assert(rooms_changed(p, q));
    lemma_rooms_only(d, p, q);
    assert(slots_unique(q, Resource::Room)) by {
        assert forall|a: int, b: int|
            #![trigger q[a], q[b]]
            0 <= a < b < q.len() && key_of(q[a], Resource::Room) == key_of(q[b], Resource::Room)
                && key_of(q[a], Resource::Room) != 0 implies !same_slot(q[a], q[b]) by {
            if a != i && b != i {
                assert(q[a] == p[a] && q[b] == p[b]);
            } else if a == i {
                assert(q[b] == p[b]);
                assert(!(p[b].classroom_id == rid && same_slot(p[b], p[i])));
            } else {
                assert(q[a] == p[a]);
                assert(!(p[a].classroom_id == rid && same_slot(p[a], p[i])));
            }
        }
    }
    assert(rooms_suitable(d, q)) by {
        assert forall|j: int| 0 <= j < q.len() implies room_ok(d, #[trigger] q[j]) by {
            if j != i {
                assert(q[j] == p[j]);
            } else {
                assert(has_group(d, p[i].group_id));
                assert(has_subject(d, p[i].subject_id));
                let gi = group_index(d, p[i].group_id);
                let ui = subject_index(d, p[i].subject_id);
                assert(d.classrooms@[ri].id == Some(q[i].classroom_id) && d.groups@[gi].id == Some(
                    q[i].group_id,
                ) && d.subjects@[ui].id == q[i].subject_id && room_fits(
                    d.classrooms@[ri],
                    d.groups@[gi],
                    d.subjects@[ui],
                    q[i].day,
                    q[i].module_index as int,
                ));
            }
        }
    }
}

/// Assigns a room to every lesson, in order: the best of the rooms that
/// suit it.  Stops at the first lesson that no room suits and reports it.
#[verifier::rlimit(40)]
pub fn assign_classrooms(schedule: &mut Vec<Assignment>, d: &Domain) -> (r: Result<
    (),
    PlanningError,
>)
    requires
        plannable(*d, timetable(old(schedule)@)),
    ensures
        final(schedule)@.len() == old(schedule)@.len(),
        plannable(*d, timetable(final(schedule)@)),
        rooms_changed(timetable(old(schedule)@), timetable(final(schedule)@)),
        match r {
            Ok(_) => rooms_state(
                *d,
                timetable(old(schedule)@),
                old(schedule)@.len() as int,
            ) == Some(timetable(final(schedule)@)),
            Err(e) => e matches PlanningError::NoSuitableClassroom {
                group_id,
                subject_id,
                day,
                module,
            } && exists|i: int|
                0 <= i < old(schedule)@.len() && rooms_state(*d, timetable(old(schedule)@), i)
                    == Some(timetable(final(schedule)@)) && room_step(
                    *d,
                    timetable(final(schedule)@),
                    i,
                ) is None && (#[trigger] timetable(final(schedule)@)[i]).group_id == group_id
                    && timetable(final(schedule)@)[i].subject_id == subject_id && timetable(
                    final(schedule)@,
                )[i].day == day@ && timetable(final(schedule)@)[i].module_index == module,
        },
{
    let ghost p0 = timetable(schedule@);
    let n = schedule.len();
    let mut i: usize = 0;
    while i < n
        invariant
            i <= n,
            n == schedule@.len(),
            n == old(schedule)@.len(),
            p0 == timetable(old(schedule)@),
            plannable(*d, timetable(schedule@)),
            rooms_changed(p0, timetable(schedule@)),
            rooms_state(*d, p0, i as int) == Some(timetable(schedule@)),
        decreases n - i,
    {
        let ghost p = timetable(schedule@);
        match best_room(schedule, d, i) {
            Some(ri) => {
                let rid = d.classrooms[ri].id.unwrap();
                set_room(schedule, i, rid);
                proof {
                    lemma_room_step_valid(*d, p, i as int, ri as int, timetable(schedule@));
                    assert(rooms_changed(p0, timetable(schedule@))) by {
                        let q = timetable(schedule@);
                        assert forall|j: int| 0 <= j < p0.len() implies #[trigger] q[j] == in_room(
                            p0[j],
                            q[j].classroom_id,
                        ) by {
                            assert(p[j] == in_room(p0[j], p[j].classroom_id));
                        }
                    }
                }
            },
            None => {
                proof {
                    assert(room_step(*d, p, i as int) is None) by {
                        if exists|ri: int| is_best_room(*d, p, i as int, ri) {
                            let ri = choose|ri: int| is_best_room(*d, p, i as int, ri);
                            assert(suitable_room(*d, p, i as int, ri));
                        }
                    }
                }
                return Err(
                    PlanningError::NoSuitableClassroom {
                        group_id: schedule[i].group_id,
                        subject_id: schedule[i].subject_id,
                        day: schedule[i].day.clone(),
                        module: schedule[i].module_index,
                    },
                );
            },
        }
        i += 1;
    }
    Ok(())
}

} // verus!
