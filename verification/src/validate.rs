//! Executable checks of the invariants: whether a snapshot is well formed
//! and whether a schedule is valid for it.

use crate::availability::{
    by_teacher, count_matching, count_of, in_group_day, key_of, of_group_subject, Resource,
};
use crate::invariants::{
    blocks_shaped, coverage_bounded, domain_wf, group_caps_kept, has_day, has_group, has_subject,
    one_single_each, paired, placements_known, plannable, qualified, room_fits, room_ok,
    rooms_suitable, same_run, same_slot, schedule_valid, singles_complete, slots_unique,
    teacher_loads_kept, teachers_qualified,
};
use crate::model::{
    group_cap, required_of, teacher_cap, Assignment, Domain, timetable,
    MAX_MODULES_PER_DAY,
};
use crate::rooms::{find_classroom, find_group, find_subject, room_fits_check};
use crate::text::same_text;
use vstd::prelude::*;

verus! {

fn distinct_ids(ids: &Vec<i16>) -> (r: bool)
    ensures
        r == forall|i: int, j: int| 0 <= i < j < ids@.len() ==> ids@[i] != ids@[j],
{
    let mut j: usize = 0;
    while j < ids.len()
        invariant
            j <= ids.len(),
            forall|a: int, b: int| 0 <= a < b < j ==> ids@[a] != ids@[b],
        decreases ids.len() - j,
    {
        let mut i: usize = 0;
        while i < j
            invariant
                i <= j,
                j < ids.len(),
                forall|a: int| 0 <= a < i ==> ids@[a] != ids@[j as int],
            decreases j - i,
        {
            if ids[i] == ids[j] {
                return false;
            }
            i += 1;
        }
        j += 1;
    }
    true
}

fn group_ids(d: &Domain) -> (r: Option<Vec<i16>>)
    ensures
        match r {
            Some(v) => v@.len() == d.groups@.len() && forall|k: int|
                0 <= k < v@.len() ==> (#[trigger] d.groups@[k]).id == Some(v@[k]) && group_cap(
                    d.groups@[k],
                ) >= 0,
            None => exists|k: int|
                0 <= k < d.groups@.len() && ((#[trigger] d.groups@[k]).id is None || group_cap(
                    d.groups@[k],
                ) < 0),
        },
{
    let mut v: Vec<i16> = Vec::new();
    let mut k: usize = 0;
    while k < d.groups.len()
        invariant
            k <= d.groups.len(),
            v@.len() == k,
            forall|x: int|
                0 <= x < k ==> (#[trigger] d.groups@[x]).id == Some(v@[x]) && group_cap(
                    d.groups@[x],
                ) >= 0,
        decreases d.groups.len() - k,
    {
        if d.groups[k].daily_cap() < 0 {
            assert(group_cap(d.groups@[k as int]) < 0);
            return None;
        }
        match d.groups[k].id {
            Some(id) => {
                v.push(id);
            },
            None => {
                assert(d.groups@[k as int].id is None);
                return None;
            },
        }
        k += 1;
    }
    Some(v)
}

fn teacher_ids(d: &Domain) -> (r: Option<Vec<i16>>)
    ensures
        match r {
            Some(v) => v@.len() == d.teachers@.len() && forall|k: int|
                0 <= k < v@.len() ==> (#[trigger] d.teachers@[k]).id == Some(v@[k])
                    && teacher_cap(d.teachers@[k]) >= 0,
            None => exists|k: int|
                0 <= k < d.teachers@.len() && ((#[trigger] d.teachers@[k]).id is None
                    || teacher_cap(d.teachers@[k]) < 0),
        },
{
    let mut v: Vec<i16> = Vec::new();
    let mut k: usize = 0;
    while k < d.teachers.len()
        invariant
            k <= d.teachers.len(),
            v@.len() == k,
            forall|x: int|
                0 <= x < k ==> (#[trigger] d.teachers@[x]).id == Some(v@[x]) && teacher_cap(
                    d.teachers@[x],
                ) >= 0,
        decreases d.teachers.len() - k,
    {
        if d.teachers[k].load_cap() < 0 {
            assert(teacher_cap(d.teachers@[k as int]) < 0);
            return None;
        }
        match d.teachers[k].id {
            Some(id) => {
                v.push(id);
            },
            None => {
                assert(d.teachers@[k as int].id is None);
                return None;
            },
        }
        k += 1;
    }
    Some(v)
}

fn classroom_ids(d: &Domain) -> (r: Option<Vec<i16>>)
    ensures
        match r {
            Some(v) => v@.len() == d.classrooms@.len() && forall|k: int|
                0 <= k < v@.len() ==> (#[trigger] d.classrooms@[k]).id == Some(v@[k]) && v@[k]
                    != 0,
            None => exists|k: int|
                0 <= k < d.classrooms@.len() && ((#[trigger] d.classrooms@[k]).id is None
                    || d.classrooms@[k].id == Some(0i16)),
        },
{
    let mut v: Vec<i16> = Vec::new();
    let mut k: usize = 0;
    while k < d.classrooms.len()
        invariant
            k <= d.classrooms.len(),
            v@.len() == k,
            forall|x: int|
                0 <= x < k ==> (#[trigger] d.classrooms@[x]).id == Some(v@[x]) && v@[x] != 0,
        decreases d.classrooms.len() - k,
    {
        match d.classrooms[k].id {
            Some(id) => {
                if id == 0 {
                    assert(d.classrooms@[k as int].id == Some(0i16));
                    return None;
                }
                v.push(id);
            },
            None => {
                assert(d.classrooms@[k as int].id is None);
                return None;
            },
        }
        k += 1;
    }
    Some(v)
}

fn subject_ids(d: &Domain) -> (r: Option<Vec<i16>>)
    ensures
        match r {
            Some(v) => v@.len() == d.subjects@.len() && forall|k: int|
                0 <= k < v@.len() ==> (#[trigger] d.subjects@[k]).id == v@[k] && required_of(
                    d.subjects@[k],
                ) >= 1,
            None => exists|k: int|
                0 <= k < d.subjects@.len() && required_of(#[trigger] d.subjects@[k]) < 1,
        },
{
    let mut v: Vec<i16> = Vec::new();
    let mut k: usize = 0;
    while k < d.subjects.len()
        invariant
            k <= d.subjects.len(),
            v@.len() == k,
            forall|x: int|
                0 <= x < k ==> (#[trigger] d.subjects@[x]).id == v@[x] && required_of(
                    d.subjects@[x],
                ) >= 1,
        decreases d.subjects.len() - k,
    {
        if d.subjects[k].modules() < 1 {
            assert(required_of(d.subjects@[k as int]) < 1);
            return None;
        }
        v.push(d.subjects[k].id);
        k += 1;
    }
    Some(v)
}

fn requirements_known(d: &Domain) -> (r: bool)
    ensures
        r == forall|k: int|
            0 <= k < d.group_subjects@.len() ==> has_group(
                *d,
                (#[trigger] d.group_subjects@[k]).group_id,
            ) && has_subject(*d, d.group_subjects@[k].subject_id),
{
    let mut k: usize = 0;
    while k < d.group_subjects.len()
        invariant
            k <= d.group_subjects.len(),
            forall|x: int|
                0 <= x < k ==> has_group(*d, (#[trigger] d.group_subjects@[x]).group_id)
                    && has_subject(*d, d.group_subjects@[x].subject_id),
        decreases d.group_subjects.len() - k,
    {
        let e = &d.group_subjects[k];
        if find_group(d, e.group_id).is_none() || find_subject(d, e.subject_id).is_none() {
            assert(!(has_group(*d, d.group_subjects@[k as int].group_id) && has_subject(
                *d,
                d.group_subjects@[k as int].subject_id,
            )));
            return false;
        }
        k += 1;
    }
    true
}

/// Whether the snapshot is well formed.
#[verifier::rlimit(40)]
pub fn check_domain(d: &Domain) -> (r: bool)
    ensures
        r == domain_wf(*d),
{
    if d.modules_per_day < 1 || d.modules_per_day > MAX_MODULES_PER_DAY {
        return false;
    }
    match group_ids(d) {
        Some(v) => {
            if !distinct_ids(&v) {
                let ghost (i, j) = choose|i: int, j: int|
                    0 <= i < j < v@.len() && v@[i] == v@[j];
                assert(d.groups@[i].id == d.groups@[j].id);
                return false;
            }
            assert forall|i: int, j: int| 0 <= i < j < d.groups@.len() implies (
            #[trigger] d.groups@[i]).id != (#[trigger] d.groups@[j]).id by {
                assert(v@[i] != v@[j]);
            }
        },
        None => {
            return false;
        },
    }
    match teacher_ids(d) {
        Some(v) => {
            if !distinct_ids(&v) {
                let ghost (i, j) = choose|i: int, j: int|
                    0 <= i < j < v@.len() && v@[i] == v@[j];
                assert(d.teachers@[i].id == d.teachers@[j].id);
                return false;
            }
            assert forall|i: int, j: int| 0 <= i < j < d.teachers@.len() implies (
            #[trigger] d.teachers@[i]).id != (#[trigger] d.teachers@[j]).id by {
                assert(v@[i] != v@[j]);
            }
        },
        None => {
            return false;
        },
    }
    match subject_ids(d) {
        Some(v) => {
            if !distinct_ids(&v) {
                let ghost (i, j) = choose|i: int, j: int|
                    0 <= i < j < v@.len() && v@[i] == v@[j];
                assert(d.subjects@[i].id == d.subjects@[j].id);
                return false;
            }
            assert forall|i: int, j: int| 0 <= i < j < d.subjects@.len() implies (
            #[trigger] d.subjects@[i]).id != (#[trigger] d.subjects@[j]).id by {
                assert(v@[i] != v@[j]);
            }
        },
        None => {
            return false;
        },
    }
    match classroom_ids(d) {
        Some(v) => {
            if !distinct_ids(&v) {
                let ghost (i, j) = choose|i: int, j: int|
                    0 <= i < j < v@.len() && v@[i] == v@[j];
                assert(d.classrooms@[i].id == d.classrooms@[j].id);
                return false;
            }
            assert forall|i: int, j: int| 0 <= i < j < d.classrooms@.len() implies (
            #[trigger] d.classrooms@[i]).id != (#[trigger] d.classrooms@[j]).id by {
                assert(v@[i] != v@[j]);
            }
        },
        None => {
            return false;
        },
    }
    requirements_known(d)
}

fn slots_unique_check(schedule: &Vec<Assignment>, kind: Resource) -> (r: bool)
    ensures
        r == slots_unique(timetable(schedule@), kind),
{
    let ghost tt = timetable(schedule@);
    let mut j: usize = 0;
    while j < schedule.len()
        invariant
            j <= schedule.len(),
            tt == timetable(schedule@),
            forall|a: int, b: int|
                #![trigger tt[a], tt[b]]
                0 <= a < b < j && key_of(tt[a], kind) == key_of(tt[b], kind) && (kind is Room
                    ==> key_of(tt[a], kind) != 0) ==> !same_slot(tt[a], tt[b]),
        decreases schedule.len() - j,
    {
        let kj = match kind {
            Resource::Teacher => schedule[j].teacher_id,
            Resource::Group => schedule[j].group_id,
            Resource::Room => schedule[j].classroom_id,
        };
        let skip = match kind {
            Resource::Room => kj == 0,
            _ => false,
        };
        let mut i: usize = 0;
        while i < j && !skip
            invariant
                i <= j,
                j < schedule.len(),
                tt == timetable(schedule@),
                kj == key_of(tt[j as int], kind),
                skip == (kind is Room && kj == 0),
                forall|a: int|
                    #![trigger tt[a]]
                    0 <= a < i && key_of(tt[a], kind) == kj && !skip ==> !same_slot(
                        tt[a],
                        tt[j as int],
                    ),
            decreases j - i,
        {
            let ki = match kind {
                Resource::Teacher => schedule[i].teacher_id,
                Resource::Group => schedule[i].group_id,
                Resource::Room => schedule[i].classroom_id,
            };
            if ki == kj && schedule[i].module_index == schedule[j].module_index {
                if same_text(schedule[i].day.as_str(), schedule[j].day.as_str()) {
                    assert(same_slot(tt[i as int], tt[j as int]));
                    return false;
                }
            }
            i += 1;
        }
        j += 1;
    }
    true
}

fn blocks_shaped_check(schedule: &Vec<Assignment>) -> (r: bool)
    ensures
        r == blocks_shaped(timetable(schedule@)),
{
    let ghost tt = timetable(schedule@);
    let mut j: usize = 0;
    while j < schedule.len()
        invariant
            j <= schedule.len(),
            tt == timetable(schedule@),
            forall|a: int, b: int|
                #![trigger tt[a], tt[b]]
                0 <= a < b < j && same_run(tt[a], tt[b]) ==> tt[a].teacher_id == tt[b].teacher_id
                    && -1 <= tt[a].module_index - tt[b].module_index <= 1,
        decreases schedule.len() - j,
    {
        let mut i: usize = 0;
        while i < j
            invariant
                i <= j,
                j < schedule.len(),
                tt == timetable(schedule@),
                forall|a: int|
                    #![trigger tt[a]]
                    0 <= a < i && same_run(tt[a], tt[j as int]) ==> tt[a].teacher_id
                        == tt[j as int].teacher_id && -1 <= tt[a].module_index
                        - tt[j as int].module_index <= 1,
            decreases j - i,
        {
            let x = &schedule[i];
            let y = &schedule[j];
            if x.group_id == y.group_id && x.subject_id == y.subject_id {
                if same_text(x.day.as_str(), y.day.as_str()) {
                    let diff = x.module_index as i32 - y.module_index as i32;
                    if x.teacher_id != y.teacher_id || diff < -1 || diff > 1 {
                        assert(same_run(tt[i as int], tt[j as int]));
                        return false;
                    }
                }
            }
            i += 1;
        }
        j += 1;
    }
    proof {
        assert forall|a: int, b: int|
            #![trigger tt[a], tt[b]]
            0 <= a < tt.len() && 0 <= b < tt.len() && a != b && same_run(
                tt[a],
                tt[b],
            ) implies tt[a].teacher_id == tt[b].teacher_id && -1 <= tt[a].module_index
            - tt[b].module_index <= 1 by {
            if b < a {
                assert(same_run(tt[b], tt[a]));
            }
        }
    }
    true
}

/// Whether lesson `i` shares its block with another lesson.
pub fn is_paired(schedule: &Vec<Assignment>, i: usize) -> (r: bool)
    requires
        i < schedule.len(),
    ensures
        r == paired(timetable(schedule@), i as int),
{
    let ghost tt = timetable(schedule@);
    let mut k: usize = 0;
    while k < schedule.len()
        invariant
            k <= schedule.len(),
            i < schedule.len(),
            tt == timetable(schedule@),
            forall|x: int| 0 <= x < k && x != i ==> !same_run(tt[i as int], #[trigger] tt[x]),
        decreases schedule.len() - k,
    {
        if k != i && schedule[k].group_id == schedule[i].group_id && schedule[k].subject_id
            == schedule[i].subject_id {
            if same_text(schedule[k].day.as_str(), schedule[i].day.as_str()) {
                assert(same_run(tt[i as int], tt[k as int]));
                return true;
            }
        }
        k += 1;
    }
    false
}

fn pairing(schedule: &Vec<Assignment>) -> (r: Vec<bool>)
    ensures
        r@.len() == schedule@.len(),
        forall|i: int| 0 <= i < r@.len() ==> #[trigger] r@[i] == paired(timetable(schedule@), i),
{
    let mut r: Vec<bool> = Vec::new();
    let mut i: usize = 0;
    while i < schedule.len()
        invariant
            i <= schedule.len(),
            r@.len() == i,
            forall|x: int| 0 <= x < i ==> #[trigger] r@[x] == paired(timetable(schedule@), x),
        decreases schedule.len() - i,
    {
        r.push(is_paired(schedule, i));
        i += 1;
    }
    r
}

fn one_single_check(schedule: &Vec<Assignment>, pairs: &Vec<bool>) -> (r: bool)
    requires
        pairs@.len() == schedule@.len(),
        forall|i: int|
            0 <= i < pairs@.len() ==> #[trigger] pairs@[i] == paired(timetable(schedule@), i),
    ensures
        r == one_single_each(timetable(schedule@)),
{
    let ghost tt = timetable(schedule@);
    let mut j: usize = 0;
    while j < schedule.len()
        invariant
            j <= schedule.len(),
            tt == timetable(schedule@),
            pairs@.len() == schedule@.len(),
            forall|i: int| 0 <= i < pairs@.len() ==> #[trigger] pairs@[i] == paired(tt, i),
            forall|a: int, b: int|
                #![trigger tt[a], tt[b]]
                0 <= a < b < j && tt[a].group_id == tt[b].group_id && tt[a].subject_id
                    == tt[b].subject_id ==> paired(tt, a) || paired(tt, b),
        decreases schedule.len() - j,
    {
        if !pairs[j] {
            let mut i: usize = 0;
            while i < j
                invariant
                    i <= j,
                    j < schedule.len(),
                    tt == timetable(schedule@),
                    pairs@.len() == schedule@.len(),
                    !paired(tt, j as int),
                    forall|x: int| 0 <= x < pairs@.len() ==> #[trigger] pairs@[x] == paired(tt, x),
                    forall|a: int|
                        #![trigger tt[a]]
                        0 <= a < i && tt[a].group_id == tt[j as int].group_id && tt[a].subject_id
                            == tt[j as int].subject_id ==> paired(tt, a),
                decreases j - i,
            {
                if !pairs[i] && schedule[i].group_id == schedule[j].group_id
                    && schedule[i].subject_id == schedule[j].subject_id {
                    assert(!paired(tt, i as int) && !paired(tt, j as int));
                    assert(tt[i as int].group_id == tt[j as int].group_id);
                    return false;
                }
                i += 1;
            }
        }
        j += 1;
    }
    true
}

#[verifier::rlimit(40)]
fn coverage_check(schedule: &Vec<Assignment>, d: &Domain, pairs: &Vec<bool>) -> (r: bool)
    requires
        domain_wf(*d),
        pairs@.len() == schedule@.len(),
        forall|i: int|
            0 <= i < pairs@.len() ==> #[trigger] pairs@[i] == paired(timetable(schedule@), i),
    ensures
        r == (singles_complete(*d, timetable(schedule@)) && coverage_bounded(
            *d,
            timetable(schedule@),
        )),
{
    let ghost tt = timetable(schedule@);
    let mut i: usize = 0;
    while i < schedule.len()
        invariant
            i <= schedule.len(),
            domain_wf(*d),
            tt == timetable(schedule@),
            pairs@.len() == schedule@.len(),
            forall|x: int| 0 <= x < pairs@.len() ==> #[trigger] pairs@[x] == paired(tt, x),
            forall|a: int, ui: int|
                #![trigger tt[a], d.subjects@[ui]]
                0 <= a < i && 0 <= ui < d.subjects@.len() && d.subjects@[ui].id
                    == tt[a].subject_id ==> count_of(
                    tt,
                    of_group_subject(tt[a].group_id, tt[a].subject_id),
                ) <= required_of(d.subjects@[ui]) && (!paired(tt, a) ==> count_of(
                    tt,
                    of_group_subject(tt[a].group_id, tt[a].subject_id),
                ) == required_of(d.subjects@[ui])),
        decreases schedule.len() - i,
    {
        match find_subject(d, schedule[i].subject_id) {
            Some(ui) => {
                let c = count_matching(
                    schedule,
                    Some(schedule[i].group_id),
                    None,
                    Some(schedule[i].subject_id),
                    None,
                    None,
                );
                let r = d.subjects[ui].modules();
                let bad = r < 0 || c > r as usize || (!pairs[i] && c != r as usize);
                if bad {
                    assert(tt[i as int].subject_id == d.subjects@[ui as int].id);
                    return false;
                }
                assert forall|x: int|
                    0 <= x < d.subjects@.len() && (#[trigger] d.subjects@[x]).id
                        == tt[i as int].subject_id implies x == ui by {
                    assert(d.subjects@[x].id == d.subjects@[ui as int].id);
                }
            },
            None => {},
        }
        i += 1;
    }
    true
}

fn group_caps_check(schedule: &Vec<Assignment>, d: &Domain) -> (r: bool)
    requires
        domain_wf(*d),
    ensures
        r == group_caps_kept(*d, timetable(schedule@)),
{
    let ghost tt = timetable(schedule@);
    let mut gi: usize = 0;
    while gi < d.groups.len()
        invariant
            gi <= d.groups.len(),
            domain_wf(*d),
            tt == timetable(schedule@),
            forall|a: int, b: int|
                #![trigger d.groups@[a], d.days@[b]]
                0 <= a < gi && 0 <= b < d.days@.len() ==> count_of(
                    tt,
                    in_group_day(d.groups@[a].id.unwrap(), d.days@[b]@),
                ) <= group_cap(d.groups@[a]),
        decreases d.groups.len() - gi,
    {
        let g = d.groups[gi].id.unwrap();
        let cap = d.groups[gi].daily_cap();
        let mut di: usize = 0;
        while di < d.days.len()
            invariant
                di <= d.days.len(),
                gi < d.groups.len(),
                tt == timetable(schedule@),
                d.groups@[gi as int].id == Some(g),
                cap == group_cap(d.groups@[gi as int]),
                forall|b: int|
                    #![trigger d.days@[b]]
                    0 <= b < di ==> count_of(tt, in_group_day(g, d.days@[b]@)) <= cap,
            decreases d.days.len() - di,
        {
            let c = count_matching(schedule, Some(g), None, None, Some(d.days[di].as_str()), None);
            if cap < 0 || c > cap as usize {
                assert(count_of(
                    tt,
                    in_group_day(d.groups@[gi as int].id.unwrap(), d.days@[di as int]@),
                ) > group_cap(d.groups@[gi as int]));
                return false;
            }
            di += 1;
        }
        gi += 1;
    }
    true
}

fn teacher_loads_check(schedule: &Vec<Assignment>, d: &Domain) -> (r: bool)
    requires
        domain_wf(*d),
    ensures
        r == teacher_loads_kept(*d, timetable(schedule@)),
{
    let ghost tt = timetable(schedule@);
    let mut ti: usize = 0;
    while ti < d.teachers.len()
        invariant
            ti <= d.teachers.len(),
            domain_wf(*d),
            tt == timetable(schedule@),
            forall|a: int|
                0 <= a < ti ==> count_of(tt, by_teacher((#[trigger] d.teachers@[a]).id.unwrap()))
                    <= teacher_cap(d.teachers@[a]),
        decreases d.teachers.len() - ti,
    {
        let t = d.teachers[ti].id.unwrap();
        let cap = d.teachers[ti].load_cap();
        let c = count_matching(schedule, None, Some(t), None, None, None);
        if cap < 0 || c > cap as usize {
            assert(count_of(tt, by_teacher(d.teachers@[ti as int].id.unwrap())) > teacher_cap(
                d.teachers@[ti as int],
            ));
            return false;
        }
        ti += 1;
    }
    true
}

/// Whether the snapshot has a teacher with the identifier who may teach
/// the subject.
pub fn is_qualified(d: &Domain, teacher_id: i16, subject_id: i16) -> (r: bool)
    ensures
        r == qualified(*d, teacher_id, subject_id),
{
    let mut ti: usize = 0;
    while ti < d.teachers.len()
        invariant
            ti <= d.teachers.len(),
            forall|a: int|
                0 <= a < ti ==> !((#[trigger] d.teachers@[a]).id == Some(teacher_id)
                    && d.teachers@[a].subjects@.contains(subject_id)),
        decreases d.teachers.len() - ti,
    {
        let hit = match d.teachers[ti].id {
            Some(x) => x == teacher_id,
            None => false,
        };
        if hit && d.teachers[ti].teaches(subject_id) {
            assert(d.teachers@[ti as int].id == Some(teacher_id) && d.teachers@[ti as int].subjects@.contains(
                subject_id,
            ));
            return true;
        }
        ti += 1;
    }
    false
}

fn find_day(d: &Domain, day: &str) -> (r: Option<usize>)
    ensures
        match r {
            Some(k) => k < d.days@.len() && d.days@[k as int]@ == day@,
            None => !has_day(*d, day@),
        },
{
    let mut k: usize = 0;
    while k < d.days.len()
        invariant
            k <= d.days.len(),
            forall|j: int| 0 <= j < k ==> (#[trigger] d.days@[j])@ != day@,
        decreases d.days.len() - k,
    {
        if same_text(d.days[k].as_str(), day) {
            return Some(k);
        }
        k += 1;
    }
    None
}

#[verifier::rlimit(40)]
fn lessons_check(schedule: &Vec<Assignment>, d: &Domain) -> (r: bool)
    requires
        domain_wf(*d),
    ensures
        r == (teachers_qualified(*d, timetable(schedule@)) && placements_known(
            *d,
            timetable(schedule@),
        ) && rooms_suitable(*d, timetable(schedule@))),
{
    let ghost tt = timetable(schedule@);
    let mut i: usize = 0;
    while i < schedule.len()
        invariant
            i <= schedule.len(),
            domain_wf(*d),
            tt == timetable(schedule@),
            forall|a: int|
                0 <= a < i ==> qualified(*d, (#[trigger] tt[a]).teacher_id, tt[a].subject_id)
                    && has_group(*d, tt[a].group_id) && has_subject(*d, tt[a].subject_id)
                    && has_day(*d, tt[a].day) && 1 <= tt[a].module_index <= d.modules_per_day
                    && room_ok(*d, tt[a]),
        decreases schedule.len() - i,
    {
        let a = &schedule[i];
        if !is_qualified(d, a.teacher_id, a.subject_id) {
            assert(!qualified(*d, tt[i as int].teacher_id, tt[i as int].subject_id));
            return false;
        }
        if a.module_index < 1 || a.module_index > d.modules_per_day {
            assert(!(1 <= tt[i as int].module_index <= d.modules_per_day));
            return false;
        }
        if find_day(d, a.day.as_str()).is_none() {
            assert(!has_day(*d, tt[i as int].day));
            return false;
        }
        let gi = match find_group(d, a.group_id) {
            Some(k) => k,
            None => {
                assert(!has_group(*d, tt[i as int].group_id));
                return false;
            },
        };
        let ui = match find_subject(d, a.subject_id) {
            Some(k) => k,
            None => {
                assert(!has_subject(*d, tt[i as int].subject_id));
                return false;
            },
        };
        if a.classroom_id != 0 {
            let found = find_classroom(d, a.classroom_id);
            let fits = match found {
                Some(ri) => room_fits_check(
                    &d.classrooms[ri],
                    &d.groups[gi],
                    &d.subjects[ui],
                    a.day.as_str(),
                    a.module_index,
                ),
                None => false,
            };
            if !fits {
                proof {
                    let pl = tt[i as int];
                    if room_ok(*d, pl) {
                        let (r2, g2, u2) = choose|r2: int, g2: int, u2: int|
                            #![trigger d.classrooms@[r2], d.groups@[g2], d.subjects@[u2]]
                            0 <= r2 < d.classrooms@.len() && 0 <= g2 < d.groups@.len() && 0 <= u2
                                < d.subjects@.len() && d.classrooms@[r2].id == Some(
                                pl.classroom_id,
                            ) && d.groups@[g2].id == Some(pl.group_id) && d.subjects@[u2].id
                                == pl.subject_id && room_fits(
                                d.classrooms@[r2],
                                d.groups@[g2],
                                d.subjects@[u2],
                                pl.day,
                                pl.module_index as int,
                            );
                        assert(d.groups@[g2].id == d.groups@[gi as int].id);
                        assert(g2 == gi);
                        assert(d.subjects@[u2].id == d.subjects@[ui as int].id);
                        assert(u2 == ui);
                        match found {
                            Some(ri) => {
                                assert(d.classrooms@[r2].id == d.classrooms@[ri as int].id);
                                assert(r2 == ri);
                            },
                            None => {},
                        }
                        assert(false);
                    }
                }
                return false;
            }
        }
        i += 1;
    }
    true
}

/// Whether the schedule is valid for the snapshot.
pub fn check_schedule(schedule: &Vec<Assignment>, d: &Domain) -> (r: bool)
    requires
        domain_wf(*d),
    ensures
        r == schedule_valid(*d, timetable(schedule@)),
{
    if !slots_unique_check(schedule, Resource::Group) {
        return false;
    }
    if !slots_unique_check(schedule, Resource::Teacher) {
        return false;
    }
    if !slots_unique_check(schedule, Resource::Room) {
        return false;
    }
    if !blocks_shaped_check(schedule) {
        return false;
    }
    let pairs = pairing(schedule);
    if !one_single_check(schedule, &pairs) {
        return false;
    }
    if !coverage_check(schedule, d, &pairs) {
        return false;
    }
    if !group_caps_check(schedule, d) {
        return false;
    }
    if !teacher_loads_check(schedule, d) {
        return false;
    }
    lessons_check(schedule, d)
}

/// Whether the snapshot is well formed and the schedule valid for it.
pub fn check_plannable(schedule: &Vec<Assignment>, d: &Domain) -> (r: bool)
    ensures
        r == plannable(*d, timetable(schedule@)),
{
    proof {
        reveal(plannable);
    }
    check_domain(d) && check_schedule(schedule, d)
}

} // verus!
