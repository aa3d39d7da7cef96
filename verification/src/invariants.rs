//! What makes a domain snapshot well formed and a timetable valid, and the
//! proof that placing a block which passes the hard constraints keeps a
//! timetable valid.

use crate::availability::{
    by_teacher, count_of, free_block, in_group_day, key_of, lemma_count_push, lemma_count_zero,
    of_group_subject, of_group_subject_day, selects, within_range, Resource, Selector,
};
use crate::constraints::placement_allowed;
use crate::model::{
    group_cap, required_of, teacher_cap, Classroom, Domain, Group, Placement, SubjectWithTeacher,
    MAX_MODULES_PER_DAY,
};
use crate::text::is_substring;
use vstd::prelude::*;

verus! {

/// The snapshot has a group with this identifier.
pub open spec fn has_group(d: Domain, id: i16) -> bool {
    exists|gi: int| 0 <= gi < d.groups@.len() && (#[trigger] d.groups@[gi]).id == Some(id)
}

/// The snapshot has a subject with this identifier.
pub open spec fn has_subject(d: Domain, id: i16) -> bool {
    exists|ui: int| 0 <= ui < d.subjects@.len() && (#[trigger] d.subjects@[ui]).id == id
}

/// The snapshot has a day with this name.
pub open spec fn has_day(d: Domain, day: Seq<char>) -> bool {
    exists|di: int| 0 <= di < d.days@.len() && (#[trigger] d.days@[di])@ == day
}

/// The snapshot has a teacher with this identifier who may teach the
/// subject.
pub open spec fn qualified(d: Domain, teacher_id: i16, subject_id: i16) -> bool {
    exists|ti: int|
        0 <= ti < d.teachers@.len() && (#[trigger] d.teachers@[ti]).id == Some(teacher_id)
            && d.teachers@[ti].subjects@.contains(subject_id)
}

/// The group requires the subject.
pub open spec fn requires_subject(d: Domain, group_id: i16, subject_id: i16) -> bool {
    exists|k: int|
        0 <= k < d.group_subjects@.len() && (#[trigger] d.group_subjects@[k]).group_id == group_id
            && d.group_subjects@[k].subject_id == subject_id
}

/// A well-formed snapshot: a sensible number of modules per day, every
/// group, teacher and room identified, no identifier used twice within a
/// kind, no room numbered 0, no negative cap, positive requirements, and
/// requirements that name existing groups and subjects.
pub open spec fn domain_wf(d: Domain) -> bool {
    &&& 1 <= d.modules_per_day <= MAX_MODULES_PER_DAY
    &&& forall|i: int|
        0 <= i < d.groups@.len() ==> (#[trigger] d.groups@[i]).id is Some && group_cap(
            d.groups@[i],
        ) >= 0
    &&& forall|i: int, j: int|
        0 <= i < j < d.groups@.len() ==> (#[trigger] d.groups@[i]).id != (
        #[trigger] d.groups@[j]).id
    &&& forall|i: int|
        0 <= i < d.teachers@.len() ==> (#[trigger] d.teachers@[i]).id is Some && teacher_cap(
            d.teachers@[i],
        ) >= 0
    &&& forall|i: int, j: int|
        0 <= i < j < d.teachers@.len() ==> (#[trigger] d.teachers@[i]).id != (
        #[trigger] d.teachers@[j]).id
    &&& forall|i: int, j: int|
        0 <= i < j < d.subjects@.len() ==> (#[trigger] d.subjects@[i]).id != (
        #[trigger] d.subjects@[j]).id
    &&& forall|i: int| 0 <= i < d.subjects@.len() ==> required_of(#[trigger] d.subjects@[i]) >= 1
    &&& forall|i: int|
        0 <= i < d.classrooms@.len() ==> (#[trigger] d.classrooms@[i]).id is Some
            && d.classrooms@[i].id != Some(0i16)
    &&& forall|i: int, j: int|
        0 <= i < j < d.classrooms@.len() ==> (#[trigger] d.classrooms@[i]).id != (
        #[trigger] d.classrooms@[j]).id
    &&& forall|k: int|
        0 <= k < d.group_subjects@.len() ==> has_group(
            d,
            (#[trigger] d.group_subjects@[k]).group_id,
        ) && has_subject(d, d.group_subjects@[k].subject_id)
}

/// Two placements share day and module.
pub open spec fn same_slot(a: Placement, b: Placement) -> bool {
    a.day == b.day && a.module_index == b.module_index
}

/// No two placements use the same resource in the same slot.  Room 0
/// stands for "no room" and is shared freely.
pub open spec fn slots_unique(p: Seq<Placement>, kind: Resource) -> bool {
    forall|i: int, j: int|
        #![trigger p[i], p[j]]
        0 <= i < j < p.len() && key_of(p[i], kind) == key_of(p[j], kind) && (kind is Room
            ==> key_of(p[i], kind) != 0) ==> !same_slot(p[i], p[j])
}

/// Two placements belong to the same group, subject and day.
pub open spec fn same_run(a: Placement, b: Placement) -> bool {
    a.group_id == b.group_id && a.subject_id == b.subject_id && a.day == b.day
}

/// The lessons of a subject that a group has on one day form one block:
/// one teacher, neighbouring modules.
pub open spec fn blocks_shaped(p: Seq<Placement>) -> bool {
    forall|i: int, j: int|
        #![trigger p[i], p[j]]
        0 <= i < p.len() && 0 <= j < p.len() && i != j && same_run(p[i], p[j]) ==> p[i].teacher_id
            == p[j].teacher_id && -1 <= p[i].module_index - p[j].module_index <= 1
}

/// Placement `i` shares its block with another placement.
pub open spec fn paired(p: Seq<Placement>, i: int) -> bool {
    exists|k: int| 0 <= k < p.len() && k != i && same_run(p[i], #[trigger] p[k])
}

/// A group has at most one single-module block of a subject.
pub open spec fn one_single_each(p: Seq<Placement>) -> bool {
    forall|i: int, j: int|
        #![trigger p[i], p[j]]
        0 <= i < j < p.len() && p[i].group_id == p[j].group_id && p[i].subject_id
            == p[j].subject_id ==> paired(p, i) || paired(p, j)
}

/// A single-module block is the last block of its subject: where there is
/// one, the group has all the modules that the subject requires.
pub open spec fn singles_complete(d: Domain, p: Seq<Placement>) -> bool {
    forall|i: int, ui: int|
        #![trigger p[i], d.subjects@[ui]]
        0 <= i < p.len() && 0 <= ui < d.subjects@.len() && d.subjects@[ui].id == p[i].subject_id
            && !paired(p, i) ==> count_of(p, of_group_subject(p[i].group_id, p[i].subject_id))
            == required_of(d.subjects@[ui])
}

/// No group has more lessons of a subject than the subject requires.
pub open spec fn coverage_bounded(d: Domain, p: Seq<Placement>) -> bool {
    forall|i: int, ui: int|
        #![trigger p[i], d.subjects@[ui]]
        0 <= i < p.len() && 0 <= ui < d.subjects@.len() && d.subjects@[ui].id == p[i].subject_id
            ==> count_of(p, of_group_subject(p[i].group_id, p[i].subject_id)) <= required_of(
            d.subjects@[ui],
        )
}

/// No group has more lessons on a day than its daily cap.
pub open spec fn group_caps_kept(d: Domain, p: Seq<Placement>) -> bool {
    forall|gi: int, di: int|
        #![trigger d.groups@[gi], d.days@[di]]
        0 <= gi < d.groups@.len() && 0 <= di < d.days@.len() ==> count_of(
            p,
            in_group_day(d.groups@[gi].id.unwrap(), d.days@[di]@),
        ) <= group_cap(d.groups@[gi])
}

/// No teacher has more lessons in the week than their cap.
pub open spec fn teacher_loads_kept(d: Domain, p: Seq<Placement>) -> bool {
    forall|ti: int|
        0 <= ti < d.teachers@.len() ==> count_of(
            p,
            by_teacher((#[trigger] d.teachers@[ti]).id.unwrap()),
        ) <= teacher_cap(d.teachers@[ti])
}

/// Every lesson is taught by a teacher qualified for its subject.
pub open spec fn teachers_qualified(d: Domain, p: Seq<Placement>) -> bool {
    forall|i: int| 0 <= i < p.len() ==> qualified(d, (#[trigger] p[i]).teacher_id, p[i].subject_id)
}

/// Every lesson names a group, a subject and a day of the snapshot, and a
/// module of the day.
pub open spec fn placements_known(d: Domain, p: Seq<Placement>) -> bool {
    forall|i: int|
        0 <= i < p.len() ==> has_group(d, (#[trigger] p[i]).group_id) && has_subject(
            d,
            p[i].subject_id,
        ) && has_day(d, p[i].day) && 1 <= p[i].module_index <= d.modules_per_day
}

/// The room is large enough for the group, may be used at the slot, and is
/// of the type that the subject needs.
pub open spec fn room_fits(
    room: Classroom,
    group: Group,
    subject: SubjectWithTeacher,
    day: Seq<char>,
    m: int,
) -> bool {
    &&& room.capacity matches Some(c) ==> (group.students matches Some(n) ==> c >= n)
    &&& room.availability matches Some(v) ==> exists|k: int|
        0 <= k < v@.len() && (#[trigger] v@[k]).0@ == day && v@[k].1 == m
    &&& subject.spec matches Some(tag) ==> (room.building_type matches Some(ty) && is_substring(
        ty@,
        tag@,
    ))
}

/// The placement has no room, or a room of the snapshot that fits it.
pub open spec fn room_ok(d: Domain, pl: Placement) -> bool {
    pl.classroom_id == 0 || exists|ri: int, gi: int, ui: int|
        #![trigger d.classrooms@[ri], d.groups@[gi], d.subjects@[ui]]
        0 <= ri < d.classrooms@.len() && 0 <= gi < d.groups@.len() && 0 <= ui < d.subjects@.len()
            && d.classrooms@[ri].id == Some(pl.classroom_id) && d.groups@[gi].id == Some(
            pl.group_id,
        ) && d.subjects@[ui].id == pl.subject_id && room_fits(
            d.classrooms@[ri],
            d.groups@[gi],
            d.subjects@[ui],
            pl.day,
            pl.module_index as int,
        )
}

/// Every lesson with a room has one that fits.
pub open spec fn rooms_suitable(d: Domain, p: Seq<Placement>) -> bool {
    forall|i: int| 0 <= i < p.len() ==> room_ok(d, #[trigger] p[i])
}

/// What does not depend on rooms: the invariants of a timetable whose
/// lessons may still lack rooms.
pub open spec fn teaching_valid(d: Domain, p: Seq<Placement>) -> bool {
    &&& slots_unique(p, Resource::Group)
    &&& slots_unique(p, Resource::Teacher)
    &&& blocks_shaped(p)
    &&& one_single_each(p)
    &&& singles_complete(d, p)
    &&& coverage_bounded(d, p)
    &&& group_caps_kept(d, p)
    &&& teacher_loads_kept(d, p)
    &&& teachers_qualified(d, p)
    &&& placements_known(d, p)
}

/// A valid timetable: every invariant of the schedule holds.
pub open spec fn schedule_valid(d: Domain, p: Seq<Placement>) -> bool {
    &&& teaching_valid(d, p)
    &&& slots_unique(p, Resource::Room)
    &&& rooms_suitable(d, p)
}

/// A well-formed snapshot with a valid timetable: the state in which the
/// planner works.
#[verifier::opaque]
pub open spec fn plannable(d: Domain, p: Seq<Placement>) -> bool {
    domain_wf(d) && schedule_valid(d, p)
}

/// The placement that a planner writes for one module of a block.
pub open spec fn lesson(
    group_id: i16,
    subject: SubjectWithTeacher,
    day: Seq<char>,
    m: int,
    teacher_id: i16,
) -> Placement {
    Placement {
        id: None,
        group_id,
        day,
        module_index: m as i16,
        subject_id: subject.id,
        teacher_id,
        classroom_id: 0,
        subject_name: subject.name@,
        subject_shorten: subject.shorten@,
        subject_color: subject.color@,
    }
}

/// The timetable with one more block: `size` lessons from module `start`.
pub open spec fn with_block(
    p: Seq<Placement>,
    group_id: i16,
    subject: SubjectWithTeacher,
    day: Seq<char>,
    start: int,
    size: int,
    teacher_id: i16,
) -> Seq<Placement>
    decreases size,
{
    if size <= 0 {
        p
    } else {
        with_block(p, group_id, subject, day, start, size - 1, teacher_id).push(
            lesson(group_id, subject, day, start + size - 1, teacher_id),
        )
    }
}

/// `q` is `p` followed by one block of `size` lessons of the group and
/// subject on `day` from module `start`, taught by teacher `t`, without
/// rooms.
pub open spec fn extends_by_block(
    p: Seq<Placement>,
    q: Seq<Placement>,
    g: i16,
    u: i16,
    day: Seq<char>,
    start: int,
    size: int,
    t: i16,
) -> bool {
    &&& q.len() == p.len() + size
    &&& forall|i: int| 0 <= i < p.len() ==> #[trigger] q[i] == p[i]
    &&& forall|o: int|
        0 <= o < size ==> {
            let x = #[trigger] q[p.len() + o];
            x.group_id == g && x.subject_id == u && x.day == day && x.module_index == start + o
                && x.teacher_id == t && x.classroom_id == 0
        }
}

/// The timetable with one more block is the timetable followed by the
/// lessons of the block.
pub proof fn lemma_with_block_extends(
    p: Seq<Placement>,
    g: i16,
    subject: SubjectWithTeacher,
    day: Seq<char>,
    start: int,
    size: int,
    t: i16,
)
    requires
        0 <= size,
        i16::MIN <= start,
        start + size - 1 <= i16::MAX,
    ensures
        extends_by_block(
            p,
            with_block(p, g, subject, day, start, size, t),
            g,
            subject.id,
            day,
            start,
            size,
            t,
        ),
    decreases size,
{
    if size > 0 {
        lemma_with_block_extends(p, g, subject, day, start, size - 1, t);
        let r = with_block(p, g, subject, day, start, size - 1, t);
        let q = with_block(p, g, subject, day, start, size, t);
        assert forall|o: int| 0 <= o < size implies {
            let x = #[trigger] q[p.len() + o];
            x.group_id == g && x.subject_id == subject.id && x.day == day && x.module_index
                == start + o && x.teacher_id == t && x.classroom_id == 0
        } by {
            if o < size - 1 {
                assert(q[p.len() + o] == r[p.len() + o]);
            }
        }
        assert forall|i: int| 0 <= i < p.len() implies #[trigger] q[i] == p[i] by {
            assert(q[i] == r[i]);
        }
    }
}

/// A block adds its size to the counts that pick its lessons, and nothing
/// to the others.
pub proof fn lemma_block_count(
    p: Seq<Placement>,
    q: Seq<Placement>,
    g: i16,
    u: i16,
    day: Seq<char>,
    start: int,
    size: int,
    t: i16,
    sel: Selector,
)
    requires
        extends_by_block(p, q, g, u, day, start, size, t),
        1 <= size <= 2,
    ensures
        count_of(q, sel) == count_of(p, sel) + if selects(sel, q[p.len() as int]) {
            size
        } else {
            0
        },
{
    let n = p.len() as int;
    assert(q[n] == q[n + 0]);
    if size == 1 {
        assert(q =~= p.push(q[n]));
        lemma_count_push(p, q[n], sel);
    } else {
        assert(q =~= p.push(q[n]).push(q[n + 1]));
        lemma_count_push(p, q[n], sel);
        lemma_count_push(p.push(q[n]), q[n + 1], sel);
    }
}

/// No lesson of `p` belongs to the group and subject on the day.
pub open spec fn run_absent(p: Seq<Placement>, g: i16, u: i16, day: Seq<char>) -> bool {
    forall|i: int|
        0 <= i < p.len() ==> !((#[trigger] p[i]).group_id == g && p[i].subject_id == u && p[i].day
            == day)
}

/// No lesson of `p` uses the resource in the block.
pub open spec fn block_unused(
    p: Seq<Placement>,
    kind: Resource,
    key: i16,
    day: Seq<char>,
    start: int,
    size: int,
) -> bool {
    forall|i: int|
        0 <= i < p.len() ==> !within_range(#[trigger] p[i], kind, key, day, start, start + size)
}

#[verifier::rlimit(40)]
proof fn lemma_block_slots(
    p: Seq<Placement>,
    q: Seq<Placement>,
    kind: Resource,
    g: i16,
    u: i16,
    day: Seq<char>,
    start: int,
    size: int,
    t: i16,
)
    requires
        extends_by_block(p, q, g, u, day, start, size, t),
        slots_unique(p, kind),
        match kind {
            Resource::Group => block_unused(p, kind, g, day, start, size),
            Resource::Teacher => block_unused(p, kind, t, day, start, size),
            Resource::Room => true,
        },
    ensures
        slots_unique(q, kind),
{
    let n = p.len() as int;
    assert forall|i: int, j: int|
        #![trigger q[i], q[j]]
        0 <= i < j < q.len() && key_of(q[i], kind) == key_of(q[j], kind) && (kind is Room
            ==> key_of(q[i], kind) != 0) implies !same_slot(q[i], q[j]) by {
        if j < n {
            assert(q[i] == p[i] && q[j] == p[j]);
        } else if i < n {
            assert(q[j] == q[n + (j - n)]);
            assert(q[i] == p[i]);
            if same_slot(q[i], q[j]) {
                match kind {
                    Resource::Group => {
                        assert(within_range(p[i], kind, g, day, start, start + size));
                    },
                    Resource::Teacher => {
                        assert(within_range(p[i], kind, t, day, start, start + size));
                    },
                    Resource::Room => {},
                }
            }
        } else {
            assert(q[j] == q[n + (j - n)]);
            assert(q[i] == q[n + (i - n)]);
        }
    }
}

#[verifier::rlimit(40)]
proof fn lemma_block_shape(
    p: Seq<Placement>,
    q: Seq<Placement>,
    g: i16,
    u: i16,
    day: Seq<char>,
    start: int,
    size: int,
    t: i16,
)
    requires
        extends_by_block(p, q, g, u, day, start, size, t),
        1 <= size <= 2,
        blocks_shaped(p),
        run_absent(p, g, u, day),
    ensures
        blocks_shaped(q),
        forall|i: int| 0 <= i < p.len() ==> paired(q, i) == paired(p, i),
        forall|i: int| p.len() <= i < q.len() ==> paired(q, i) == (size == 2),
{
    let n = p.len() as int;
    assert(q[n] == q[n + 0]);
    assert forall|i: int, j: int|
        #![trigger q[i], q[j]]
        0 <= i < q.len() && 0 <= j < q.len() && i != j && same_run(
            q[i],
            q[j],
        ) implies q[i].teacher_id == q[j].teacher_id && -1 <= q[i].module_index
        - q[j].module_index <= 1 by {
        if i < n && j < n {
            assert(q[i] == p[i] && q[j] == p[j]);
        } else if i < n {
            assert(q[j] == q[n + (j - n)]);
            assert(q[i] == p[i]);
        } else if j < n {
            assert(q[i] == q[n + (i - n)]);
            assert(q[j] == p[j]);
        } else {
            assert(q[j] == q[n + (j - n)]);
            assert(q[i] == q[n + (i - n)]);
        }
    }
    assert forall|i: int| 0 <= i < n implies paired(q, i) == paired(p, i) by {
        assert(q[i] == p[i]);
        if paired(p, i) {
            let k = choose|k: int| 0 <= k < p.len() && k != i && same_run(p[i], #[trigger] p[k]);
            assert(q[k] == p[k]);
            assert(same_run(q[i], q[k]));
        }
        if paired(q, i) {
            let k = choose|k: int| 0 <= k < q.len() && k != i && same_run(q[i], #[trigger] q[k]);
            if k < n {
                assert(q[k] == p[k]);
                assert(same_run(p[i], p[k]));
            } else {
                assert(q[k] == q[n + (k - n)]);
                assert(false);
            }
        }
    }
    assert forall|i: int| n <= i < q.len() implies paired(q, i) == (size == 2) by {
        assert(q[i] == q[n + (i - n)]);
        if size == 2 {
            let k = if i == n {
                n + 1
            } else {
                n
            };
            assert(q[k] == q[n + (k - n)]);
            assert(same_run(q[i], q[k]));
        } else {
            if paired(q, i) {
                let k = choose|k: int|
                    0 <= k < q.len() && k != i && same_run(q[i], #[trigger] q[k]);
                assert(q[k] == p[k]);
            }
        }
    }
}

#[verifier::rlimit(40)]
proof fn lemma_block_singles(
    d: Domain,
    p: Seq<Placement>,
    q: Seq<Placement>,
    ui: int,
    g: i16,
    day: Seq<char>,
    start: int,
    size: int,
    t: i16,
)
    requires
        0 <= ui < d.subjects@.len(),
        forall|i: int, j: int|
            0 <= i < j < d.subjects@.len() ==> (#[trigger] d.subjects@[i]).id != (
            #[trigger] d.subjects@[j]).id,
        extends_by_block(p, q, g, d.subjects@[ui].id, day, start, size, t),
        1 <= size <= 2,
        one_single_each(p),
        singles_complete(d, p),
        forall|i: int| 0 <= i < p.len() ==> paired(q, i) == paired(p, i),
        forall|i: int| p.len() <= i < q.len() ==> paired(q, i) == (size == 2),
        count_of(p, of_group_subject(g, d.subjects@[ui].id)) + size <= required_of(
            d.subjects@[ui],
        ),
        size == 1 ==> count_of(p, of_group_subject(g, d.subjects@[ui].id)) + 1 == required_of(
            d.subjects@[ui],
        ),
    ensures
        one_single_each(q),
        singles_complete(d, q),
{
    let n = p.len() as int;
    let u = d.subjects@[ui].id;
    assert(q[n] == q[n + 0]);
    let gu = of_group_subject(g, u);
    lemma_block_count(p, q, g, u, day, start, size, t, gu);
    assert(selects(gu, q[n]));
    assert forall|i: int| 0 <= i < n && p[i].group_id == g && p[i].subject_id == u implies paired(
        p,
        i,
    ) by {
        if !paired(p, i) {
            assert(count_of(p, of_group_subject(#[trigger] p[i].group_id, p[i].subject_id))
                == required_of(d.subjects@[ui]));
        }
    }
    assert forall|i: int, j: int|
        #![trigger q[i], q[j]]
        0 <= i < j < q.len() && q[i].group_id == q[j].group_id && q[i].subject_id
            == q[j].subject_id implies paired(q, i) || paired(q, j) by {
        if j < n {
            assert(q[i] == p[i] && q[j] == p[j]);
            assert(paired(p, i) || paired(p, j));
        } else if i < n {
            assert(q[j] == q[n + (j - n)]);
            assert(q[i] == p[i]);
            assert(paired(p, i));
        } else {
            assert(size == 2);
        }
    }
    assert forall|i: int, x: int|
        #![trigger q[i], d.subjects@[x]]
        0 <= i < q.len() && 0 <= x < d.subjects@.len() && d.subjects@[x].id == q[i].subject_id
            && !paired(q, i) implies count_of(q, of_group_subject(q[i].group_id, q[i].subject_id))
        == required_of(d.subjects@[x]) by {
        if i < n {
            assert(q[i] == p[i]);
            assert(!paired(p, i));
            let sel = of_group_subject(p[i].group_id, p[i].subject_id);
            assert(count_of(p, sel) == required_of(d.subjects@[x]));
            lemma_block_count(p, q, g, u, day, start, size, t, sel);
            assert(!selects(sel, q[n]));
        } else {
            assert(q[i] == q[n + (i - n)]);
            assert(size == 1);
            assert(x == ui);
        }
    }
}

#[verifier::rlimit(40)]
proof fn lemma_block_coverage(
    d: Domain,
    p: Seq<Placement>,
    q: Seq<Placement>,
    ui: int,
    g: i16,
    day: Seq<char>,
    start: int,
    size: int,
    t: i16,
)
    requires
        0 <= ui < d.subjects@.len(),
        forall|i: int, j: int|
            0 <= i < j < d.subjects@.len() ==> (#[trigger] d.subjects@[i]).id != (
            #[trigger] d.subjects@[j]).id,
        extends_by_block(p, q, g, d.subjects@[ui].id, day, start, size, t),
        1 <= size <= 2,
        coverage_bounded(d, p),
        count_of(p, of_group_subject(g, d.subjects@[ui].id)) + size <= required_of(
            d.subjects@[ui],
        ),
    ensures
        coverage_bounded(d, q),
{
    let n = p.len() as int;
    let u = d.subjects@[ui].id;
    assert(q[n] == q[n + 0]);
    lemma_block_count(p, q, g, u, day, start, size, t, of_group_subject(g, u));
    assert forall|i: int, x: int|
        #![trigger q[i], d.subjects@[x]]
        0 <= i < q.len() && 0 <= x < d.subjects@.len() && d.subjects@[x].id
            == q[i].subject_id implies count_of(
        q,
        of_group_subject(q[i].group_id, q[i].subject_id),
    ) <= required_of(d.subjects@[x]) by {
        if i < n {
            assert(q[i] == p[i]);
            let sel = of_group_subject(p[i].group_id, p[i].subject_id);
            assert(count_of(p, sel) <= required_of(d.subjects@[x]));
            lemma_block_count(p, q, g, u, day, start, size, t, sel);
            if selects(sel, q[n]) {
                assert(x == ui);
            }
        } else {
            assert(q[i] == q[n + (i - n)]);
            assert(x == ui);
        }
    }
}

#[verifier::rlimit(40)]
proof fn lemma_block_caps(
    d: Domain,
    p: Seq<Placement>,
    q: Seq<Placement>,
    gi: int,
    ti: int,
    u: i16,
    day: Seq<char>,
    start: int,
    size: int,
)
    requires
        domain_wf(d),
        0 <= gi < d.groups@.len(),
        0 <= ti < d.teachers@.len(),
        extends_by_block(
            p,
            q,
            d.groups@[gi].id.unwrap(),
            u,
            day,
            start,
            size,
            d.teachers@[ti].id.unwrap(),
        ),
        1 <= size <= 2,
        group_caps_kept(d, p),
        teacher_loads_kept(d, p),
        count_of(p, in_group_day(d.groups@[gi].id.unwrap(), day)) + size <= group_cap(
            d.groups@[gi],
        ),
        count_of(p, by_teacher(d.teachers@[ti].id.unwrap())) + size <= teacher_cap(
            d.teachers@[ti],
        ),
    ensures
        group_caps_kept(d, q),
        teacher_loads_kept(d, q),
{
    let n = p.len() as int;
    let g = d.groups@[gi].id.unwrap();
    let t = d.teachers@[ti].id.unwrap();
    assert(q[n] == q[n + 0]);
    assert forall|a: int, b: int|
        #![trigger d.groups@[a], d.days@[b]]
        0 <= a < d.groups@.len() && 0 <= b < d.days@.len() implies count_of(
        q,
        in_group_day(d.groups@[a].id.unwrap(), d.days@[b]@),
    ) <= group_cap(d.groups@[a]) by {
        let sel = in_group_day(d.groups@[a].id.unwrap(), d.days@[b]@);
        lemma_block_count(p, q, g, u, day, start, size, t, sel);
        if selects(sel, q[n]) {
            assert(d.groups@[a].id == d.groups@[gi].id);
            assert(a == gi);
            assert(sel == in_group_day(g, day));
        }
    }
    assert forall|a: int| 0 <= a < d.teachers@.len() implies count_of(
        q,
        by_teacher((#[trigger] d.teachers@[a]).id.unwrap()),
    ) <= teacher_cap(d.teachers@[a]) by {
        let sel = by_teacher(d.teachers@[a].id.unwrap());
        lemma_block_count(p, q, g, u, day, start, size, t, sel);
        if selects(sel, q[n]) {
            assert(d.teachers@[a].id == d.teachers@[ti].id);
            assert(a == ti);
        }
    }
}

#[verifier::rlimit(40)]
proof fn lemma_block_known(
    d: Domain,
    p: Seq<Placement>,
    q: Seq<Placement>,
    gi: int,
    ui: int,
    ti: int,
    di: int,
    start: int,
    size: int,
)
    requires
        0 <= gi < d.groups@.len(),
        0 <= ui < d.subjects@.len(),
        0 <= ti < d.teachers@.len(),
        0 <= di < d.days@.len(),
        d.groups@[gi].id is Some,
        d.teachers@[ti].id is Some,
        1 <= start,
        start + size - 1 <= d.modules_per_day,
        d.teachers@[ti].subjects@.contains(d.subjects@[ui].id),
        extends_by_block(
            p,
            q,
            d.groups@[gi].id.unwrap(),
            d.subjects@[ui].id,
            d.days@[di]@,
            start,
            size,
            d.teachers@[ti].id.unwrap(),
        ),
        teachers_qualified(d, p),
        placements_known(d, p),
    ensures
        teachers_qualified(d, q),
        placements_known(d, q),
        rooms_suitable(d, p) ==> rooms_suitable(d, q),
{
    let n = p.len() as int;
    assert forall|i: int| 0 <= i < q.len() implies qualified(
        d,
        (#[trigger] q[i]).teacher_id,
        q[i].subject_id,
    ) by {
        if i < n {
            assert(q[i] == p[i]);
        } else {
            assert(q[i] == q[n + (i - n)]);
            assert(d.teachers@[ti].id == Some(q[i].teacher_id));
        }
    }
    assert forall|i: int| 0 <= i < q.len() implies has_group(d, (#[trigger] q[i]).group_id)
        && has_subject(d, q[i].subject_id) && has_day(d, q[i].day) && 1 <= q[i].module_index
        <= d.modules_per_day by {
        if i < n {
            assert(q[i] == p[i]);
        } else {
            assert(q[i] == q[n + (i - n)]);
            assert(d.groups@[gi].id == Some(q[i].group_id));
            assert(d.subjects@[ui].id == q[i].subject_id);
            assert(d.days@[di]@ == q[i].day);
        }
    }
    if rooms_suitable(d, p) {
        assert forall|i: int| 0 <= i < q.len() implies room_ok(d, #[trigger] q[i]) by {
            if i < n {
                assert(q[i] == p[i]);
            } else {
                assert(q[i] == q[n + (i - n)]);
            }
        }
    }
}

/// Placing a block that the group has room for and that passes the hard
/// constraints, taught by a qualified teacher and within what the subject
/// still requires, keeps a timetable valid.
#[verifier::rlimit(40)]
pub proof fn lemma_block_keeps_valid(
    d: Domain,
    p: Seq<Placement>,
    q: Seq<Placement>,
    gi: int,
    ui: int,
    ti: int,
    di: int,
    start: int,
    size: int,
)
    requires
        domain_wf(d),
        teaching_valid(d, p),
        0 <= gi < d.groups@.len(),
        0 <= ui < d.subjects@.len(),
        0 <= ti < d.teachers@.len(),
        0 <= di < d.days@.len(),
        1 <= size <= 2,
        1 <= start,
        start + size - 1 <= d.modules_per_day,
        free_block(p, Resource::Group, d.groups@[gi].id.unwrap(), d.days@[di]@, start, size),
        placement_allowed(
            p,
            d.groups@[gi],
            d.days@[di]@,
            start,
            size,
            d.subjects@[ui].id,
            d.teachers@[ti],
        ),
        d.teachers@[ti].subjects@.contains(d.subjects@[ui].id),
        count_of(p, of_group_subject(d.groups@[gi].id.unwrap(), d.subjects@[ui].id)) + size
            <= required_of(d.subjects@[ui]),
        size == 1 ==> count_of(p, of_group_subject(d.groups@[gi].id.unwrap(), d.subjects@[ui].id))
            + 1 == required_of(d.subjects@[ui]),
        extends_by_block(
            p,
            q,
            d.groups@[gi].id.unwrap(),
            d.subjects@[ui].id,
            d.days@[di]@,
            start,
            size,
            d.teachers@[ti].id.unwrap(),
        ),
    ensures
        teaching_valid(d, q),
        slots_unique(p, Resource::Room) ==> slots_unique(q, Resource::Room),
        rooms_suitable(d, p) ==> rooms_suitable(d, q),
{
    let g = d.groups@[gi].id.unwrap();
    let u = d.subjects@[ui].id;
    let t = d.teachers@[ti].id.unwrap();
    let day = d.days@[di]@;
    assert(run_absent(p, g, u, day)) by {
        lemma_count_zero(p, of_group_subject_day(g, u, day));
        assert forall|i: int| 0 <= i < p.len() implies !((#[trigger] p[i]).group_id == g
            && p[i].subject_id == u && p[i].day == day) by {
            assert(!selects(of_group_subject_day(g, u, day), p[i]));
        }
    }
    assert(block_unused(p, Resource::Group, g, day, start, size));
    assert(block_unused(p, Resource::Teacher, t, day, start, size));
    lemma_block_slots(p, q, Resource::Group, g, u, day, start, size, t);
    lemma_block_slots(p, q, Resource::Teacher, g, u, day, start, size, t);
    if slots_unique(p, Resource::Room) {
        lemma_block_slots(p, q, Resource::Room, g, u, day, start, size, t);
    }
    lemma_block_shape(p, q, g, u, day, start, size, t);
    lemma_block_singles(d, p, q, ui, g, day, start, size, t);
    lemma_block_coverage(d, p, q, ui, g, day, start, size, t);
    lemma_block_caps(d, p, q, gi, ti, u, day, start, size);
    lemma_block_known(d, p, q, gi, ui, ti, di, start, size);
}

} // verus!
