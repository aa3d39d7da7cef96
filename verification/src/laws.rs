//! What holds of every valid timetable, stated lesson by lesson.

use crate::availability::{
    by_teacher, count_of, in_group_day, lemma_count_take_step, lemma_count_zero,
    of_group_subject, selects, Selector,
};
use crate::invariants::{
    domain_wf, has_day, paired, qualified, room_ok, same_run, schedule_valid,
};
use crate::model::{group_cap, required_of, teacher_cap, Domain, Placement};
use vstd::prelude::*;

verus! {

/// A longer prefix of a timetable holds no fewer of the lessons that a
/// selector picks.
pub proof fn lemma_count_prefix(p: Seq<Placement>, sel: Selector, n: int, m: int)
    requires
        0 <= n <= m <= p.len(),
    ensures
        count_of(p.take(n), sel) <= count_of(p.take(m), sel),
    decreases m - n,
{
    if n < m {
        lemma_count_prefix(p, sel, n, m - 1);
        lemma_count_take_step(p, m - 1, sel);
    }
}

/// Three different lessons that a selector picks make a count of three or
/// more.
pub proof fn lemma_count_three(p: Seq<Placement>, sel: Selector, a: int, b: int, c: int)
    requires
        0 <= a < b < c < p.len(),
        selects(sel, p[a]),
        selects(sel, p[b]),
        selects(sel, p[c]),
    ensures
        count_of(p, sel) >= 3,
{
    lemma_count_take_step(p, a, sel);
    lemma_count_prefix(p, sel, a + 1, b);
    lemma_count_take_step(p, b, sel);
    lemma_count_prefix(p, sel, b + 1, c);
    lemma_count_take_step(p, c, sel);
    lemma_count_prefix(p, sel, c + 1, p.len() as int);
    assert(p.take(p.len() as int) =~= p);
}

/// A group has at most one lesson in a slot.
pub proof fn law_group_slot_unique(d: Domain, p: Seq<Placement>, i: int, j: int)
    requires
        schedule_valid(d, p),
        0 <= i < p.len(),
        0 <= j < p.len(),
        i != j,
        p[i].group_id == p[j].group_id,
        p[i].day == p[j].day,
    ensures
        p[i].module_index != p[j].module_index,
{
    if i < j {
        assert(!crate::invariants::same_slot(p[i], p[j]));
    } else {
        assert(!crate::invariants::same_slot(p[j], p[i]));
    }
}

/// A teacher has at most one lesson in a slot.
pub proof fn law_teacher_slot_unique(d: Domain, p: Seq<Placement>, i: int, j: int)
    requires
        schedule_valid(d, p),
        0 <= i < p.len(),
        0 <= j < p.len(),
        i != j,
        p[i].teacher_id == p[j].teacher_id,
        p[i].day == p[j].day,
    ensures
        p[i].module_index != p[j].module_index,
{
    if i < j {
        assert(!crate::invariants::same_slot(p[i], p[j]));
    } else {
        assert(!crate::invariants::same_slot(p[j], p[i]));
    }
}

/// A room, other than "no room", has at most one lesson in a slot.
pub proof fn law_room_slot_unique(d: Domain, p: Seq<Placement>, i: int, j: int)
    requires
        schedule_valid(d, p),
        0 <= i < p.len(),
        0 <= j < p.len(),
        i != j,
        p[i].classroom_id != 0,
        p[i].classroom_id == p[j].classroom_id,
        p[i].day == p[j].day,
    ensures
        p[i].module_index != p[j].module_index,
{
    if i < j {
        assert(!crate::invariants::same_slot(p[i], p[j]));
    } else {
        assert(!crate::invariants::same_slot(p[j], p[i]));
    }
}

/// A group never has more lessons of a subject than the subject requires.
pub proof fn law_coverage_bounded(d: Domain, p: Seq<Placement>, i: int, ui: int)
    requires
        schedule_valid(d, p),
        0 <= i < p.len(),
        0 <= ui < d.subjects@.len(),
        d.subjects@[ui].id == p[i].subject_id,
    ensures
        count_of(p, of_group_subject(p[i].group_id, p[i].subject_id)) <= required_of(
            d.subjects@[ui],
        ),
{
}

/// Where a group has no more than two lessons of a subject, they all lie
/// on one day.
pub proof fn law_small_subject_one_day(d: Domain, p: Seq<Placement>, i: int, j: int)
    requires
        schedule_valid(d, p),
        0 <= i < p.len(),
        0 <= j < p.len(),
        p[i].group_id == p[j].group_id,
        p[i].subject_id == p[j].subject_id,
        count_of(p, of_group_subject(p[i].group_id, p[i].subject_id)) <= 2,
    ensures
        p[i].day == p[j].day,
{
    lemma_two_on_one_day(p, i, j);
}

#[verifier::rlimit(40)]
proof fn lemma_two_on_one_day(p: Seq<Placement>, i: int, j: int)
    requires
        crate::invariants::one_single_each(p),
        0 <= i < p.len(),
        0 <= j < p.len(),
        p[i].group_id == p[j].group_id,
        p[i].subject_id == p[j].subject_id,
        count_of(p, of_group_subject(p[i].group_id, p[i].subject_id)) <= 2,
    ensures
        p[i].day == p[j].day,
{
    if p[i].day != p[j].day {
        let sel = of_group_subject(p[i].group_id, p[i].subject_id);
        if paired(p, i) {
            let k = choose|k: int| 0 <= k < p.len() && k != i && same_run(p[i], #[trigger] p[k]);
            lemma_three_lessons(p, sel, i, j, k);
        } else if paired(p, j) {
            let k = choose|k: int| 0 <= k < p.len() && k != j && same_run(p[j], #[trigger] p[k]);
            lemma_three_lessons(p, sel, i, j, k);
        } else {
            if i < j {
                assert(paired(p, i) || paired(p, j));
            } else {
                assert(paired(p, j) || paired(p, i));
            }
        }
    }
}

proof fn lemma_three_lessons(p: Seq<Placement>, sel: Selector, a: int, b: int, c: int)
    requires
        0 <= a < p.len(),
        0 <= b < p.len(),
        0 <= c < p.len(),
        a != b,
        a != c,
        b != c,
        selects(sel, p[a]),
        selects(sel, p[b]),
        selects(sel, p[c]),
    ensures
        count_of(p, sel) >= 3,
{
    if a < b && b < c {
        lemma_count_three(p, sel, a, b, c);
    } else if a < c && c < b {
        lemma_count_three(p, sel, a, c, b);
    } else if b < a && a < c {
        lemma_count_three(p, sel, b, a, c);
    } else if b < c && c < a {
        lemma_count_three(p, sel, b, c, a);
    } else if c < a && a < b {
        lemma_count_three(p, sel, c, a, b);
    } else {
        lemma_count_three(p, sel, c, b, a);
    }
}

/// A group never has more lessons on a day than its daily cap.
pub proof fn law_group_daily_cap(d: Domain, p: Seq<Placement>, gi: int, day: Seq<char>)
    requires
        domain_wf(d),
        schedule_valid(d, p),
        0 <= gi < d.groups@.len(),
    ensures
        count_of(p, in_group_day(d.groups@[gi].id.unwrap(), day)) <= group_cap(d.groups@[gi]),
{
    let sel = in_group_day(d.groups@[gi].id.unwrap(), day);
    if has_day(d, day) {
        let di = choose|di: int| 0 <= di < d.days@.len() && (#[trigger] d.days@[di])@ == day;
        assert(count_of(p, in_group_day(d.groups@[gi].id.unwrap(), d.days@[di]@)) <= group_cap(
            d.groups@[gi],
        ));
    } else {
        lemma_count_zero(p, sel);
        assert forall|i: int| 0 <= i < p.len() implies !selects(sel, #[trigger] p[i]) by {
            assert(has_day(d, p[i].day));
        }
    }
}

/// A teacher never has more lessons in the week than their cap.
pub proof fn law_teacher_load_cap(d: Domain, p: Seq<Placement>, ti: int)
    requires
        schedule_valid(d, p),
        0 <= ti < d.teachers@.len(),
    ensures
        count_of(p, by_teacher(d.teachers@[ti].id.unwrap())) <= teacher_cap(d.teachers@[ti]),
{
}

/// Every lesson is taught by a teacher of the snapshot who may teach its
/// subject.
pub proof fn law_teacher_qualified(d: Domain, p: Seq<Placement>, i: int)
    requires
        schedule_valid(d, p),
        0 <= i < p.len(),
    ensures
        qualified(d, p[i].teacher_id, p[i].subject_id),
{
}

/// Every lesson with a room has a room of the snapshot that holds the
/// group, may be used at the slot and is of the type the subject needs.
pub proof fn law_room_suitable(d: Domain, p: Seq<Placement>, i: int)
    requires
        schedule_valid(d, p),
        0 <= i < p.len(),
    ensures
        room_ok(d, p[i]),
{
}

/// Two lessons of one group, subject and day are taught by one teacher in
/// neighbouring modules.
pub proof fn law_block_contiguous(d: Domain, p: Seq<Placement>, i: int, j: int)
    requires
        schedule_valid(d, p),
        0 <= i < p.len(),
        0 <= j < p.len(),
        i != j,
        same_run(p[i], p[j]),
    ensures
        p[i].teacher_id == p[j].teacher_id,
        p[i].module_index - p[j].module_index == 1 || p[j].module_index - p[i].module_index == 1,
{
    law_group_slot_unique(d, p, i, j);
}

/// No run of lessons of one group, subject and day is longer than two.
pub proof fn law_runs_short(d: Domain, p: Seq<Placement>, i: int, j: int, k: int)
    requires
        schedule_valid(d, p),
        0 <= i < p.len(),
        0 <= j < p.len(),
        0 <= k < p.len(),
        same_run(p[i], p[j]),
        same_run(p[i], p[k]),
    ensures
        i == j || i == k || j == k,
{
    if i != j && i != k && j != k {
        assert(same_run(p[j], p[k]));
        law_block_contiguous(d, p, i, j);
        law_block_contiguous(d, p, i, k);
        law_block_contiguous(d, p, j, k);
    }
}

} // verus!
