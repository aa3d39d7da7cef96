//! The placement planner: the block plan of a subject, the search for the
//! first slot that takes a block, and the placement of all blocks of one
//! subject for one group with backtracking.

use crate::availability::{
    count_of, free_block, is_schedule_available, of_group_subject, reserve, Resource,
};
use crate::invariants::{
    domain_wf, lemma_block_count, lemma_block_keeps_valid,
    lemma_with_block_extends, lesson, plannable, with_block,
};
use crate::model::{
    required_of, Assignment, Domain, Placement, SubjectWithTeacher, timetable,
    MAX_CONSECUTIVE_MODULES,
};
use crate::scoring::{
    find_best_teacher, is_best_teacher, ranks_before,
};
use vstd::prelude::*;

verus! {

/// The default day set, in order.
pub fn get_sorted_days() -> (r: Vec<String>)
    ensures
        r@.len() == 5,
        r@[0]@ == "Monday"@,
        r@[1]@ == "Tuesday"@,
        r@[2]@ == "Wednesday"@,
        r@[3]@ == "Thursday"@,
        r@[4]@ == "Friday"@,
{
    let mut r: Vec<String> = Vec::new();
    r.push("Monday".to_owned());
    r.push("Tuesday".to_owned());
    r.push("Wednesday".to_owned());
    r.push("Thursday".to_owned());
    r.push("Friday".to_owned());
    r
}

/// The block plan of `r` modules: blocks of two, and a last block of one
/// where `r` is odd.
pub open spec fn block_plan(r: int) -> Seq<i16>
    decreases r,
{
    if r <= 0 {
        Seq::empty()
    } else if r == 1 {
        seq![1i16]
    } else {
        seq![2i16] + block_plan(r - 2)
    }
}

/// The modules in the blocks from block `k` on.
pub open spec fn block_sum(blocks: Seq<i16>, k: int) -> int
    decreases blocks.len() - k,
{
    if k < 0 || k >= blocks.len() {
        0
    } else {
        blocks[k] + block_sum(blocks, k + 1)
    }
}

/// The blocks from `k` on are a tail of a block plan that a subject with
/// `count` modules placed and `required` modules in all can still take:
/// blocks of two, a block of one only as the last, no more modules than
/// are missing, and exactly the missing ones where the last block is a
/// single.
pub open spec fn plan_fits(blocks: Seq<i16>, k: int, count: int, required: int) -> bool {
    &&& 0 <= k <= blocks.len()
    &&& forall|j: int|
        k <= j < blocks.len() ==> (#[trigger] blocks[j] == 2 || (blocks[j] == 1 && j
            == blocks.len() - 1))
    &&& count + block_sum(blocks, k) <= required
    &&& (k < blocks.len() && blocks[blocks.len() - 1] == 1) ==> count + block_sum(blocks, k)
        == required
}

/// Blocks of no negative size hold no negative number of modules.
pub proof fn lemma_block_sum_nonneg(blocks: Seq<i16>, k: int)
    requires
        forall|j: int| k <= j < blocks.len() ==> #[trigger] blocks[j] >= 0,
    ensures
        block_sum(blocks, k) >= 0,
    decreases blocks.len() - k,
{
    if 0 <= k < blocks.len() {
        lemma_block_sum_nonneg(blocks, k + 1);
    }
}

/// The block plan of `r` modules holds `r` modules, in blocks of two with
/// at most a last block of one.
pub proof fn lemma_block_plan(r: int)
    requires
        0 <= r,
    ensures
        block_sum(block_plan(r), 0) == r,
        block_plan(r).len() == (r + 1) / 2,
        forall|j: int|
            0 <= j < block_plan(r).len() ==> (#[trigger] block_plan(r)[j] == 2 || (block_plan(
                r,
            )[j] == 1 && j == block_plan(r).len() - 1)),
    decreases r,
{
    if r >= 2 {
        lemma_block_plan(r - 2);
        let rest = block_plan(r - 2);
        let all = block_plan(r);
        assert(all == seq![2i16] + rest);
        assert forall|j: int| 0 <= j < all.len() implies (#[trigger] all[j] == 2 || (all[j] == 1
            && j == all.len() - 1)) by {
            if j > 0 {
                assert(all[j] == rest[j - 1]);
            }
        }
        lemma_block_sum_shift(seq![2i16], rest, 0);
        assert(block_sum(all, 1) == block_sum(rest, 0));
    } else if r == 1 {
        assert(block_sum(seq![1i16], 1) == 0);
    }
}

proof fn lemma_block_sum_shift(head: Seq<i16>, rest: Seq<i16>, k: int)
    requires
        0 <= k <= rest.len(),
    ensures
        block_sum(head + rest, head.len() + k) == block_sum(rest, k),
    decreases rest.len() - k,
{
    if k < rest.len() {
        lemma_block_sum_shift(head, rest, k + 1);
        assert((head + rest)[head.len() + k] == rest[k]);
    }
}

/// Splits the modules a subject requires into its block plan.
pub fn get_optimal_module_splits(required_modules: i16) -> (r: Vec<i16>)
    ensures
        r@ == block_plan(required_modules as int),
{
    let mut blocks: Vec<i16> = Vec::new();
    let mut remaining: i16 = required_modules;
    proof {
        assert(blocks@ + block_plan(remaining as int) =~= block_plan(required_modules as int));
    }
    while remaining > 0
        invariant
            blocks@ + block_plan(remaining as int) == block_plan(required_modules as int),
        decreases remaining,
    {
        let ghost before = blocks@;
        if remaining >= MAX_CONSECUTIVE_MODULES {
            blocks.push(MAX_CONSECUTIVE_MODULES);
            proof {
                assert(before.push(2i16) + block_plan(remaining - 2) =~= before + (seq![2i16]
                    + block_plan(remaining - 2)));
            }
            remaining = remaining - MAX_CONSECUTIVE_MODULES;
        } else {
            blocks.push(remaining);
            proof {
                assert(block_plan(0) =~= Seq::<i16>::empty());
                assert(before.push(1i16) + block_plan(0) =~= before + seq![1i16]);
            }
            remaining = 0;
        }
    }
    proof {
        assert(blocks@ + block_plan(remaining as int) =~= blocks@);
    }
    blocks
}

/// Adds one block to the schedule: `size` lessons of the subject for the
/// group on `day` from module `start`, taught by `teacher_id`, without a
/// room.
pub fn push_block(
    schedule: &mut Vec<Assignment>,
    group_id: i16,
    subject: &SubjectWithTeacher,
    day: &str,
    start: i16,
    size: i16,
    teacher_id: i16,
)
    requires
        0 <= size,
        start + size <= i16::MAX,
    ensures
        timetable(final(schedule)@) == with_block(
            timetable(old(schedule)@),
            group_id,
            *subject,
            day@,
            start as int,
            size as int,
            teacher_id,
        ),
        final(schedule)@.len() == old(schedule)@.len() + size,
        final(schedule)@.take(old(schedule)@.len() as int) == old(schedule)@,
{
    let ghost s0 = schedule@;
    let ghost p0 = timetable(schedule@);
    let mut o: i16 = 0;
    proof {
        assert(schedule@.take(s0.len() as int) =~= s0);
    }
    while o < size
        invariant
            0 <= o <= size,
            start + size <= i16::MAX,
            schedule@.len() == s0.len() + o,
            schedule@.take(s0.len() as int) == s0,
            timetable(schedule@) == with_block(
                p0,
                group_id,
                *subject,
                day@,
                start as int,
                o as int,
                teacher_id,
            ),
        decreases size - o,
    {
        let a = Assignment {
            id: None,
            group_id,
            day: day.to_owned(),
            module_index: start + o,
            subject_id: subject.id,
            teacher_id,
            classroom_id: 0,
            subject_name: subject.name.clone(),
            subject_shorten: subject.shorten.clone(),
            subject_color: subject.color.clone(),
        };
        let ghost before = schedule@;
        proof {
            assert(a@ == lesson(group_id, *subject, day@, start + o + 1 - 1, teacher_id));
        }
        reserve(schedule, a);
        proof {
            assert(schedule@.take(s0.len() as int) =~= before.take(s0.len() as int));
        }
        o = o + 1;
    }
}

/// The slot can take a block of the subject for the group: it lies within
/// the week, the group is free, and some qualified teacher passes the hard
/// constraints.
pub open spec fn slot_open(
    d: Domain,
    p: Seq<Placement>,
    gi: int,
    ui: int,
    di: int,
    start: int,
    size: int,
) -> bool {
    &&& 0 <= di < d.days@.len()
    &&& 1 <= start
    &&& start + size - 1 <= d.modules_per_day
    &&& free_block(p, Resource::Group, d.groups@[gi].id.unwrap(), d.days@[di]@, start, size)
    &&& exists|k: int|
        is_best_teacher(
            p,
            d.groups@[gi],
            d.subjects@[ui].id,
            d.days@[di]@,
            start,
            size,
            d.teachers@,
            true,
            k,
        )
}

/// The best teacher for the block at the slot.
pub open spec fn chosen_teacher(
    d: Domain,
    p: Seq<Placement>,
    gi: int,
    ui: int,
    di: int,
    start: int,
    size: int,
) -> int {
    choose|k: int|
        is_best_teacher(
            p,
            d.groups@[gi],
            d.subjects@[ui].id,
            d.days@[di]@,
            start,
            size,
            d.teachers@,
            true,
            k,
        )
}

/// The timetable after the block is placed at the slot with its best
/// teacher.
pub open spec fn after_block(
    d: Domain,
    p: Seq<Placement>,
    gi: int,
    ui: int,
    di: int,
    start: int,
    size: int,
) -> Seq<Placement> {
    with_block(
        p,
        d.groups@[gi].id.unwrap(),
        d.subjects@[ui],
        d.days@[di]@,
        start,
        size,
        d.teachers@[chosen_teacher(d, p, gi, ui, di, start, size)].id.unwrap(),
    )
}

/// The blocks from `k` on can all be placed, one after the other, each at
/// an open slot.  Blocks of one subject lie on different days, so more
/// blocks than the week has days are never placed.
pub open spec fn can_place(
    d: Domain,
    p: Seq<Placement>,
    gi: int,
    ui: int,
    blocks: Seq<i16>,
    k: int,
) -> bool
    decreases blocks.len() - k,
{
    if k < 0 || k >= blocks.len() {
        true
    } else {
        blocks.len() - k <= d.days@.len() && exists|di: int, start: int|
            #![trigger slot_open(d, p, gi, ui, di, start, blocks[k] as int)]
            slot_open(d, p, gi, ui, di, start, blocks[k] as int) && can_place(
                d,
                after_block(d, p, gi, ui, di, start, blocks[k] as int),
                gi,
                ui,
                blocks,
                k + 1,
            )
    }
}

/// Block `k` can go to the slot and the blocks after it can then be placed.
pub open spec fn slot_leads(
    d: Domain,
    p: Seq<Placement>,
    gi: int,
    ui: int,
    blocks: Seq<i16>,
    k: int,
    di: int,
    start: int,
) -> bool {
    slot_open(d, p, gi, ui, di, start, blocks[k] as int) && can_place(
        d,
        after_block(d, p, gi, ui, di, start, blocks[k] as int),
        gi,
        ui,
        blocks,
        k + 1,
    )
}

/// Slot `(d1, s1)` is searched before slot `(d2, s2)`: earlier days first,
/// and within a day earlier modules.
pub open spec fn slot_before(d1: int, s1: int, d2: int, s2: int) -> bool {
    d1 < d2 || (d1 == d2 && s1 < s2)
}

/// The slot is the first, in search order, from which block `k` and the
/// blocks after it can be placed.
pub open spec fn is_first_lead(
    d: Domain,
    p: Seq<Placement>,
    gi: int,
    ui: int,
    blocks: Seq<i16>,
    k: int,
    di: int,
    start: int,
) -> bool {
    &&& slot_leads(d, p, gi, ui, blocks, k, di, start)
    &&& forall|d2: int, s2: int|
        slot_before(d2, s2, di, start) ==> !#[trigger] slot_leads(d, p, gi, ui, blocks, k, d2, s2)
}

/// The timetable after the blocks from `k` on are placed, each at the
/// first slot from which the rest can follow; the timetable unchanged
/// where they cannot all be placed.
pub open spec fn placed(
    d: Domain,
    p: Seq<Placement>,
    gi: int,
    ui: int,
    blocks: Seq<i16>,
    k: int,
) -> Seq<Placement>
    decreases blocks.len() - k,
{
    if k < 0 || k >= blocks.len() || !can_place(d, p, gi, ui, blocks, k) {
        p
    } else {
        let x = choose|x: (int, int)| is_first_lead(d, p, gi, ui, blocks, k, x.0, x.1);
        placed(d, after_block(d, p, gi, ui, x.0, x.1, blocks[k] as int), gi, ui, blocks, k + 1)
    }
}

/// Among identified teachers with distinct identifiers the best teacher
/// for a block is unique.
pub proof fn lemma_best_unique(
    d: Domain,
    p: Seq<Placement>,
    gi: int,
    ui: int,
    di: int,
    start: int,
    size: int,
    k1: int,
    k2: int,
)
    requires
        domain_wf(d),
        is_best_teacher(
            p,
            d.groups@[gi],
            d.subjects@[ui].id,
            d.days@[di]@,
            start,
            size,
            d.teachers@,
            true,
            k1,
        ),
        is_best_teacher(
            p,
            d.groups@[gi],
            d.subjects@[ui].id,
            d.days@[di]@,
            start,
            size,
            d.teachers@,
            true,
            k2,
        ),
    ensures
        k1 == k2,
{
    let a = d.teachers@[k1];
    let b = d.teachers@[k2];
    assert(ranks_before(p, d.days@[di]@, start, size, a, b));
    assert(ranks_before(p, d.days@[di]@, start, size, b, a));
    assert(a.id == b.id);
}

#[verifier::rlimit(40)]
proof fn lemma_placing_step(
    d: Domain,
    p: Seq<Placement>,
    q: Seq<Placement>,
    gi: int,
    ui: int,
    ti: int,
    di: int,
    start: int,
    blocks: Seq<i16>,
    k: int,
)
    requires
        plannable(d, p),
        0 <= gi < d.groups@.len(),
        0 <= ui < d.subjects@.len(),
        0 <= di < d.days@.len(),
        0 <= k < blocks.len(),
        1 <= start,
        start + blocks[k] - 1 <= d.modules_per_day,
        plan_fits(
            blocks,
            k,
            count_of(p, of_group_subject(d.groups@[gi].id.unwrap(), d.subjects@[ui].id)) as int,
            required_of(d.subjects@[ui]),
        ),
        free_block(
            p,
            Resource::Group,
            d.groups@[gi].id.unwrap(),
            d.days@[di]@,
            start,
            blocks[k] as int,
        ),
        is_best_teacher(
            p,
            d.groups@[gi],
            d.subjects@[ui].id,
            d.days@[di]@,
            start,
            blocks[k] as int,
            d.teachers@,
            true,
            ti,
        ),
        q == with_block(
            p,
            d.groups@[gi].id.unwrap(),
            d.subjects@[ui],
            d.days@[di]@,
            start,
            blocks[k] as int,
            d.teachers@[ti].id.unwrap(),
        ),
    ensures
        slot_open(d, p, gi, ui, di, start, blocks[k] as int),
        q == after_block(d, p, gi, ui, di, start, blocks[k] as int),
        plannable(d, q),
        q.len() == p.len() + blocks[k],
        plan_fits(
            blocks,
            k + 1,
            count_of(q, of_group_subject(d.groups@[gi].id.unwrap(), d.subjects@[ui].id)) as int,
            required_of(d.subjects@[ui]),
        ),
        count_of(q, of_group_subject(d.groups@[gi].id.unwrap(), d.subjects@[ui].id)) == count_of(
            p,
            of_group_subject(d.groups@[gi].id.unwrap(), d.subjects@[ui].id),
        ) + blocks[k],
        forall|g2: i16, u2: i16|
            (g2 != d.groups@[gi].id.unwrap() || u2 != d.subjects@[ui].id) ==> count_of(
                q,
                #[trigger] of_group_subject(g2, u2),
            ) == count_of(p, of_group_subject(g2, u2)),
{
    let g = d.groups@[gi].id.unwrap();
    let u = d.subjects@[ui].id;
    let t = d.teachers@[ti].id.unwrap();
    let day = d.days@[di]@;
    let size = blocks[k] as int;
    reveal(plannable);
    let c = chosen_teacher(d, p, gi, ui, di, start, size);
    lemma_best_unique(d, p, gi, ui, di, start, size, ti, c);
    lemma_with_block_extends(p, g, d.subjects@[ui], day, start, size, t);
    assert(block_sum(blocks, k) == blocks[k] + block_sum(blocks, k + 1));
    assert forall|j: int| k + 1 <= j < blocks.len() implies #[trigger] blocks[j] >= 0 by {}
    lemma_block_sum_nonneg(blocks, k + 1);
    lemma_block_keeps_valid(d, p, q, gi, ui, ti, di, start, size);
    lemma_block_count(p, q, g, u, day, start, size, t, of_group_subject(g, u));
    assert(q[p.len() as int] == q[p.len() as int + 0]);
    assert forall|g2: i16, u2: i16| (g2 != g || u2 != u) implies count_of(
        q,
        #[trigger] of_group_subject(g2, u2),
    ) == count_of(p, of_group_subject(g2, u2)) by {
        lemma_block_count(p, q, g, u, day, start, size, t, of_group_subject(g2, u2));
    }
}

proof fn lemma_first_lead(
    d: Domain,
    p: Seq<Placement>,
    gi: int,
    ui: int,
    blocks: Seq<i16>,
    k: int,
    di: int,
    start: int,
)
    requires
        0 <= k < blocks.len(),
        blocks.len() - k <= d.days@.len(),
        is_first_lead(d, p, gi, ui, blocks, k, di, start),
    ensures
        can_place(d, p, gi, ui, blocks, k),
        placed(d, p, gi, ui, blocks, k) == placed(
            d,
            after_block(d, p, gi, ui, di, start, blocks[k] as int),
            gi,
            ui,
            blocks,
            k + 1,
        ),
{
    assert(slot_leads(d, p, gi, ui, blocks, k, di, start));
    let w = (di, start);
    assert(is_first_lead(d, p, gi, ui, blocks, k, w.0, w.1));
    let x = choose|x: (int, int)| is_first_lead(d, p, gi, ui, blocks, k, x.0, x.1);
    assert(is_first_lead(d, p, gi, ui, blocks, k, x.0, x.1));
    assert(slot_leads(d, p, gi, ui, blocks, k, x.0, x.1));
    if slot_before(x.0, x.1, di, start) {
        assert(false);
    }
    if slot_before(di, start, x.0, x.1) {
        assert(false);
    }
    assert(x.0 == di && x.1 == start);
}

proof fn lemma_no_lead(d: Domain, p: Seq<Placement>, gi: int, ui: int, blocks: Seq<i16>, k: int)
    requires
        0 <= k < blocks.len(),
        forall|d2: int, s2: int| !#[trigger] slot_leads(d, p, gi, ui, blocks, k, d2, s2),
    ensures
        !can_place(d, p, gi, ui, blocks, k),
        placed(d, p, gi, ui, blocks, k) == p,
{
    if can_place(d, p, gi, ui, blocks, k) {
        let (di, start) = choose|di: int, start: int|
            #![trigger slot_open(d, p, gi, ui, di, start, blocks[k] as int)]
            slot_open(d, p, gi, ui, di, start, blocks[k] as int) && can_place(
                d,
                after_block(d, p, gi, ui, di, start, blocks[k] as int),
                gi,
                ui,
                blocks,
                k + 1,
            );
        assert(slot_leads(d, p, gi, ui, blocks, k, di, start));
    }
}

/// Tries block `k` at one slot: places it there with its best teacher and
/// then the blocks after it; takes it back where those cannot follow.
#[verifier::rlimit(40)]
pub fn try_slot(
    schedule: &mut Vec<Assignment>,
    d: &Domain,
    gi: usize,
    ui: usize,
    blocks: &Vec<i16>,
    k: usize,
    di: usize,
    start: i16,
) -> (ok: bool)
    requires
        plannable(*d, timetable(old(schedule)@)),
        gi < d.groups.len(),
        ui < d.subjects.len(),
        di < d.days.len(),
        k < blocks.len(),
        1 <= start,
        start + blocks@[k as int] - 1 <= d.modules_per_day,
        plan_fits(
            blocks@,
            k as int,
            count_of(
                timetable(old(schedule)@),
                of_group_subject(d.groups@[gi as int].id.unwrap(), d.subjects@[ui as int].id),
            ) as int,
            required_of(d.subjects@[ui as int]),
        ),
    ensures
        ok == slot_leads(
            *d,
            timetable(old(schedule)@),
            gi as int,
            ui as int,
            blocks@,
            k as int,
            di as int,
            start as int,
        ),
        ok ==> timetable(final(schedule)@) == placed(
            *d,
            after_block(
                *d,
                timetable(old(schedule)@),
                gi as int,
                ui as int,
                di as int,
                start as int,
                blocks@[k as int] as int,
            ),
            gi as int,
            ui as int,
            blocks@,
            k + 1,
        ),
        plannable(*d, timetable(final(schedule)@)),
        !ok ==> final(schedule)@ == old(schedule)@,
        final(schedule)@.len() >= old(schedule)@.len(),
        final(schedule)@.take(old(schedule)@.len() as int) == old(schedule)@,
        ok ==> count_of(
            timetable(final(schedule)@),
            of_group_subject(d.groups@[gi as int].id.unwrap(), d.subjects@[ui as int].id),
        ) == count_of(
            timetable(old(schedule)@),
            of_group_subject(d.groups@[gi as int].id.unwrap(), d.subjects@[ui as int].id),
        ) + block_sum(blocks@, k as int),
        forall|g2: i16, u2: i16|
            (g2 != d.groups@[gi as int].id.unwrap() || u2 != d.subjects@[ui as int].id)
                ==> count_of(timetable(final(schedule)@), #[trigger] of_group_subject(g2, u2))
                == count_of(timetable(old(schedule)@), of_group_subject(g2, u2)),
    decreases blocks.len() - k, 0int,
{
    let ghost s0 = schedule@;
    let ghost p0 = timetable(schedule@);
    let size = blocks[k];
    let group = &d.groups[gi];
    let subject = &d.subjects[ui];
    proof {
        reveal(plannable);
        assert(d.groups@[gi as int].id is Some);
        assert(1 <= d.modules_per_day <= 1000);
        assert(schedule@.take(s0.len() as int) =~= s0);
    }
    let g = group.id.unwrap();
    let n0 = schedule.len();
    let day = d.days[di].as_str();
    if !is_schedule_available(schedule, g, day, start, size) {
        return false;
    }
    match find_best_teacher(schedule, group, subject, day, start, size, &d.teachers) {
        Some(ti) => {
            let t = d.teachers[ti].id.unwrap();
            push_block(schedule, g, subject, day, start, size, t);
            let ghost q = timetable(schedule@);
            let ghost s1 = schedule@;
            proof {
                lemma_placing_step(
                    *d,
                    p0,
                    q,
                    gi as int,
                    ui as int,
                    ti as int,
                    di as int,
                    start as int,
                    blocks@,
                    k as int,
                );
                assert(block_sum(blocks@, k as int) == blocks@[k as int] + block_sum(
                    blocks@,
                    k + 1,
                ));
            }
            let ok = place_blocks(schedule, d, gi, ui, blocks, k + 1);
            if ok {
                proof {
                    assert(schedule@.take(s0.len() as int) =~= s1.take(s0.len() as int));
                }
                return true;
            }
            schedule.truncate(n0);
            proof {
                assert(schedule@ =~= s0);
            }
            false
        },
        None => false,
    }
}

/// Places the blocks from `k` on for group `gi` and subject `ui`, each at
/// the first slot, in search order, from which the blocks after it can
/// still be placed; a block that leads nowhere is taken back and the next
/// slot tried.  Where the blocks cannot all be placed the schedule is left
/// as it was.
#[verifier::rlimit(40)]
pub fn place_blocks(
    schedule: &mut Vec<Assignment>,
    d: &Domain,
    gi: usize,
    ui: usize,
    blocks: &Vec<i16>,
    k: usize,
) -> (ok: bool)
    requires
        plannable(*d, timetable(old(schedule)@)),
        gi < d.groups.len(),
        ui < d.subjects.len(),
        plan_fits(
            blocks@,
            k as int,
            count_of(
                timetable(old(schedule)@),
                of_group_subject(d.groups@[gi as int].id.unwrap(), d.subjects@[ui as int].id),
            ) as int,
            required_of(d.subjects@[ui as int]),
        ),
    ensures
        ok == can_place(*d, timetable(old(schedule)@), gi as int, ui as int, blocks@, k as int),
        timetable(final(schedule)@) == placed(
            *d,
            timetable(old(schedule)@),
            gi as int,
            ui as int,
            blocks@,
            k as int,
        ),
        plannable(*d, timetable(final(schedule)@)),
        !ok ==> final(schedule)@ == old(schedule)@,
        final(schedule)@.len() >= old(schedule)@.len(),
        final(schedule)@.take(old(schedule)@.len() as int) == old(schedule)@,
        ok ==> count_of(
            timetable(final(schedule)@),
            of_group_subject(d.groups@[gi as int].id.unwrap(), d.subjects@[ui as int].id),
        ) == count_of(
            timetable(old(schedule)@),
            of_group_subject(d.groups@[gi as int].id.unwrap(), d.subjects@[ui as int].id),
        ) + block_sum(blocks@, k as int),
        forall|g2: i16, u2: i16|
            (g2 != d.groups@[gi as int].id.unwrap() || u2 != d.subjects@[ui as int].id)
                ==> count_of(timetable(final(schedule)@), #[trigger] of_group_subject(g2, u2))
                == count_of(timetable(old(schedule)@), of_group_subject(g2, u2)),
    decreases blocks.len() - k, 1int,
{
    let ghost s0 = schedule@;
    let ghost p0 = timetable(schedule@);
    proof {
        assert(schedule@.take(s0.len() as int) =~= s0);
    }
    if k >= blocks.len() {
        return true;
    }
    if blocks.len() - k > d.days.len() {
        return false;
    }
    let size = blocks[k];
    proof {
        reveal(plannable);
        assert(1 <= d.modules_per_day <= 1000);
    }
    let ghost g = d.groups@[gi as int].id.unwrap();
    let ghost gu = of_group_subject(g, d.subjects@[ui as int].id);
    let mut di: usize = 0;
    while di < d.days.len()
        invariant
            di <= d.days.len(),
            schedule@ == s0,
            s0 == old(schedule)@,
            p0 == timetable(s0),
            plannable(*d, p0),
            1 <= d.modules_per_day <= 1000,
            gi < d.groups.len(),
            ui < d.subjects.len(),
            k < blocks.len(),
            blocks@.len() - k <= d.days@.len(),
            size == blocks@[k as int],
            1 <= size <= 2,
            gu == of_group_subject(d.groups@[gi as int].id.unwrap(), d.subjects@[ui as int].id),
            plan_fits(blocks@, k as int, count_of(p0, gu) as int, required_of(d.subjects@[ui as int])),
            forall|d2: int, s2: int|
                d2 < di ==> !#[trigger] slot_leads(*d, p0, gi as int, ui as int, blocks@, k as int, d2, s2),
        decreases d.days.len() - di,
    {
        let mut start: i16 = 1;
        while start as i32 + size as i32 - 1 <= d.modules_per_day as i32
            invariant
                di < d.days.len(),
                1 <= start <= d.modules_per_day + 1,
                schedule@ == s0,
                s0 == old(schedule)@,
                p0 == timetable(s0),
                plannable(*d, p0),
                1 <= d.modules_per_day <= 1000,
                gi < d.groups.len(),
                ui < d.subjects.len(),
                k < blocks.len(),
                blocks@.len() - k <= d.days@.len(),
                size == blocks@[k as int],
                1 <= size <= 2,
                gu == of_group_subject(
                    d.groups@[gi as int].id.unwrap(),
                    d.subjects@[ui as int].id,
                ),
                plan_fits(
                    blocks@,
                    k as int,
                    count_of(p0, gu) as int,
                    required_of(d.subjects@[ui as int]),
                ),
                forall|d2: int, s2: int|
                    d2 < di ==> !#[trigger] slot_leads(
                        *d,
                        p0,
                        gi as int,
                        ui as int,
                        blocks@,
                        k as int,
                        d2,
                        s2,
                    ),
                forall|s2: int|
                    s2 < start ==> !#[trigger] slot_leads(
                        *d,
                        p0,
                        gi as int,
                        ui as int,
                        blocks@,
                        k as int,
                        di as int,
                        s2,
                    ),
            decreases d.modules_per_day + 2 - start,
        {
            if try_slot(schedule, d, gi, ui, blocks, k, di, start) {
                proof {
                    assert(is_first_lead(
                        *d,
                        p0,
                        gi as int,
                        ui as int,
                        blocks@,
                        k as int,
                        di as int,
                        start as int,
                    ));
                    lemma_first_lead(
                        *d,
                        p0,
                        gi as int,
                        ui as int,
                        blocks@,
                        k as int,
                        di as int,
                        start as int,
                    );
                }
                return true;
            }
            start = start + 1;
        }
        di = di + 1;
    }
    proof {
        lemma_no_lead(*d, p0, gi as int, ui as int, blocks@, k as int);
    }
    false
}

} // verus!
