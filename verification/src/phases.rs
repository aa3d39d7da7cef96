//! The three phases of planning: reservation of one block for every
//! critical subject, completion of the large subjects, and the remainder.
//! Each phase walks the groups in order, and for each group the subjects
//! it requires in order.

use crate::availability::{count_matching, count_of, of_group_subject};
use crate::invariants::{plannable, requires_subject};
use crate::model::{required_of, Assignment, Domain, Placement, timetable};
use crate::planner::{
    block_plan, block_sum, can_place, get_optimal_module_splits, lemma_block_plan, place_blocks,
    placed, plan_fits,
};
use vstd::prelude::*;

verus! {

/// Weekly modules from which a subject is critical.
pub const CRITICAL_MODULES: i16 = 4;

/// The phases of a planning run.
#[derive(Debug, Clone, Copy)]
pub enum Phase {
    /// One block of two for every critical subject.
    Reservation,
    /// All remaining blocks of every subject of more than two modules.
    CriticalCompletion,
    /// All remaining blocks of every subject that is not complete.
    Remainder,
}

/// What a phase has reached: the timetable, the first (group, subject) at
/// which a critical phase found no feasible slot, and the (group, subject)
/// identifiers that the remainder phase could not place.
pub struct PhaseState {
    pub plan: Seq<Placement>,
    pub stuck: Option<(usize, usize)>,
    pub unplaced: Seq<(i16, i16)>,
}

/// Whether the phase has work to do for the group and subject.
pub open spec fn phase_applies(d: Domain, p: Seq<Placement>, gi: int, ui: int, phase: Phase) -> bool {
    let r = required_of(d.subjects@[ui]);
    let c = count_of(p, of_group_subject(d.groups@[gi].id.unwrap(), d.subjects@[ui].id));
    match phase {
        Phase::Reservation => r >= CRITICAL_MODULES && c == 0,
        Phase::CriticalCompletion => r > 2 && c < r,
        Phase::Remainder => c < r,
    }
}

/// The blocks that the phase places for the group and subject.
pub open spec fn phase_blocks(d: Domain, p: Seq<Placement>, gi: int, ui: int, phase: Phase) -> Seq<
    i16,
> {
    let r = required_of(d.subjects@[ui]);
    let c = count_of(p, of_group_subject(d.groups@[gi].id.unwrap(), d.subjects@[ui].id));
    match phase {
        Phase::Reservation => seq![2i16],
        _ => block_plan(r - c),
    }
}

/// One step of a phase: the blocks of one group and subject are placed
/// where they all can be.  Where they cannot, reservation goes on, critical
/// completion is stuck at this group and subject, and the remainder phase
/// notes them as unplaced.  A stuck phase does nothing more.
pub open spec fn phase_step(d: Domain, st: PhaseState, gi: int, ui: int, phase: Phase) -> PhaseState {
    if st.stuck is Some || !phase_applies(d, st.plan, gi, ui, phase) {
        st
    } else {
        let blocks = phase_blocks(d, st.plan, gi, ui, phase);
        if can_place(d, st.plan, gi, ui, blocks, 0) {
            PhaseState { plan: placed(d, st.plan, gi, ui, blocks, 0), ..st }
        } else {
            match phase {
                Phase::Reservation => st,
                Phase::CriticalCompletion => PhaseState {
                    stuck: Some((gi as usize, ui as usize)),
                    ..st
                },
                Phase::Remainder => PhaseState {
                    unplaced: st.unplaced.push(
                        (d.groups@[gi].id.unwrap(), d.subjects@[ui].id),
                    ),
                    ..st
                },
            }
        }
    }
}

/// The state after the phase has handled, for group `gi`, the first `b`
/// subjects of the order: each subject that the group requires takes one
/// step.
pub open spec fn group_state(
    d: Domain,
    st: PhaseState,
    gi: int,
    subject_order: Seq<usize>,
    b: int,
    phase: Phase,
) -> PhaseState
    decreases b,
{
    if b <= 0 {
        st
    } else {
        let prev = group_state(d, st, gi, subject_order, b - 1, phase);
        let ui = subject_order[b - 1] as int;
        if requires_subject(d, d.groups@[gi].id.unwrap(), d.subjects@[ui].id) {
            phase_step(d, prev, gi, ui, phase)
        } else {
            prev
        }
    }
}

/// The state after the phase has handled the first `a` groups of the
/// order.
pub open spec fn week_state(
    d: Domain,
    st: PhaseState,
    group_order: Seq<usize>,
    subject_order: Seq<usize>,
    a: int,
    phase: Phase,
) -> PhaseState
    decreases a,
{
    if a <= 0 {
        st
    } else {
        group_state(
            d,
            week_state(d, st, group_order, subject_order, a - 1, phase),
            group_order[a - 1] as int,
            subject_order,
            subject_order.len() as int,
            phase,
        )
    }
}

/// Every entry of an order is an index below `n`.
pub open spec fn order_within(order: Seq<usize>, n: int) -> bool {
    forall|k: int| 0 <= k < order.len() ==> #[trigger] order[k] < n
}

/// Whether the group requires the subject.
pub fn group_requires(d: &Domain, group_id: i16, subject_id: i16) -> (r: bool)
    ensures
        r == requires_subject(*d, group_id, subject_id),
{
    let mut k: usize = 0;
    while k < d.group_subjects.len()
        invariant
            k <= d.group_subjects.len(),
            forall|j: int|
                0 <= j < k ==> !((#[trigger] d.group_subjects@[j]).group_id == group_id
                    && d.group_subjects@[j].subject_id == subject_id),
        decreases d.group_subjects.len() - k,
    {
        if d.group_subjects[k].group_id == group_id && d.group_subjects[k].subject_id
            == subject_id {
            assert(requires_subject(*d, group_id, subject_id));
            return true;
        }
        k += 1;
    }
    false
}

/// Takes the step of `phase` for one group and subject: places the blocks
/// that the phase asks for, all or none.  Returns false where the phase had
/// blocks to place and could not place them.
#[verifier::rlimit(40)]
pub fn assign_group_subject(
    schedule: &mut Vec<Assignment>,
    d: &Domain,
    gi: usize,
    ui: usize,
    phase: Phase,
) -> (ok: bool)
    requires
        plannable(*d, timetable(old(schedule)@)),
        gi < d.groups.len(),
        ui < d.subjects.len(),
    ensures
        plannable(*d, timetable(final(schedule)@)),
        ok == (!phase_applies(*d, timetable(old(schedule)@), gi as int, ui as int, phase)
            || can_place(
            *d,
            timetable(old(schedule)@),
            gi as int,
            ui as int,
            phase_blocks(*d, timetable(old(schedule)@), gi as int, ui as int, phase),
            0,
        )),
        timetable(final(schedule)@) == (if phase_applies(
            *d,
            timetable(old(schedule)@),
            gi as int,
            ui as int,
            phase,
        ) {
            placed(
                *d,
                timetable(old(schedule)@),
                gi as int,
                ui as int,
                phase_blocks(*d, timetable(old(schedule)@), gi as int, ui as int, phase),
                0,
            )
        } else {
            timetable(old(schedule)@)
        }),
        !ok ==> final(schedule)@ == old(schedule)@,
        final(schedule)@.len() >= old(schedule)@.len(),
        final(schedule)@.take(old(schedule)@.len() as int) == old(schedule)@,
        (ok && !(phase is Reservation)) ==> count_of(
            timetable(final(schedule)@),
            of_group_subject(d.groups@[gi as int].id.unwrap(), d.subjects@[ui as int].id),
        ) >= required_of(d.subjects@[ui as int]) || (phase is CriticalCompletion && required_of(
            d.subjects@[ui as int],
        ) <= 2),
        forall|g2: i16, u2: i16|
            (g2 != d.groups@[gi as int].id.unwrap() || u2 != d.subjects@[ui as int].id)
                ==> count_of(timetable(final(schedule)@), #[trigger] of_group_subject(g2, u2))
                == count_of(timetable(old(schedule)@), of_group_subject(g2, u2)),
        count_of(
            timetable(final(schedule)@),
            of_group_subject(d.groups@[gi as int].id.unwrap(), d.subjects@[ui as int].id),
        ) >= count_of(
            timetable(old(schedule)@),
            of_group_subject(d.groups@[gi as int].id.unwrap(), d.subjects@[ui as int].id),
        ),
{
    let ghost p0 = timetable(schedule@);
    proof {
        reveal(plannable);
        assert(d.groups@[gi as int].id is Some);
        assert(required_of(d.subjects@[ui as int]) >= 1);
        assert(schedule@.take(schedule@.len() as int) =~= schedule@);
    }
    let g = d.groups[gi].id.unwrap();
    let u = d.subjects[ui].id;
    let r = d.subjects[ui].modules();
    let c = count_matching(schedule, Some(g), None, Some(u), None, None);
    if c >= r as usize {
        return true;
    }
    let applies = match phase {
        Phase::Reservation => r >= CRITICAL_MODULES && c == 0,
        Phase::CriticalCompletion => r > 2,
        Phase::Remainder => true,
    };
    if !applies {
        return true;
    }
    let blocks = match phase {
        Phase::Reservation => {
            let mut b: Vec<i16> = Vec::new();
            b.push(2);
            proof {
                assert(b@ =~= seq![2i16]);
                assert(block_sum(b@, 1) == 0);
                assert(block_sum(b@, 0) == 2);
            }
            b
        },
        _ => {
            proof {
                lemma_block_plan(r - c);
            }
            get_optimal_module_splits(r - c as i16)
        },
    };
    proof {
        assert(blocks@ == phase_blocks(*d, p0, gi as int, ui as int, phase));
        assert(plan_fits(blocks@, 0, c as int, r as int));
    }
    place_blocks(schedule, d, gi, ui, &blocks, 0)
}

/// The group has all the modules that the subject requires, or the pair
/// is noted as unplaced.
pub open spec fn pair_settled(
    d: Domain,
    p: Seq<Placement>,
    unplaced: Seq<(i16, i16)>,
    gi: int,
    ui: int,
) -> bool {
    count_of(p, of_group_subject(d.groups@[gi].id.unwrap(), d.subjects@[ui].id)) >= required_of(
        d.subjects@[ui],
    ) || unplaced.contains((d.groups@[gi].id.unwrap(), d.subjects@[ui].id))
}

/// No count of a group's lessons of a subject is lower in `q` than in `p`.
pub open spec fn counts_grow(p: Seq<Placement>, q: Seq<Placement>) -> bool {
    forall|g2: i16, u2: i16|
        count_of(q, #[trigger] of_group_subject(g2, u2)) >= count_of(p, of_group_subject(g2, u2))
}

/// A phase is stuck, if at all, at a group and a subject of the snapshot.
pub open spec fn stuck_within(d: Domain, stuck: Option<(usize, usize)>) -> bool {
    stuck matches Some(at) ==> at.0 < d.groups@.len() && at.1 < d.subjects@.len()
}

/// Every entry of `a` is an entry of `b`.
pub open spec fn notes_kept(a: Seq<(i16, i16)>, b: Seq<(i16, i16)>) -> bool {
    forall|x: (i16, i16)| a.contains(x) ==> #[trigger] b.contains(x)
}

/// Runs `phase` for one group: one step for each subject of the order
/// that the group requires.  `stuck` is what an earlier group left; the
/// result is what this group leaves.
#[verifier::rlimit(40)]
pub fn assign_group_schedule(
    schedule: &mut Vec<Assignment>,
    unplaced: &mut Vec<(i16, i16)>,
    d: &Domain,
    gi: usize,
    subject_order: &Vec<usize>,
    phase: Phase,
    stuck: Option<(usize, usize)>,
) -> (r: Option<(usize, usize)>)
    requires
        plannable(*d, timetable(old(schedule)@)),
        gi < d.groups.len(),
        order_within(subject_order@, d.subjects@.len() as int),
        stuck_within(*d, stuck),
    ensures
        plannable(*d, timetable(final(schedule)@)),
        stuck_within(*d, r),
        (PhaseState {
            plan: timetable(final(schedule)@),
            stuck: r,
            unplaced: final(unplaced)@,
        }) == group_state(
            *d,
            PhaseState { plan: timetable(old(schedule)@), stuck, unplaced: old(unplaced)@ },
            gi as int,
            subject_order@,
            subject_order@.len() as int,
            phase,
        ),
        counts_grow(timetable(old(schedule)@), timetable(final(schedule)@)),
        notes_kept(old(unplaced)@, final(unplaced)@),
        (phase is Remainder && stuck is None) ==> r is None && forall|b: int|
            0 <= b < subject_order@.len() && requires_subject(
                *d,
                d.groups@[gi as int].id.unwrap(),
                d.subjects@[#[trigger] subject_order@[b] as int].id,
            ) ==> pair_settled(
                *d,
                timetable(final(schedule)@),
                final(unplaced)@,
                gi as int,
                subject_order@[b] as int,
            ),
{
    let ghost st0 = PhaseState { plan: timetable(schedule@), stuck, unplaced: unplaced@ };
    let mut now = stuck;
    proof {
        reveal(plannable);
        assert(d.groups@[gi as int].id is Some);
    }
    let g = d.groups[gi].id.unwrap();
    let mut b: usize = 0;
    while b < subject_order.len()
        invariant
            b <= subject_order.len(),
            plannable(*d, timetable(schedule@)),
            gi < d.groups.len(),
            d.groups@[gi as int].id == Some(g),
            order_within(subject_order@, d.subjects@.len() as int),
            st0.stuck == stuck,
            stuck_within(*d, now),
            (PhaseState { plan: timetable(schedule@), stuck: now, unplaced: unplaced@ })
                == group_state(*d, st0, gi as int, subject_order@, b as int, phase),
            counts_grow(st0.plan, timetable(schedule@)),
            notes_kept(st0.unplaced, unplaced@),
            (phase is Remainder && stuck is None) ==> now is None && forall|b2: int|
                0 <= b2 < b && requires_subject(
                    *d,
                    g,
                    d.subjects@[#[trigger] subject_order@[b2] as int].id,
                ) ==> pair_settled(
                    *d,
                    timetable(schedule@),
                    unplaced@,
                    gi as int,
                    subject_order@[b2] as int,
                ),
        decreases subject_order.len() - b,
    {
        let ui = subject_order[b];
        let u = d.subjects[ui].id;
        let ghost plan_before = timetable(schedule@);
        let ghost notes_before = unplaced@;
        if group_requires(d, g, u) {
            if now.is_none() {
                let ok = assign_group_subject(schedule, d, gi, ui, phase);
                if !ok {
                    match phase {
                        Phase::Reservation => {},
                        Phase::CriticalCompletion => {
                            now = Some((gi, ui));
                        },
                        Phase::Remainder => {
                            unplaced.push((g, u));
                            proof {
                                assert(unplaced@[notes_before.len() as int] == (g, u));
                                assert forall|x: (i16, i16)| notes_before.contains(x) implies #[trigger] unplaced@.contains(
                                    x,
                                ) by {
                                    let k = choose|k: int| 0 <= k < notes_before.len() && notes_before[k] == x;
                                    assert(unplaced@[k] == x);
                                }
                            }
                        },
                    }
                }
            }
        }
        proof {
            assert(counts_grow(plan_before, timetable(schedule@)));
            assert(notes_kept(notes_before, unplaced@));
            if phase is Remainder && stuck is None {
                assert forall|b2: int|
                    0 <= b2 < b + 1 && requires_subject(
                        *d,
                        g,
                        d.subjects@[#[trigger] subject_order@[b2] as int].id,
                    ) implies pair_settled(
                    *d,
                    timetable(schedule@),
                    unplaced@,
                    gi as int,
                    subject_order@[b2] as int,
                ) by {
                    if b2 < b {
                        assert(pair_settled(*d, plan_before, notes_before, gi as int, subject_order@[b2] as int));
                        let x = (g, d.subjects@[subject_order@[b2] as int].id);
                        if notes_before.contains(x) {
                            assert(unplaced@.contains(x));
                        }
                    }
                }
            }
        }
        b += 1;
    }
    now
}

/// Runs `phase` for every group of the order.
#[verifier::rlimit(40)]
pub fn run_phase(
    schedule: &mut Vec<Assignment>,
    unplaced: &mut Vec<(i16, i16)>,
    d: &Domain,
    group_order: &Vec<usize>,
    subject_order: &Vec<usize>,
    phase: Phase,
) -> (r: Option<(usize, usize)>)
    requires
        plannable(*d, timetable(old(schedule)@)),
        order_within(group_order@, d.groups@.len() as int),
        order_within(subject_order@, d.subjects@.len() as int),
    ensures
        plannable(*d, timetable(final(schedule)@)),
        stuck_within(*d, r),
        (PhaseState {
            plan: timetable(final(schedule)@),
            stuck: r,
            unplaced: final(unplaced)@,
        }) == week_state(
            *d,
            PhaseState { plan: timetable(old(schedule)@), stuck: None, unplaced: old(unplaced)@ },
            group_order@,
            subject_order@,
            group_order@.len() as int,
            phase,
        ),
        counts_grow(timetable(old(schedule)@), timetable(final(schedule)@)),
        notes_kept(old(unplaced)@, final(unplaced)@),
        phase is Remainder ==> r is None && forall|a: int, b: int|
            0 <= a < group_order@.len() && 0 <= b < subject_order@.len() && requires_subject(
                *d,
                d.groups@[#[trigger] group_order@[a] as int].id.unwrap(),
                d.subjects@[#[trigger] subject_order@[b] as int].id,
            ) ==> pair_settled(
                *d,
                timetable(final(schedule)@),
                final(unplaced)@,
                group_order@[a] as int,
                subject_order@[b] as int,
            ),
{
    let ghost st0 = PhaseState { plan: timetable(schedule@), stuck: None, unplaced: unplaced@ };
    let mut now: Option<(usize, usize)> = None;
    let mut a: usize = 0;
    while a < group_order.len()
        invariant
            a <= group_order.len(),
            plannable(*d, timetable(schedule@)),
            order_within(group_order@, d.groups@.len() as int),
            order_within(subject_order@, d.subjects@.len() as int),
            stuck_within(*d, now),
            (PhaseState { plan: timetable(schedule@), stuck: now, unplaced: unplaced@ })
                == week_state(*d, st0, group_order@, subject_order@, a as int, phase),
            counts_grow(st0.plan, timetable(schedule@)),
            notes_kept(st0.unplaced, unplaced@),
            phase is Remainder ==> now is None && forall|a2: int, b: int|
                0 <= a2 < a && 0 <= b < subject_order@.len() && requires_subject(
                    *d,
                    d.groups@[#[trigger] group_order@[a2] as int].id.unwrap(),
                    d.subjects@[#[trigger] subject_order@[b] as int].id,
                ) ==> pair_settled(
                    *d,
                    timetable(schedule@),
                    unplaced@,
                    group_order@[a2] as int,
                    subject_order@[b] as int,
                ),
        decreases group_order.len() - a,
    {
        let gi = group_order[a];
        let ghost plan_before = timetable(schedule@);
        let ghost notes_before = unplaced@;
        now = assign_group_schedule(schedule, unplaced, d, gi, subject_order, phase, now);
        proof {
            if phase is Remainder {
                assert forall|a2: int, b: int|
                    0 <= a2 < a + 1 && 0 <= b < subject_order@.len() && requires_subject(
                        *d,
                        d.groups@[#[trigger] group_order@[a2] as int].id.unwrap(),
                        d.subjects@[#[trigger] subject_order@[b] as int].id,
                    ) implies pair_settled(
                    *d,
                    timetable(schedule@),
                    unplaced@,
                    group_order@[a2] as int,
                    subject_order@[b] as int,
                ) by {
                    if a2 < a {
                        assert(pair_settled(
                            *d,
                            plan_before,
                            notes_before,
                            group_order@[a2] as int,
                            subject_order@[b] as int,
                        ));
                        let x = (
                            d.groups@[group_order@[a2] as int].id.unwrap(),
                            d.subjects@[subject_order@[b] as int].id,
                        );
                        let sel = of_group_subject(x.0, x.1);
                        assert(count_of(timetable(schedule@), sel) >= count_of(plan_before, sel));
                        if notes_before.contains(x) {
                            assert(unplaced@.contains(x));
                        }
                    }
                }
            }
        }
        a += 1;
    }
    now
}

} // verus!
