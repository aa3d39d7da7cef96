//! The entry point: a whole planning run, from the check of the snapshot
//! to the optimized schedule.

use crate::availability::{count_of, lemma_count_witness, of_group_subject};
use crate::invariants::{domain_wf, plannable, requires_subject, schedule_valid};
use crate::model::{
    required_of, Assignment, Domain, Placement, PlanningError, Teacher, timetable,
};
use crate::optimize::{
    lemma_retimed_counts, no_improvement, optimize_schedule, retimed, rounds_of,
    MAX_OPTIMIZER_ROUNDS,
};
use crate::ordering::{
    group_before, lists_all, sort_groups_by_priority, sort_subjects_by_priority, subject_before,
};
use crate::phases::{
    order_within, pair_settled, run_phase, week_state, Phase, PhaseState,
};
use crate::rooms::{assign_classrooms, room_step, rooms_state};
use crate::validate::check_domain;
use vstd::prelude::*;

verus! {

/// What a successful planning run returns.
#[derive(Debug)]
pub struct PlanningOutcome {
    /// The schedule.
    pub assignments: Vec<Assignment>,
    /// The (group, subject) identifiers that the remainder phase could not
    /// place.
    pub unplaced: Vec<(i16, i16)>,
    /// Whether the optimizer stopped because it found nothing more to
    /// change.
    pub settled: bool,
}

/// Some teacher of the snapshot may teach the subject.
pub open spec fn teachable(d: Domain, subject_id: i16) -> bool {
    exists|ti: int|
        0 <= ti < d.teachers@.len() && (#[trigger] d.teachers@[ti]).subjects@.contains(subject_id)
}

/// Requirement `k` is the first whose subject no teacher may teach.
pub open spec fn first_unteachable(d: Domain, k: int) -> bool {
    &&& 0 <= k < d.group_subjects@.len()
    &&& !teachable(d, d.group_subjects@[k].subject_id)
    &&& forall|j: int| 0 <= j < k ==> teachable(d, (#[trigger] d.group_subjects@[j]).subject_id)
}

/// Every required subject has a teacher who may teach it.
pub open spec fn all_teachable(d: Domain) -> bool {
    forall|j: int|
        0 <= j < d.group_subjects@.len() ==> teachable(
            d,
            (#[trigger] d.group_subjects@[j]).subject_id,
        )
}

/// `order` is the order in which the planner takes the groups.
pub open spec fn is_group_order(d: Domain, order: Seq<usize>) -> bool {
    &&& lists_all(order, d.groups@.len() as int)
    &&& forall|a: int, b: int|
        0 <= a < b < order.len() ==> group_before(
            d.groups@,
            #[trigger] order[a] as int,
            #[trigger] order[b] as int,
        )
}

/// `order` is the order in which the planner takes the subjects.
pub open spec fn is_subject_order(d: Domain, order: Seq<usize>) -> bool {
    &&& lists_all(order, d.subjects@.len() as int)
    &&& forall|a: int, b: int|
        0 <= a < b < order.len() ==> subject_before(
            d.subjects@,
            #[trigger] order[a] as int,
            #[trigger] order[b] as int,
        )
}

/// What the three phases reach from the empty timetable: reservation,
/// then critical completion, then, unless that is stuck, the remainder.
pub open spec fn planned(d: Domain, og: Seq<usize>, ou: Seq<usize>) -> PhaseState {
    let s0 = PhaseState { plan: Seq::empty(), stuck: None, unplaced: Seq::empty() };
    let s1 = week_state(d, s0, og, ou, og.len() as int, Phase::Reservation);
    let s2 = week_state(
        d,
        PhaseState { stuck: None, ..s1 },
        og,
        ou,
        og.len() as int,
        Phase::CriticalCompletion,
    );
    if s2.stuck is Some {
        s2
    } else {
        week_state(d, s2, og, ou, og.len() as int, Phase::Remainder)
    }
}

/// The phase is stuck at the group and the subject with these identifiers.
pub open spec fn stuck_at(
    d: Domain,
    stuck: Option<(usize, usize)>,
    group_id: i16,
    subject_id: i16,
) -> bool {
    match stuck {
        Some(at) => d.groups@[at.0 as int].id == Some(group_id) && d.subjects@[at.1 as int].id
            == subject_id,
        None => false,
    }
}

/// A run in which the groups are taken in order `og` and the subjects in
/// order `ou` places every critical subject, gives every lesson a room,
/// which makes the timetable `roomed`, and ends after the optimizer's
/// rounds with the timetable `last`.
pub open spec fn run_gives(
    d: Domain,
    og: Seq<usize>,
    ou: Seq<usize>,
    roomed: Seq<Placement>,
    last: Seq<Placement>,
    unplaced: Seq<(i16, i16)>,
    settled: bool,
) -> bool {
    let st = planned(d, og, ou);
    &&& is_group_order(d, og)
    &&& is_subject_order(d, ou)
    &&& st.stuck is None
    &&& st.unplaced == unplaced
    &&& rooms_state(d, st.plan, st.plan.len() as int) == Some(roomed)
    &&& retimed(roomed, last)
    &&& rounds_of(d, roomed, last, MAX_OPTIMIZER_ROUNDS as nat, settled)
}

/// A run with these orders is stuck in critical completion at the group
/// and the subject with these identifiers.
pub open spec fn run_is_stuck(
    d: Domain,
    og: Seq<usize>,
    ou: Seq<usize>,
    group_id: i16,
    subject_id: i16,
) -> bool {
    is_group_order(d, og) && is_subject_order(d, ou) && stuck_at(
        d,
        planned(d, og, ou).stuck,
        group_id,
        subject_id,
    )
}

/// A run with these orders places every critical subject and gives the
/// first `i` lessons their rooms, which makes the timetable `q`, in which
/// no room suits lesson `i`, the lesson of this group and subject at this
/// day and module.
pub open spec fn run_lacks_room(
    d: Domain,
    og: Seq<usize>,
    ou: Seq<usize>,
    q: Seq<Placement>,
    i: int,
    group_id: i16,
    subject_id: i16,
    day: Seq<char>,
    module: i16,
) -> bool {
    &&& is_group_order(d, og)
    &&& is_subject_order(d, ou)
    &&& planned(d, og, ou).stuck is None
    &&& 0 <= i < q.len()
    &&& rooms_state(d, planned(d, og, ou).plan, i) == Some(q)
    &&& room_step(d, q, i) is None
    &&& q[i].group_id == group_id
    &&& q[i].subject_id == subject_id
    &&& q[i].day == day
    &&& q[i].module_index == module
}

/// Every group has, of every subject it requires, exactly the modules that
/// the subject requires, unless the pair is noted as unplaced.
pub open spec fn coverage_met(d: Domain, p: Seq<Placement>, unplaced: Seq<(i16, i16)>) -> bool {
    forall|gi: int, ui: int|
        #![trigger d.groups@[gi], d.subjects@[ui]]
        0 <= gi < d.groups@.len() && 0 <= ui < d.subjects@.len() && requires_subject(
            d,
            d.groups@[gi].id.unwrap(),
            d.subjects@[ui].id,
        ) ==> count_of(p, of_group_subject(d.groups@[gi].id.unwrap(), d.subjects@[ui].id))
            == required_of(d.subjects@[ui]) || unplaced.contains(
            (d.groups@[gi].id.unwrap(), d.subjects@[ui].id),
        )
}

/// The indices of the teachers who may teach the subject, ascending.
pub fn get_teachers_for_subject(teachers: &Vec<Teacher>, subject_id: i16) -> (r: Vec<usize>)
    ensures
        forall|a: int, b: int| 0 <= a < b < r@.len() ==> r@[a] < r@[b],
        forall|ti: usize|
            r@.contains(ti) <==> ti < teachers@.len() && teachers@[ti as int].subjects@.contains(
                subject_id,
            ),
{
    let mut r: Vec<usize> = Vec::new();
    let mut ti: usize = 0;
    while ti < teachers.len()
        invariant
            ti <= teachers.len(),
            forall|a: int, b: int| 0 <= a < b < r@.len() ==> r@[a] < r@[b],
            forall|a: int| 0 <= a < r@.len() ==> #[trigger] r@[a] < ti,
            forall|x: usize|
                r@.contains(x) <==> x < ti && teachers@[x as int].subjects@.contains(subject_id),
        decreases teachers.len() - ti,
    {
        if teachers[ti].teaches(subject_id) {
            let ghost before = r@;
            r.push(ti);
            proof {
                assert(r@[before.len() as int] == ti);
                assert forall|x: usize|
                    r@.contains(x) <==> x < ti + 1 && teachers@[x as int].subjects@.contains(
                        subject_id,
                    ) by {
                    if before.contains(x) {
                        let k = choose|k: int| 0 <= k < before.len() && before[k] == x;
                        assert(r@[k] == x);
                    }
                    if r@.contains(x) {
                        let k = choose|k: int| 0 <= k < r@.len() && r@[k] == x;
                        if k < before.len() {
                            assert(before[k] == x);
                        }
                    }
                }
            }
        }
        ti += 1;
    }
    r
}

/// The first requirement whose subject no teacher may teach, if there is
/// one.
pub fn find_unteachable(d: &Domain) -> (r: Option<usize>)
    ensures
        match r {
            Some(k) => first_unteachable(*d, k as int),
            None => all_teachable(*d),
        },
{
    let mut k: usize = 0;
    while k < d.group_subjects.len()
        invariant
            k <= d.group_subjects.len(),
            forall|j: int|
                0 <= j < k ==> teachable(*d, (#[trigger] d.group_subjects@[j]).subject_id),
        decreases d.group_subjects.len() - k,
    {
        let u = d.group_subjects[k].subject_id;
        let who = get_teachers_for_subject(&d.teachers, u);
        if who.len() == 0 {
            proof {
                if teachable(*d, u) {
                    let ti = choose|ti: int|
                        0 <= ti < d.teachers@.len() && (#[trigger] d.teachers@[ti]).subjects@.contains(
                            u,
                        );
                    assert(d.teachers@.len() == d.teachers.len());
                    let x: usize = ti as usize;
                    assert(x < d.teachers@.len() && d.teachers@[x as int].subjects@.contains(u));
                    assert(who@.contains(x));
                }
            }
            return Some(k);
        }
        proof {
            assert(who@.contains(who@[0]));
        }
        k += 1;
    }
    None
}

/// Plans the week: checks the snapshot, places every group's subjects in
/// three phases, assigns rooms and optimizes the result.
#[verifier::rlimit(40)]
pub fn generate_schedule(d: &Domain) -> (r: Result<PlanningOutcome, PlanningError>)
    ensures
        match r {
            Ok(out) => {
                &&& domain_wf(*d)
                &&& all_teachable(*d)
                &&& schedule_valid(*d, timetable(out.assignments@))
                &&& coverage_met(*d, timetable(out.assignments@), out.unplaced@)
                &&& out.settled ==> no_improvement(*d, timetable(out.assignments@))
                &&& exists|og: Seq<usize>, ou: Seq<usize>, roomed: Seq<Placement>|
                    #![trigger planned(*d, og, ou), retimed(roomed, timetable(out.assignments@))]
                    planned(*d, og, ou).stuck is None && retimed(
                        roomed,
                        timetable(out.assignments@),
                    ) && run_gives(
                        *d,
                        og,
                        ou,
                        roomed,
                        timetable(out.assignments@),
                        out.unplaced@,
                        out.settled,
                    )
            },
            Err(PlanningError::DomainInconsistent { detail }) => !domain_wf(*d) && detail@
                == "the domain snapshot is not well formed"@,
            Err(PlanningError::NoQualifiedTeacher { subject_id }) => domain_wf(*d) && exists|
                k: int,
            |
                first_unteachable(*d, k) && (#[trigger] d.group_subjects@[k]).subject_id
                    == subject_id,
            Err(PlanningError::NoFeasibleSlot { group_id, subject_id }) => domain_wf(*d)
                && all_teachable(*d) && exists|og: Seq<usize>, ou: Seq<usize>|
                #![trigger planned(*d, og, ou)]
                planned(*d, og, ou).stuck is Some && run_is_stuck(
                    *d,
                    og,
                    ou,
                    group_id,
                    subject_id,
                ),
            Err(PlanningError::NoSuitableClassroom { group_id, subject_id, day, module }) =>
                domain_wf(*d) && all_teachable(*d) && exists|
                og: Seq<usize>,
                ou: Seq<usize>,
                q: Seq<Placement>,
                i: int,
            |
                #![trigger planned(*d, og, ou), room_step(*d, q, i)]
                planned(*d, og, ou).stuck is None && room_step(*d, q, i) is None
                    && run_lacks_room(*d, og, ou, q, i, group_id, subject_id, day@, module),
        },
{
    if !check_domain(d) {
        return Err(
            PlanningError::DomainInconsistent {
                detail: "the domain snapshot is not well formed".to_owned(),
            },
        );
    }
    match find_unteachable(d) {
        Some(k) => {
            return Err(
                PlanningError::NoQualifiedTeacher { subject_id: d.group_subjects[k].subject_id },
            );
        },
        None => {},
    }
    proof {
        lemma_empty_plannable(*d, Seq::<Placement>::empty());
    }
    plan_week(d)
}

/// Places the lessons of the week in the three phases, the groups taken
/// in order `og` and the subjects in order `ou`.  Returns the schedule and
/// the pairs that the remainder phase could not place, or the group and
/// the subject at which critical completion is stuck.
#[verifier::rlimit(40)]
pub fn plan_lessons(d: &Domain, og: &Vec<usize>, ou: &Vec<usize>) -> (r: Result<
    (Vec<Assignment>, Vec<(i16, i16)>),
    (usize, usize),
>)
    requires
        plannable(*d, Seq::<Placement>::empty()),
        order_within(og@, d.groups@.len() as int),
        order_within(ou@, d.subjects@.len() as int),
    ensures
        match r {
            Ok(done) => {
                &&& plannable(*d, timetable(done.0@))
                &&& planned(*d, og@, ou@) == (PhaseState {
                    plan: timetable(done.0@),
                    stuck: None,
                    unplaced: done.1@,
                })
                &&& forall|a: int, b: int|
                    0 <= a < og@.len() && 0 <= b < ou@.len() && requires_subject(
                        *d,
                        d.groups@[#[trigger] og@[a] as int].id.unwrap(),
                        d.subjects@[#[trigger] ou@[b] as int].id,
                    ) ==> pair_settled(
                        *d,
                        timetable(done.0@),
                        done.1@,
                        og@[a] as int,
                        ou@[b] as int,
                    )
            },
            Err(at) => planned(*d, og@, ou@).stuck == Some(at) && at.0 < d.groups@.len() && at.1
                < d.subjects@.len(),
        },
{
    let mut schedule: Vec<Assignment> = Vec::new();
    let mut unplaced: Vec<(i16, i16)> = Vec::new();
    let ghost s0 = PhaseState { plan: Seq::empty(), stuck: None, unplaced: Seq::empty() };
    proof {
        assert(timetable(schedule@) =~= Seq::<Placement>::empty());
        assert(unplaced@ =~= Seq::<(i16, i16)>::empty());
    }
    let reserved = run_phase(&mut schedule, &mut unplaced, d, og, ou, Phase::Reservation);
    let ghost s1 = PhaseState { plan: timetable(schedule@), stuck: reserved, unplaced: unplaced@ };
    proof {
        assert(s1 == week_state(*d, s0, og@, ou@, og@.len() as int, Phase::Reservation));
    }
    let stuck = run_phase(&mut schedule, &mut unplaced, d, og, ou, Phase::CriticalCompletion);
    let ghost s2 = PhaseState { plan: timetable(schedule@), stuck, unplaced: unplaced@ };
    proof {
        assert((PhaseState { stuck: None, ..s1 }) == (PhaseState {
            plan: s1.plan,
            stuck: None,
            unplaced: s1.unplaced,
        }));
        assert(s2 == week_state(
            *d,
            PhaseState { stuck: None, ..s1 },
            og@,
            ou@,
            og@.len() as int,
            Phase::CriticalCompletion,
        ));
    }
    match stuck {
        Some(at) => {
            proof {
                assert(planned(*d, og@, ou@) == s2);
            }
            return Err(at);
        },
        None => {},
    }
    let rest = run_phase(&mut schedule, &mut unplaced, d, og, ou, Phase::Remainder);
    proof {
        let st = PhaseState { plan: timetable(schedule@), stuck: rest, unplaced: unplaced@ };
        assert(planned(*d, og@, ou@) == st);
    }
    Ok((schedule, unplaced))
}

/// Plans the week for a well-formed snapshot: the three phases, the rooms
/// and the optimizer.
#[verifier::rlimit(40)]
pub fn plan_week(d: &Domain) -> (r: Result<PlanningOutcome, PlanningError>)
    requires
        plannable(*d, Seq::<Placement>::empty()),
    ensures
        match r {
            Ok(out) => {
                &&& schedule_valid(*d, timetable(out.assignments@))
                &&& coverage_met(*d, timetable(out.assignments@), out.unplaced@)
                &&& out.settled ==> no_improvement(*d, timetable(out.assignments@))
                &&& exists|og: Seq<usize>, ou: Seq<usize>, roomed: Seq<Placement>|
                    #![trigger planned(*d, og, ou), retimed(roomed, timetable(out.assignments@))]
                    planned(*d, og, ou).stuck is None && retimed(
                        roomed,
                        timetable(out.assignments@),
                    ) && run_gives(
                        *d,
                        og,
                        ou,
                        roomed,
                        timetable(out.assignments@),
                        out.unplaced@,
                        out.settled,
                    )
            },
            Err(PlanningError::NoFeasibleSlot { group_id, subject_id }) => exists|
                og: Seq<usize>,
                ou: Seq<usize>,
            |
                #![trigger planned(*d, og, ou)]
                planned(*d, og, ou).stuck is Some && run_is_stuck(
                    *d,
                    og,
                    ou,
                    group_id,
                    subject_id,
                ),
            Err(PlanningError::NoSuitableClassroom { group_id, subject_id, day, module }) =>
                exists|og: Seq<usize>, ou: Seq<usize>, q: Seq<Placement>, i: int|
                #![trigger planned(*d, og, ou), room_step(*d, q, i)]
                planned(*d, og, ou).stuck is None && room_step(*d, q, i) is None
                    && run_lacks_room(*d, og, ou, q, i, group_id, subject_id, day@, module),
            _ => false,
        },
{
    let og = sort_groups_by_priority(&d.groups);
    let ou = sort_subjects_by_priority(&d.subjects);
    let (mut schedule, unplaced) = match plan_lessons(d, &og, &ou) {
        Ok(done) => done,
        Err(at) => {
            proof {
                assert(d.groups@[at.0 as int].id is Some) by {
                    reveal(plannable);
                }
                assert(run_is_stuck(
                    *d,
                    og@,
                    ou@,
                    d.groups@[at.0 as int].id.unwrap(),
                    d.subjects@[at.1 as int].id,
                ));
            }
            return Err(
                PlanningError::NoFeasibleSlot {
                    group_id: d.groups[at.0].id.unwrap(),
                    subject_id: d.subjects[at.1].id,
                },
            );
        },
    };
    let ghost plan = timetable(schedule@);
    match assign_classrooms(&mut schedule, d) {
        Err(e) => {
            proof {
                lemma_roomless(*d, og@, ou@, plan, timetable(schedule@), e);
            }
            return Err(e);
        },
        Ok(_) => {},
    }
    let ghost roomed = timetable(schedule@);
    let settled = optimize_schedule(&mut schedule, d);
    proof {
        let last = timetable(schedule@);
        assert(schedule_valid(*d, last)) by {
            reveal(plannable);
        }
        assert(d.groups@.len() == d.groups.len());
        assert(d.subjects@.len() == d.subjects.len());
        assert(forall|i: int|
            0 <= i < d.subjects@.len() ==> required_of(#[trigger] d.subjects@[i]) >= 1) by {
            reveal(plannable);
        }
        lemma_coverage(*d, og@, ou@, plan, roomed, last, unplaced@);
        assert(coverage_met(*d, last, unplaced@));
        assert(settled ==> no_improvement(*d, last));
        assert(planned(*d, og@, ou@).stuck is None);
        assert(retimed(roomed, last));
        assert(run_gives(*d, og@, ou@, roomed, last, unplaced@, settled));
    }
    Ok(PlanningOutcome { assignments: schedule, unplaced, settled })
}

/// What the room assigner reports of a lesson without room is what a run
/// that lacks a room says.
proof fn lemma_roomless(
    d: Domain,
    og: Seq<usize>,
    ou: Seq<usize>,
    plan: Seq<Placement>,
    q: Seq<Placement>,
    e: PlanningError,
)
    requires
        is_group_order(d, og),
        is_subject_order(d, ou),
        planned(d, og, ou).stuck is None,
        planned(d, og, ou).plan == plan,
        q.len() == plan.len(),
        e matches PlanningError::NoSuitableClassroom { group_id, subject_id, day, module }
            && exists|i: int|
            0 <= i < plan.len() && rooms_state(d, plan, i) == Some(q) && room_step(d, q, i) is None
                && (#[trigger] q[i]).group_id == group_id && q[i].subject_id == subject_id
                && q[i].day == day@ && q[i].module_index == module,
    ensures
        e matches PlanningError::NoSuitableClassroom { group_id, subject_id, day, module }
            && exists|a: Seq<usize>, b: Seq<usize>, x: Seq<Placement>, i: int|
            #![trigger planned(d, a, b), room_step(d, x, i)]
            planned(d, a, b).stuck is None && room_step(d, x, i) is None && run_lacks_room(
                d,
                a,
                b,
                x,
                i,
                group_id,
                subject_id,
                day@,
                module,
            ),
{
    match e {
        PlanningError::NoSuitableClassroom { group_id, subject_id, day, module } => {
            let i = choose|i: int|
                0 <= i < plan.len() && rooms_state(d, plan, i) == Some(q) && room_step(d, q, i) is None
                    && (#[trigger] q[i]).group_id == group_id && q[i].subject_id == subject_id
                    && q[i].day == day@ && q[i].module_index == module;
            assert(run_lacks_room(d, og, ou, q, i, group_id, subject_id, day@, module));
        },
        _ => {},
    }
}

/// The empty timetable is valid for a well-formed snapshot.
pub proof fn lemma_empty_plannable(d: Domain, p: Seq<Placement>)
    requires
        domain_wf(d),
        p.len() == 0,
    ensures
        plannable(d, p),
{
    reveal(plannable);
}

/// Where the planner has settled every required pair, rooms and
/// optimization leave every required subject covered exactly or noted.
#[verifier::rlimit(40)]
pub proof fn lemma_coverage(
    d: Domain,
    og: Seq<usize>,
    ou: Seq<usize>,
    plan: Seq<Placement>,
    roomed: Seq<Placement>,
    last: Seq<Placement>,
    unplaced: Seq<(i16, i16)>,
)
    requires
        d.groups@.len() <= usize::MAX,
        d.subjects@.len() <= usize::MAX,
        lists_all(og, d.groups@.len() as int),
        lists_all(ou, d.subjects@.len() as int),
        forall|a: int, b: int|
            0 <= a < og.len() && 0 <= b < ou.len() && requires_subject(
                d,
                d.groups@[#[trigger] og[a] as int].id.unwrap(),
                d.subjects@[#[trigger] ou[b] as int].id,
            ) ==> pair_settled(d, plan, unplaced, og[a] as int, ou[b] as int),
        crate::rooms::rooms_changed(plan, roomed),
        retimed(roomed, last),
        schedule_valid(d, last),
        forall|i: int| 0 <= i < d.subjects@.len() ==> required_of(#[trigger] d.subjects@[i]) >= 1,
    ensures
        coverage_met(d, last, unplaced),
{
    assert(retimed(plan, roomed)) by {
        assert forall|j: int| 0 <= j < plan.len() implies #[trigger] roomed[j] == (Placement {
            day: roomed[j].day,
            module_index: roomed[j].module_index,
            teacher_id: roomed[j].teacher_id,
            classroom_id: roomed[j].classroom_id,
            ..plan[j]
        }) by {
            assert(roomed[j] == crate::rooms::in_room(plan[j], roomed[j].classroom_id));
        }
    }
    assert forall|gi: int, ui: int|
        #![trigger d.groups@[gi], d.subjects@[ui]]
        0 <= gi < d.groups@.len() && 0 <= ui < d.subjects@.len() && requires_subject(
            d,
            d.groups@[gi].id.unwrap(),
            d.subjects@[ui].id,
        ) implies count_of(last, of_group_subject(d.groups@[gi].id.unwrap(), d.subjects@[ui].id))
        == required_of(d.subjects@[ui]) || unplaced.contains(
        (d.groups@[gi].id.unwrap(), d.subjects@[ui].id),
    ) by {
        let g = d.groups@[gi].id.unwrap();
        let u = d.subjects@[ui].id;
        let gx: usize = gi as usize;
        let ux: usize = ui as usize;
        assert(og.contains(gx));
        assert(ou.contains(ux));
        let a = choose|a: int| 0 <= a < og.len() && og[a] == gx;
        let b = choose|b: int| 0 <= b < ou.len() && ou[b] == ux;
        assert(og[a] as int == gi && ou[b] as int == ui);
        assert(pair_settled(d, plan, unplaced, og[a] as int, ou[b] as int));
        if !unplaced.contains((g, u)) {
            lemma_retimed_counts(plan, roomed, g, u);
            lemma_retimed_counts(roomed, last, g, u);
            let sel = of_group_subject(g, u);
            assert(count_of(last, sel) >= required_of(d.subjects@[ui]));
            let i = lemma_count_witness(last, sel);
            assert(last[i].subject_id == d.subjects@[ui].id);
        }
    }
}

} // verus!
