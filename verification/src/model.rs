//! The domain model: the entities a planning run reads, the assignment it
//! produces, and the well-formedness of a domain snapshot.

use vstd::prelude::*;

verus! {

/// Block-size cap: no block spans more than this many consecutive modules.
pub const MAX_CONSECUTIVE_MODULES: i16 = 2;

/// Modules a group may attend on one day when the group sets no cap.
pub const DEFAULT_GROUP_DAILY_CAP: i16 = 4;

/// Modules a teacher may teach per week when the teacher sets no cap.
pub const DEFAULT_TEACHER_LOAD_CAP: i16 = 40;

/// Weekly modules of a subject that states none.
pub const DEFAULT_REQUIRED_MODULES: i16 = 2;

/// Largest number of modules per day a snapshot may configure.
pub const MAX_MODULES_PER_DAY: i16 = 1000;

/// A subject as the catalogue stores it.
#[derive(Debug, Clone, PartialEq, Eq)]
pub struct Subject {
    pub id: i16,
    pub name: String,
    pub shorten: String,
    pub color: String,
    pub spec: String,
}

/// The teacher that the catalogue shows next to a subject.
#[derive(Debug, Clone, PartialEq, Eq)]
pub struct AssignedTeacher {
    pub id: Option<i16>,
    pub name: String,
    pub father_lastname: String,
}

/// A subject with its planning data: weekly modules, priority and the
/// room-type tag it needs.
#[derive(Debug, Clone, PartialEq, Eq)]
pub struct SubjectWithTeacher {
    pub id: i16,
    pub name: String,
    pub shorten: String,
    pub color: String,
    pub spec: Option<String>,
    pub required_modules: Option<i16>,
    pub priority: Option<i16>,
    pub assigned_teacher: Option<AssignedTeacher>,
}

/// A teacher: whom they may teach, when they prefer to, and how much.
#[derive(Debug, Clone, PartialEq, Eq)]
pub struct Teacher {
    pub id: Option<i16>,
    pub name: String,
    pub father_lastname: String,
    pub subjects: Vec<i16>,
    pub preferred_days: Option<Vec<String>>,
    pub preferred_modules: Option<Vec<i16>>,
    pub commissioned_hours: Option<i16>,
}

/// A cohort of students that attends lessons together.
#[derive(Debug, Clone, PartialEq, Eq)]
pub struct Group {
    pub id: Option<i16>,
    pub grade: i16,
    pub group: String,
    pub career: Option<String>,
    pub students: Option<i16>,
    pub max_modules_per_day: Option<i16>,
}

/// One required subject of one group.
#[derive(Debug, Clone, PartialEq, Eq)]
pub struct GroupSubjects {
    pub group_id: i16,
    pub subject_id: i16,
}

/// A student of a group.
#[derive(Debug, Clone, PartialEq, Eq)]
pub struct Student {
    pub id: Option<i16>,
    pub name: String,
    pub father_lastname: String,
    pub mother_lastname: Option<String>,
    pub group_id: Option<i16>,
}

/// A room.  `availability` lists the (day, module) pairs in which it may be
/// used; a room without a list may be used at any time.
#[derive(Debug, Clone, PartialEq, Eq)]
pub struct Classroom {
    pub id: Option<i16>,
    pub building_id: Option<String>,
    pub building_number: i16,
    pub building_type: Option<String>,
    pub capacity: Option<i16>,
    pub availability: Option<Vec<(String, i16)>>,
}

/// The atomic scheduling unit: a group meets a subject, taught by a teacher
/// in a room, on a day at a module.  Classroom 0 means "no room yet".
#[derive(Debug, Clone, PartialEq, Eq)]
pub struct Assignment {
    pub id: Option<i16>,
    pub group_id: i16,
    pub day: String,
    pub module_index: i16,
    pub subject_id: i16,
    pub teacher_id: i16,
    pub classroom_id: i16,
    pub subject_name: String,
    pub subject_shorten: String,
    pub subject_color: String,
}

/// The mathematical value of an assignment.
pub struct Placement {
    pub id: Option<i16>,
    pub group_id: i16,
    pub day: Seq<char>,
    pub module_index: i16,
    pub subject_id: i16,
    pub teacher_id: i16,
    pub classroom_id: i16,
    pub subject_name: Seq<char>,
    pub subject_shorten: Seq<char>,
    pub subject_color: Seq<char>,
}

impl View for Assignment {
    type V = Placement;

    open spec fn view(&self) -> Placement {
        Placement {
            id: self.id,
            group_id: self.group_id,
            day: self.day@,
            module_index: self.module_index,
            subject_id: self.subject_id,
            teacher_id: self.teacher_id,
            classroom_id: self.classroom_id,
            subject_name: self.subject_name@,
            subject_shorten: self.subject_shorten@,
            subject_color: self.subject_color@,
        }
    }
}

/// The timetable that a list of assignments denotes.
pub open spec fn timetable(s: Seq<Assignment>) -> Seq<Placement> {
    Seq::new(s.len(), |i: int| s[i]@)
}

impl Assignment {
    /// A copy with the same value.
    pub fn duplicate(&self) -> (r: Assignment)
        ensures
            r@ == self@,
    {
        Assignment {
            id: self.id,
            group_id: self.group_id,
            day: self.day.clone(),
            module_index: self.module_index,
            subject_id: self.subject_id,
            teacher_id: self.teacher_id,
            classroom_id: self.classroom_id,
            subject_name: self.subject_name.clone(),
            subject_shorten: self.subject_shorten.clone(),
            subject_color: self.subject_color.clone(),
        }
    }
}

/// The read-only snapshot that one planning run works on.
#[derive(Debug, Clone, PartialEq, Eq)]
pub struct Domain {
    pub days: Vec<String>,
    pub modules_per_day: i16,
    pub subjects: Vec<SubjectWithTeacher>,
    pub teachers: Vec<Teacher>,
    pub groups: Vec<Group>,
    pub group_subjects: Vec<GroupSubjects>,
    pub classrooms: Vec<Classroom>,
}

/// Why a planning run produced no schedule.
#[derive(Debug, Clone, PartialEq, Eq)]
pub enum PlanningError {
    /// A group requires a subject that no teacher may teach.
    NoQualifiedTeacher { subject_id: i16 },
    /// The blocks of a subject of more than two modules cannot all be
    /// placed for a group.
    NoFeasibleSlot { group_id: i16, subject_id: i16 },
    /// No room suits a lesson.
    NoSuitableClassroom { group_id: i16, subject_id: i16, day: String, module: i16 },
    /// The snapshot is not well formed.
    DomainInconsistent { detail: String },
}

/// The daily cap of a group.
pub open spec fn group_cap(g: Group) -> int {
    match g.max_modules_per_day {
        Some(c) => c as int,
        None => DEFAULT_GROUP_DAILY_CAP as int,
    }
}

/// The weekly cap of a teacher.
pub open spec fn teacher_cap(t: Teacher) -> int {
    match t.commissioned_hours {
        Some(c) => c as int,
        None => DEFAULT_TEACHER_LOAD_CAP as int,
    }
}

/// The weekly modules a subject requires.
pub open spec fn required_of(s: SubjectWithTeacher) -> int {
    match s.required_modules {
        Some(r) => r as int,
        None => DEFAULT_REQUIRED_MODULES as int,
    }
}

/// The priority of a subject; a subject without one has priority 0.
pub open spec fn priority_of(s: SubjectWithTeacher) -> int {
    match s.priority {
        Some(p) => p as int,
        None => 0,
    }
}

impl Group {
    /// The modules the group may attend on one day.
    pub fn daily_cap(&self) -> (r: i16)
        ensures
            r == group_cap(*self),
    {
        match self.max_modules_per_day {
            Some(c) => c,
            None => DEFAULT_GROUP_DAILY_CAP,
        }
    }
}

impl Teacher {
    /// The modules the teacher may teach in a week.
    pub fn load_cap(&self) -> (r: i16)
        ensures
            r == teacher_cap(*self),
    {
        match self.commissioned_hours {
            Some(c) => c,
            None => DEFAULT_TEACHER_LOAD_CAP,
        }
    }

    /// Whether the teacher may teach the subject.
    pub fn teaches(&self, subject_id: i16) -> (r: bool)
        ensures
            r == self.subjects@.contains(subject_id),
    {
        let mut i: usize = 0;
        while i < self.subjects.len()
            invariant
                i <= self.subjects.len(),
                forall|k: int| 0 <= k < i ==> self.subjects@[k] != subject_id,
            decreases self.subjects.len() - i,
        {
            if self.subjects[i] == subject_id {
                return true;
            }
            i += 1;
        }
        false
    }
}

impl SubjectWithTeacher {
    /// The modules the subject requires in a week.
    pub fn modules(&self) -> (r: i16)
        ensures
            r == required_of(*self),
    {
        match self.required_modules {
            Some(r) => r,
            None => DEFAULT_REQUIRED_MODULES,
        }
    }

    /// The priority of the subject.
    pub fn rank(&self) -> (r: i16)
        ensures
            r == priority_of(*self),
    {
        match self.priority {
            Some(p) => p,
            None => 0,
        }
    }
}

} // verus!
