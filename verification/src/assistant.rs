//! What the chat assistant is told: the description of the current
//! schedule, and the conversation so far as a list of messages.

use crate::model::{Assignment, Classroom, Group, SubjectWithTeacher, Teacher};
use vstd::prelude::*;
use vstd::string::{StrSliceExecFns, StringExecFns};

verus! {

/// Modules of a day as the description of the schedule states them.
pub const DESCRIBED_MODULES: i64 = 9;

/// The entities and the schedule that the assistant is told about.
#[derive(Debug, Clone)]
pub struct ScheduleData {
    pub teachers: Vec<Teacher>,
    pub subjects: Vec<SubjectWithTeacher>,
    pub groups: Vec<Group>,
    pub classrooms: Vec<Classroom>,
    pub assignments: Vec<Assignment>,
}

/// What the assistant keeps between questions.
#[derive(Debug, Clone)]
pub struct AIState {
    pub api_key: String,
    pub conversation_history: Vec<String>,
    pub schedule_data: Option<ScheduleData>,
}

/// One message of a conversation.
#[derive(Debug, Clone, PartialEq, Eq)]
pub struct Message {
    pub role: String,
    pub content: String,
}

/// Why a response gave no reply.
#[derive(Debug, Clone, PartialEq, Eq)]
pub enum ReplyError {
    /// The service reported an error, with this message.
    Service(String),
    /// The response held no choice.
    NoChoice,
}

/// The text of a digit.
pub open spec fn digit_text(d: int) -> Seq<char> {
    if d == 0 {
        "0"@
    } else if d == 1 {
        "1"@
    } else if d == 2 {
        "2"@
    } else if d == 3 {
        "3"@
    } else if d == 4 {
        "4"@
    } else if d == 5 {
        "5"@
    } else if d == 6 {
        "6"@
    } else if d == 7 {
        "7"@
    } else if d == 8 {
        "8"@
    } else {
        "9"@
    }
}

/// The decimal digits of a number that is not negative.
pub open spec fn digits(n: nat) -> Seq<char>
    decreases n,
{
    if n < 10 {
        digit_text(n as int)
    } else {
        digits(n / 10) + digit_text((n % 10) as int)
    }
}

/// The decimal digits of a number, with a minus sign where it is negative.
#[verifier::opaque]
pub open spec fn decimal(n: int) -> Seq<char> {
    if n < 0 {
        "-"@ + digits((-n) as nat)
    } else {
        digits(n as nat)
    }
}

/// `text` holds `pattern` from position `i` on.
pub open spec fn matches_at(text: Seq<char>, pattern: Seq<char>, i: int) -> bool {
    0 <= i && i + pattern.len() <= text.len() && text.subrange(i, i + pattern.len()) == pattern
}

/// `text` begins with `prefix`.
pub open spec fn is_prefix(prefix: Seq<char>, text: Seq<char>) -> bool {
    matches_at(text, prefix, 0)
}

/// The text from position `i` on with every match of the pattern taken
/// out, matches taken from the left and not overlapping.
pub open spec fn without_from(text: Seq<char>, pattern: Seq<char>, i: int) -> Seq<char>
    decreases text.len() - i,
{
    if i < 0 || i >= text.len() {
        Seq::empty()
    } else if pattern.len() > 0 && matches_at(text, pattern, i) {
        without_from(text, pattern, i + pattern.len())
    } else {
        seq![text[i]] + without_from(text, pattern, i + 1)
    }
}

/// A text with every match of a pattern taken out.
pub open spec fn without(text: Seq<char>, pattern: Seq<char>) -> Seq<char> {
    without_from(text, pattern, 0)
}

fn push_digits(out: &mut String, n: u64)
    ensures
        final(out)@ == old(out)@ + digits(n as nat),
    decreases n,
{
    let ghost start = out@;
    if n >= 10 {
        push_digits(out, n / 10);
    }
    let d = n % 10;
    let digit = if d == 0 {
        "0"
    } else if d == 1 {
        "1"
    } else if d == 2 {
        "2"
    } else if d == 3 {
        "3"
    } else if d == 4 {
        "4"
    } else if d == 5 {
        "5"
    } else if d == 6 {
        "6"
    } else if d == 7 {
        "7"
    } else if d == 8 {
        "8"
    } else {
        "9"
    };
    out.append(digit);
    proof {
        assert(digit@ == digit_text(d as int));
        assert(out@ =~= start + digits(n as nat));
    }
}

fn push_number(out: &mut String, n: i64)
    ensures
        final(out)@ == old(out)@ + decimal(n as int),
{
    let ghost start = out@;
    proof {
        reveal(decimal);
    }
    if n < 0 {
        out.append("-");
        let magnitude: u64 = ((-(n + 1)) as u64) + 1;
        push_digits(out, magnitude);
        proof {
            assert(out@ =~= start + decimal(n as int));
        }
    } else {
        push_digits(out, n as u64);
    }
}

/// Whether `text` holds `pattern` from position `i` on.
fn holds_at(text: &str, pattern: &str, i: usize) -> (r: bool)
    ensures
        r == matches_at(text@, pattern@, i as int),
{
    let n = pattern.unicode_len();
    let m = text.unicode_len();
    if i > m || n > m - i {
        return false;
    }
    let mut k: usize = 0;
    while k < n
        invariant
            k <= n,
            i + n <= m,
            n == pattern@.len(),
            m == text@.len(),
            forall|j: int| 0 <= j < k ==> text@[i + j] == pattern@[j],
        decreases n - k,
    {
        if text.get_char(i + k) != pattern.get_char(k) {
            proof {
                assert(text@.subrange(i as int, i + n)[k as int] == text@[i + k]);
            }
            return false;
        }
        k += 1;
    }
    proof {
        assert(text@.subrange(i as int, i + n) =~= pattern@);
    }
    true
}

fn starts_with_text(text: &str, prefix: &str) -> (r: bool)
    ensures
        r == is_prefix(prefix@, text@),
{
    holds_at(text, prefix, 0)
}

/// The text with every match of the pattern taken out.
fn remove_all(text: &str, pattern: &str) -> (r: String)
    ensures
        r@ == without(text@, pattern@),
{
    let mut out = String::new();
    let m = text.unicode_len();
    let n = pattern.unicode_len();
    let mut i: usize = 0;
    proof {
        assert(out@ + without_from(text@, pattern@, 0) =~= without(text@, pattern@));
    }
    while i < m
        invariant
            i <= m + n,
            m == text@.len(),
            n == pattern@.len(),
            out@ + without_from(text@, pattern@, i as int) == without(text@, pattern@),
        decreases m + n - i,
    {
        let ghost before = out@;
        if n > 0 && holds_at(text, pattern, i) {
            i = i + n;
        } else {
            out.append(text.substring_char(i, i + 1));
            proof {
                assert(text@.subrange(i as int, i + 1) =~= seq![text@[i as int]]);
                assert(out@ + without_from(text@, pattern@, i + 1) =~= before + (seq![
                    text@[i as int],
                ] + without_from(text@, pattern@, i + 1)));
            }
            i = i + 1;
        }
    }
    proof {
        assert(out@ + without_from(text@, pattern@, i as int) =~= out@);
    }
    out
}

/// The line that describes a teacher.
pub open spec fn teacher_line(t: Teacher) -> Seq<char> {
    "- ID: "@ + decimal(
        match t.id {
            Some(id) => id as int,
            None => 0,
        },
    ) + ", Nombre: "@ + t.name@ + " "@ + t.father_lastname@ + "\n"@
}

/// The teacher shown next to a subject.
pub open spec fn assigned_text(s: SubjectWithTeacher) -> Seq<char> {
    match s.assigned_teacher {
        Some(t) => t.name@ + " "@ + t.father_lastname@ + " (ID: "@ + decimal(
            match t.id {
                Some(id) => id as int,
                None => 0,
            },
        ) + ")"@,
        None => "No asignado"@,
    }
}

/// The line that describes a subject.
pub open spec fn subject_line(s: SubjectWithTeacher) -> Seq<char> {
    "ID: "@ + decimal(s.id as int) + ", Nombre: "@ + s.name@ + ", Abreviacion: "@ + s.shorten@
        + ", Profesor asignado: "@ + assigned_text(s) + "\n"@
}

/// The line that describes a group.
pub open spec fn group_line(g: Group) -> Seq<char> {
    "ID: "@ + decimal(
        match g.id {
            Some(id) => id as int,
            None => 0,
        },
    ) + ", Grado: "@ + decimal(g.grade as int) + ", Grupo: "@ + g.group@
        + ", Cantidad de alumnos: "@ + decimal(
        match g.students {
            Some(n) => n as int,
            None => -1,
        },
    ) + "\n"@
}

/// The line that describes a room.
pub open spec fn room_line(c: Classroom) -> Seq<char> {
    "ID: "@ + decimal(
        match c.id {
            Some(id) => id as int,
            None => 0,
        },
    ) + ", Edificio: "@ + (match c.building_id {
        Some(b) => b@,
        None => Seq::empty(),
    }) + decimal(c.building_number as int) + ", Tipo: "@ + (match c.building_type {
        Some(t) => t@,
        None => "N/A"@,
    }) + ", Capacidad: "@ + decimal(
        match c.capacity {
            Some(n) => n as int,
            None => 0,
        },
    ) + "\n"@
}

/// The line that describes a lesson.
pub open spec fn assignment_line(a: Assignment) -> Seq<char> {
    "ID: "@ + decimal(
        match a.id {
            Some(id) => id as int,
            None => 0,
        },
    ) + ", Materia: "@ + a.subject_shorten@ + " (ID: "@ + decimal(a.subject_id as int)
        + "), Maestro ID: "@ + decimal(a.teacher_id as int) + ", Grupo ID: "@ + decimal(
        a.group_id as int,
    ) + ", Aula ID: "@ + decimal(a.classroom_id as int) + ", Dia: "@ + a.day@ + ", Modulo: "@
        + decimal(a.module_index as int) + " de "@ + decimal(DESCRIBED_MODULES as int) + "\n"@
}

/// The lines of the first `k` teachers.
pub open spec fn teacher_lines(v: Seq<Teacher>, k: int) -> Seq<char>
    decreases k,
{
    if k <= 0 {
        Seq::empty()
    } else {
        teacher_lines(v, k - 1) + teacher_line(v[k - 1])
    }
}

/// The lines of the first `k` subjects.
pub open spec fn subject_lines(v: Seq<SubjectWithTeacher>, k: int) -> Seq<char>
    decreases k,
{
    if k <= 0 {
        Seq::empty()
    } else {
        subject_lines(v, k - 1) + subject_line(v[k - 1])
    }
}

/// The lines of the first `k` groups.
pub open spec fn group_lines(v: Seq<Group>, k: int) -> Seq<char>
    decreases k,
{
    if k <= 0 {
        Seq::empty()
    } else {
        group_lines(v, k - 1) + group_line(v[k - 1])
    }
}

/// The lines of the first `k` rooms.
pub open spec fn room_lines(v: Seq<Classroom>, k: int) -> Seq<char>
    decreases k,
{
    if k <= 0 {
        Seq::empty()
    } else {
        room_lines(v, k - 1) + room_line(v[k - 1])
    }
}

/// The lines of the first `k` lessons.
pub open spec fn assignment_lines(v: Seq<Assignment>, k: int) -> Seq<char>
    decreases k,
{
    if k <= 0 {
        Seq::empty()
    } else {
        assignment_lines(v, k - 1) + assignment_line(v[k - 1])
    }
}

/// What the description ends with: what the assistant can help with.
pub open spec fn closing_text() -> Seq<char> {
    "\nPuedes ayudar al usuario a:\n"@
        + "- Consultar información sobre maestros, materias, grupos y aulas\n"@
        + "- Analizar conflictos de horarios\n"@ + "- Sugerir optimizaciones del horario\n"@
        + "- Responder preguntas sobre las asignaciones actuales\n"@
        + "- Ayudar con la planificación de horarios\n\n"@
}

/// The description of the schedule: a title, then the teachers, the
/// subjects, the groups, the rooms and the lessons, one line each under a
/// heading, then the closing text.
pub open spec fn context_of(data: ScheduleData) -> Seq<char> {
    "INFORMACION DEL HORARIO ACTUAL:\n\n"@ + "MAESTROS:\n"@ + teacher_lines(
        data.teachers@,
        data.teachers@.len() as int,
    ) + "\n"@ + "MATERIAS:\n"@ + subject_lines(data.subjects@, data.subjects@.len() as int)
        + "\n"@ + "GRUPOS:\n"@ + group_lines(data.groups@, data.groups@.len() as int) + "\n"@
        + "AULAS:\n"@ + room_lines(data.classrooms@, data.classrooms@.len() as int) + "\n"@
        + "ASIGNACIONES ACTUALES:\n"@ + assignment_lines(
        data.assignments@,
        data.assignments@.len() as int,
    ) + closing_text()
}

fn push_teacher_line(out: &mut String, t: &Teacher)
    ensures
        final(out)@ == old(out)@ + teacher_line(*t),
{
    let ghost start = out@;
    out.append("- ID: ");
    push_number(
        out,
        match t.id {
            Some(id) => id as i64,
            None => 0,
        },
    );
    out.append(", Nombre: ");
    out.append(t.name.as_str());
    out.append(" ");
    out.append(t.father_lastname.as_str());
    out.append("\n");
    proof {
        assert(out@ =~= start + teacher_line(*t));
    }
}

fn push_subject_line(out: &mut String, s: &SubjectWithTeacher)
    ensures
        final(out)@ == old(out)@ + subject_line(*s),
{
    let ghost start = out@;
    out.append("ID: ");
    push_number(out, s.id as i64);
    out.append(", Nombre: ");
    out.append(s.name.as_str());
    out.append(", Abreviacion: ");
    out.append(s.shorten.as_str());
    out.append(", Profesor asignado: ");
    let ghost middle = out@;
    match &s.assigned_teacher {
        Some(t) => {
            out.append(t.name.as_str());
            out.append(" ");
            out.append(t.father_lastname.as_str());
            out.append(" (ID: ");
            push_number(
                out,
                match t.id {
                    Some(id) => id as i64,
                    None => 0,
                },
            );
            out.append(")");
        },
        None => {
            out.append("No asignado");
        },
    }
    proof {
        assert(out@ =~= middle + assigned_text(*s));
    }
    out.append("\n");
    proof {
        assert(out@ =~= start + subject_line(*s));
    }
}

fn push_group_line(out: &mut String, g: &Group)
    ensures
        final(out)@ == old(out)@ + group_line(*g),
{
    let ghost start = out@;
    out.append("ID: ");
    push_number(
        out,
        match g.id {
            Some(id) => id as i64,
            None => 0,
        },
    );
    out.append(", Grado: ");
    push_number(out, g.grade as i64);
    out.append(", Grupo: ");
    out.append(g.group.as_str());
    out.append(", Cantidad de alumnos: ");
    push_number(
        out,
        match g.students {
            Some(n) => n as i64,
            None => -1,
        },
    );
    out.append("\n");
    proof {
        assert(out@ =~= start + group_line(*g));
    }
}

fn push_room_line(out: &mut String, c: &Classroom)
    ensures
        final(out)@ == old(out)@ + room_line(*c),
{
    let ghost start = out@;
    out.append("ID: ");
    push_number(
        out,
        match c.id {
            Some(id) => id as i64,
            None => 0,
        },
    );
    out.append(", Edificio: ");
    match &c.building_id {
        Some(b) => {
            out.append(b.as_str());
        },
        None => {},
    }
    push_number(out, c.building_number as i64);
    out.append(", Tipo: ");
    match &c.building_type {
        Some(t) => {
            out.append(t.as_str());
        },
        None => {
            out.append("N/A");
        },
    }
    out.append(", Capacidad: ");
    push_number(
        out,
        match c.capacity {
            Some(n) => n as i64,
            None => 0,
        },
    );
    out.append("\n");
    proof {
        assert(out@ =~= start + room_line(*c));
    }
}

fn push_assignment_line(out: &mut String, a: &Assignment)
    ensures
        final(out)@ == old(out)@ + assignment_line(*a),
{
    let ghost start = out@;
    out.append("ID: ");
    push_number(
        out,
        match a.id {
            Some(id) => id as i64,
            None => 0,
        },
    );
    out.append(", Materia: ");
    out.append(a.subject_shorten.as_str());
    out.append(" (ID: ");
    push_number(out, a.subject_id as i64);
    out.append("), Maestro ID: ");
    push_number(out, a.teacher_id as i64);
    out.append(", Grupo ID: ");
    push_number(out, a.group_id as i64);
    out.append(", Aula ID: ");
    push_number(out, a.classroom_id as i64);
    out.append(", Dia: ");
    out.append(a.day.as_str());
    out.append(", Modulo: ");
    push_number(out, a.module_index as i64);
    out.append(" de ");
    push_number(out, DESCRIBED_MODULES);
    out.append("\n");
    proof {
        assert(out@ =~= start + assignment_line(*a));
    }
}

/// Describes the schedule for the assistant.
pub fn format_schedule_context(schedule_data: &ScheduleData) -> (context: String)
    ensures
        context@ == context_of(*schedule_data),
{
    let mut out = String::new();
    out.append("INFORMACION DEL HORARIO ACTUAL:\n\n");
    out.append("MAESTROS:\n");
    let ghost teachers_from = out@;
    let mut i: usize = 0;
    while i < schedule_data.teachers.len()
        invariant
            i <= schedule_data.teachers.len(),
            out@ == teachers_from + teacher_lines(schedule_data.teachers@, i as int),
        decreases schedule_data.teachers.len() - i,
    {
        let ghost before = out@;
        push_teacher_line(&mut out, &schedule_data.teachers[i]);
        proof {
            assert(out@ =~= teachers_from + teacher_lines(schedule_data.teachers@, i + 1));
        }
        i += 1;
    }
    out.append("\n");
    out.append("MATERIAS:\n");
    let ghost subjects_from = out@;
    let mut i: usize = 0;
    while i < schedule_data.subjects.len()
        invariant
            i <= schedule_data.subjects.len(),
            out@ == subjects_from + subject_lines(schedule_data.subjects@, i as int),
        decreases schedule_data.subjects.len() - i,
    {
        push_subject_line(&mut out, &schedule_data.subjects[i]);
        proof {
            assert(out@ =~= subjects_from + subject_lines(schedule_data.subjects@, i + 1));
        }
        i += 1;
    }
    out.append("\n");
    out.append("GRUPOS:\n");
    let ghost groups_from = out@;
    let mut i: usize = 0;
    while i < schedule_data.groups.len()
        invariant
            i <= schedule_data.groups.len(),
            out@ == groups_from + group_lines(schedule_data.groups@, i as int),
        decreases schedule_data.groups.len() - i,
    {
        push_group_line(&mut out, &schedule_data.groups[i]);
        proof {
            assert(out@ =~= groups_from + group_lines(schedule_data.groups@, i + 1));
        }
        i += 1;
    }
    out.append("\n");
    out.append("AULAS:\n");
    let ghost rooms_from = out@;
    let mut i: usize = 0;
    while i < schedule_data.classrooms.len()
        invariant
            i <= schedule_data.classrooms.len(),
            out@ == rooms_from + room_lines(schedule_data.classrooms@, i as int),
        decreases schedule_data.classrooms.len() - i,
    {
        push_room_line(&mut out, &schedule_data.classrooms[i]);
        proof {
            assert(out@ =~= rooms_from + room_lines(schedule_data.classrooms@, i + 1));
        }
        i += 1;
    }
    out.append("\n");
    out.append("ASIGNACIONES ACTUALES:\n");
    let ghost lessons_from = out@;
    let mut i: usize = 0;
    while i < schedule_data.assignments.len()
        invariant
            i <= schedule_data.assignments.len(),
            out@ == lessons_from + assignment_lines(schedule_data.assignments@, i as int),
        decreases schedule_data.assignments.len() - i,
    {
        push_assignment_line(&mut out, &schedule_data.assignments[i]);
        proof {
            assert(out@ =~= lessons_from + assignment_lines(schedule_data.assignments@, i + 1));
        }
        i += 1;
    }
    let ghost closing_from = out@;
    out.append("\nPuedes ayudar al usuario a:\n");
    out.append("- Consultar información sobre maestros, materias, grupos y aulas\n");
    out.append("- Analizar conflictos de horarios\n");
    out.append("- Sugerir optimizaciones del horario\n");
    out.append("- Responder preguntas sobre las asignaciones actuales\n");
    out.append("- Ayudar con la planificación de horarios\n\n");
    proof {
        assert(out@ =~= closing_from + closing_text());
        assert(out@ =~= context_of(*schedule_data));
    }
    out
}

/// What the assistant is told before the conversation: its task, then the
/// description of the schedule.
pub open spec fn system_prompt_of(schedule_context: Seq<char>) -> Seq<char> {
    "Eres un asistente IA especializado en ayudar con horarios escolares. Puedes modificar horarios de clase, sugerir movimientos óptimos, identificar conflictos y contestar preguntas acerca del horario.\n\n"@
        + schedule_context
}

/// The role that an entry of the history speaks in, if it is one of the
/// user or of the assistant.
pub open spec fn role_of(entry: Seq<char>) -> Option<Seq<char>> {
    if is_prefix("Usuario: "@, entry) {
        Some("user"@)
    } else if is_prefix("Asistente: "@, entry) {
        Some("assistant"@)
    } else {
        None
    }
}

/// What an entry of the history says: the entry without the marks of its
/// speaker.
pub open spec fn content_of(entry: Seq<char>) -> Seq<char> {
    if is_prefix("Usuario: "@, entry) {
        without(entry, "Usuario: "@)
    } else {
        without(entry, "Asistente: "@)
    }
}

/// The messages, as (role, content), of the first `k` entries of the
/// history: one for each entry of the user or the assistant, in order.
pub open spec fn history_messages(history: Seq<String>, k: int) -> Seq<(Seq<char>, Seq<char>)>
    decreases k,
{
    if k <= 0 {
        Seq::empty()
    } else {
        let before = history_messages(history, k - 1);
        match role_of(history[k - 1]@) {
            Some(role) => before.push((role, content_of(history[k - 1]@))),
            None => before,
        }
    }
}

/// The messages as values.
pub open spec fn messages_view(v: Seq<Message>) -> Seq<(Seq<char>, Seq<char>)> {
    Seq::new(v.len(), |i: int| (v[i].role@, v[i].content@))
}

/// The conversation as the service takes it: the system prompt with the
/// description of the schedule, then the history.
pub fn chat_messages(schedule_context: &str, history: &Vec<String>) -> (messages: Vec<Message>)
    ensures
        messages_view(messages@) == seq![("system"@, system_prompt_of(schedule_context@))]
            + history_messages(history@, history@.len() as int),
{
    let prompt =
        "Eres un asistente IA especializado en ayudar con horarios escolares. Puedes modificar horarios de clase, sugerir movimientos óptimos, identificar conflictos y contestar preguntas acerca del horario.\n\n".to_owned().concat(
        schedule_context,
    );
    let mut messages: Vec<Message> = Vec::new();
    messages.push(Message { role: "system".to_owned(), content: prompt });
    let ghost first = seq![("system"@, system_prompt_of(schedule_context@))];
    proof {
        assert(messages_view(messages@) =~= first + history_messages(history@, 0));
    }
    let mut k: usize = 0;
    while k < history.len()
        invariant
            k <= history.len(),
            first == seq![("system"@, system_prompt_of(schedule_context@))],
            messages_view(messages@) == first + history_messages(history@, k as int),
        decreases history.len() - k,
    {
        let entry = history[k].as_str();
        let ghost before = messages@;
        if starts_with_text(entry, "Usuario: ") {
            messages.push(
                Message { role: "user".to_owned(), content: remove_all(entry, "Usuario: ") },
            );
            proof {
                assert(messages_view(messages@) =~= messages_view(before).push(
                    ("user"@, content_of(entry@)),
                ));
                assert(messages_view(messages@) =~= first + history_messages(history@, k + 1));
            }
        } else if starts_with_text(entry, "Asistente: ") {
            messages.push(
                Message {
                    role: "assistant".to_owned(),
                    content: remove_all(entry, "Asistente: "),
                },
            );
            proof {
                assert(messages_view(messages@) =~= messages_view(before).push(
                    ("assistant"@, content_of(entry@)),
                ));
                assert(messages_view(messages@) =~= first + history_messages(history@, k + 1));
            }
        }
        k += 1;
    }
    messages
}

impl AIState {
    /// The state at the start of a conversation.
    pub fn new(api_key: String, schedule_data: ScheduleData) -> (state: AIState)
        ensures
            state.api_key == api_key,
            state.conversation_history@.len() == 0,
            state.schedule_data == Some(schedule_data),
    {
        AIState { api_key, conversation_history: Vec::new(), schedule_data: Some(schedule_data) }
    }

    /// Notes what the user asked.
    pub fn note_question(&mut self, message: &str)
        ensures
            final(self).api_key == old(self).api_key,
            final(self).schedule_data == old(self).schedule_data,
            final(self).conversation_history@.len() == old(self).conversation_history@.len() + 1,
            final(self).conversation_history@.take(old(self).conversation_history@.len() as int)
                == old(self).conversation_history@,
            final(self).conversation_history@[old(self).conversation_history@.len() as int]@
                == "Usuario: "@ + message@,
    {
        let ghost before = self.conversation_history@;
        self.conversation_history.push("Usuario: ".to_owned().concat(message));
        proof {
            assert(self.conversation_history@.take(before.len() as int) =~= before);
        }
    }

    /// Notes what the assistant answered.
    pub fn note_answer(&mut self, content: &str)
        ensures
            final(self).api_key == old(self).api_key,
            final(self).schedule_data == old(self).schedule_data,
            final(self).conversation_history@.len() == old(self).conversation_history@.len() + 1,
            final(self).conversation_history@.take(old(self).conversation_history@.len() as int)
                == old(self).conversation_history@,
            final(self).conversation_history@[old(self).conversation_history@.len() as int]@
                == "Asistente: "@ + content@,
    {
        let ghost before = self.conversation_history@;
        self.conversation_history.push("Asistente: ".to_owned().concat(content));
        proof {
            assert(self.conversation_history@.take(before.len() as int) =~= before);
        }
    }
}

/// The reply that a response of the service holds: the first choice,
/// unless the service reported an error or gave no choice.
pub fn reply_of(error: Option<String>, choices: Vec<String>) -> (r: Result<String, ReplyError>)
    ensures
        match error {
            Some(message) => r == Err::<String, ReplyError>(ReplyError::Service(message)),
            None => if choices@.len() == 0 {
                r == Err::<String, ReplyError>(ReplyError::NoChoice)
            } else {
                r matches Ok(reply) && reply@ == choices@[0]@
            },
        },
{
    match error {
        Some(message) => Err(ReplyError::Service(message)),
        None => {
            if choices.len() == 0 {
                Err(ReplyError::NoChoice)
            } else {
                Ok(choices[0].clone())
            }
        },
    }
}

} // verus!
