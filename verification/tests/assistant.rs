use school_roster::assistant::{
    chat_messages, format_schedule_context, reply_of, AIState, Message, ReplyError, ScheduleData,
};
use school_roster::model::{
    Assignment, AssignedTeacher, Classroom, Group, SubjectWithTeacher, Teacher,
};

fn data() -> ScheduleData {
    ScheduleData {
        teachers: vec![
            Teacher {
                id: Some(7),
                name: "Ana".to_string(),
                father_lastname: "Ruiz".to_string(),
                subjects: vec![1],
                preferred_days: None,
                preferred_modules: None,
                commissioned_hours: None,
            },
            Teacher {
                id: None,
                name: "Luis".to_string(),
                father_lastname: "Soto".to_string(),
                subjects: vec![],
                preferred_days: None,
                preferred_modules: None,
                commissioned_hours: None,
            },
        ],
        subjects: vec![
            SubjectWithTeacher {
                id: 1,
                name: "Matematicas".to_string(),
                shorten: "MAT".to_string(),
                color: "#fff".to_string(),
                spec: None,
                required_modules: Some(4),
                priority: None,
                assigned_teacher: Some(AssignedTeacher {
                    id: Some(7),
                    name: "Ana".to_string(),
                    father_lastname: "Ruiz".to_string(),
                }),
            },
            SubjectWithTeacher {
                id: 2,
                name: "Arte".to_string(),
                shorten: "ART".to_string(),
                color: "#000".to_string(),
                spec: None,
                required_modules: None,
                priority: None,
                assigned_teacher: None,
            },
        ],
        groups: vec![
            Group {
                id: Some(3),
                grade: 2,
                group: "B".to_string(),
                career: None,
                students: Some(28),
                max_modules_per_day: None,
            },
            Group {
                id: None,
                grade: 1,
                group: "A".to_string(),
                career: None,
                students: None,
                max_modules_per_day: None,
            },
        ],
        classrooms: vec![
            Classroom {
                id: Some(5),
                building_id: Some("C".to_string()),
                building_number: 303,
                building_type: Some("lab".to_string()),
                capacity: Some(30),
                availability: None,
            },
            Classroom {
                id: None,
                building_id: None,
                building_number: 12,
                building_type: None,
                capacity: None,
                availability: None,
            },
        ],
        assignments: vec![Assignment {
            id: Some(11),
            group_id: 3,
            day: "Lunes".to_string(),
            module_index: 2,
            subject_id: 1,
            teacher_id: 7,
            classroom_id: 5,
            subject_name: "Matematicas".to_string(),
            subject_shorten: "MAT".to_string(),
            subject_color: "#fff".to_string(),
        }],
    }
}

#[test]
fn schedule_context_lists_every_entity() {
    let expected = "INFORMACION DEL HORARIO ACTUAL:\n\n\
MAESTROS:\n\
- ID: 7, Nombre: Ana Ruiz\n\
- ID: 0, Nombre: Luis Soto\n\
\n\
MATERIAS:\n\
ID: 1, Nombre: Matematicas, Abreviacion: MAT, Profesor asignado: Ana Ruiz (ID: 7)\n\
ID: 2, Nombre: Arte, Abreviacion: ART, Profesor asignado: No asignado\n\
\n\
GRUPOS:\n\
ID: 3, Grado: 2, Grupo: B, Cantidad de alumnos: 28\n\
ID: 0, Grado: 1, Grupo: A, Cantidad de alumnos: -1\n\
\n\
AULAS:\n\
ID: 5, Edificio: C303, Tipo: lab, Capacidad: 30\n\
ID: 0, Edificio: 12, Tipo: N/A, Capacidad: 0\n\
\n\
ASIGNACIONES ACTUALES:\n\
ID: 11, Materia: MAT (ID: 1), Maestro ID: 7, Grupo ID: 3, Aula ID: 5, Dia: Lunes, Modulo: 2 de 9\n\
\n\
Puedes ayudar al usuario a:\n\
- Consultar información sobre maestros, materias, grupos y aulas\n\
- Analizar conflictos de horarios\n\
- Sugerir optimizaciones del horario\n\
- Responder preguntas sobre las asignaciones actuales\n\
- Ayudar con la planificación de horarios\n\n";
    assert_eq!(format_schedule_context(&data()), expected);
}

#[test]
fn empty_schedule_context_keeps_its_headings() {
    let empty = ScheduleData {
        teachers: vec![],
        subjects: vec![],
        groups: vec![],
        classrooms: vec![],
        assignments: vec![],
    };
    let text = format_schedule_context(&empty);
    assert!(text.starts_with(
        "INFORMACION DEL HORARIO ACTUAL:\n\nMAESTROS:\n\nMATERIAS:\n\nGRUPOS:\n\nAULAS:\n\nASIGNACIONES ACTUALES:\n\nPuedes ayudar al usuario a:\n"
    ));
}

fn message(role: &str, content: &str) -> Message {
    Message { role: role.to_string(), content: content.to_string() }
}

#[test]
fn conversation_becomes_messages_by_speaker() {
    let history = vec![
        "Usuario: Hola".to_string(),
        "Asistente: Buenos dias".to_string(),
        "nota sin hablante".to_string(),
        "Usuario: dice Usuario: dos veces".to_string(),
        "usuario: en minusculas".to_string(),
        "Asistente: ".to_string(),
    ];
    let messages = chat_messages("CONTEXTO", &history);
    assert_eq!(messages.len(), 5);
    assert_eq!(messages[0].role, "system");
    assert!(messages[0].content.starts_with("Eres un asistente IA especializado"));
    assert!(messages[0].content.ends_with("acerca del horario.\n\nCONTEXTO"));
    assert_eq!(messages[1], message("user", "Hola"));
    assert_eq!(messages[2], message("assistant", "Buenos dias"));
    assert_eq!(messages[3], message("user", "dice dos veces"));
    assert_eq!(messages[4], message("assistant", ""));
    assert_eq!(chat_messages("", &vec![]).len(), 1);
}

#[test]
fn state_notes_questions_and_answers() {
    let mut state = AIState::new("key".to_string(), data());
    assert_eq!(state.api_key, "key");
    assert!(state.conversation_history.is_empty());
    assert!(state.schedule_data.is_some());
    state.note_question("¿Quién da Arte?");
    state.note_answer("Nadie");
    assert_eq!(state.conversation_history, vec!["Usuario: ¿Quién da Arte?", "Asistente: Nadie"]);
    let messages = chat_messages("", &state.conversation_history);
    assert_eq!(messages[1], message("user", "¿Quién da Arte?"));
    assert_eq!(messages[2], message("assistant", "Nadie"));
}

#[test]
fn reply_is_the_first_choice_unless_the_service_failed() {
    assert_eq!(
        reply_of(None, vec!["uno".to_string(), "dos".to_string()]),
        Ok("uno".to_string())
    );
    assert_eq!(reply_of(None, vec![]), Err(ReplyError::NoChoice));
    assert_eq!(
        reply_of(Some("limite".to_string()), vec!["uno".to_string()]),
        Err(ReplyError::Service("limite".to_string()))
    );
}

#[test]
fn numbers_are_written_in_decimal() {
    let mut one = data();
    one.teachers.truncate(1);
    one.teachers[0].id = Some(i16::MIN);
    one.subjects.clear();
    one.groups.clear();
    one.classrooms.truncate(1);
    one.classrooms[0].id = Some(i16::MAX);
    one.classrooms[0].building_number = 1000;
    one.classrooms[0].capacity = Some(10);
    one.assignments.clear();
    let text = format_schedule_context(&one);
    assert!(text.contains("- ID: -32768, Nombre: Ana Ruiz\n"));
    assert!(text.contains("ID: 32767, Edificio: C1000, Tipo: lab, Capacidad: 10\n"));
}
