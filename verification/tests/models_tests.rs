use diagram::class::{self, RelationKind};
use diagram::sequence::{self, MessageArrow};
use diagram::state::{self, StateNodeKind};
use diagram::er::{self, Cardinality};
use diagram::gantt::{self, format_ymd, parse_ymd};

const CLASS_SAMPLE: &str = r#"classDiagram
    class Animal {
        +String name
        +eat()
    }
    class Dog
    Animal <|-- Dog : inherits
    Animal --> Food
"#;

#[test]
fn class_parse_basic() {
    let d = class::parse(CLASS_SAMPLE).unwrap();
    assert_eq!(d.classes.len(), 3);
    assert_eq!(d.classes[0].id, "Animal");
    assert_eq!(d.classes[0].members.len(), 2);
    assert_eq!(d.relations.len(), 2);
    assert_eq!(d.relations[0].kind, RelationKind::Inheritance);
    assert_eq!(d.relations[0].label, "inherits");
}

#[test]
fn member_annotation() {
    let d = class::parse("classDiagram\n    Animal : +String name\n").unwrap();
    assert_eq!(d.classes[0].members[0].text, "+String name");
}

#[test]
fn class_roundtrip() {
    let d = class::parse(CLASS_SAMPLE).unwrap();
    let out = d.to_mermaid();
    let d2 = class::parse(&out).unwrap();
    assert_eq!(d2.classes.len(), d.classes.len());
    assert_eq!(d2.relations.len(), d.relations.len());
}

#[test]
fn is_class_detects() {
    assert!(class::is_class(CLASS_SAMPLE));
    assert!(!class::is_class("graph TD\n  A-->B\n"));
    assert!(!class::is_class("sequenceDiagram\n  A->>B: hi\n"));
}

const SEQ_SAMPLE: &str = r#"sequenceDiagram
    participant Alice
    participant Bob
    Alice->>Bob: Hello Bob
    Bob-->>Alice: Hi Alice
"#;

#[test]
fn sequence_parse_basic() {
    let d = sequence::parse(SEQ_SAMPLE).unwrap();
    assert_eq!(d.participants.len(), 2);
    assert_eq!(d.messages.len(), 2);
    assert_eq!(d.messages[0].arrow, MessageArrow::Solid);
    assert_eq!(d.messages[1].arrow, MessageArrow::Dashed);
    assert_eq!(d.messages[0].text, "Hello Bob");
}

#[test]
fn implicit_participants() {
    let d = sequence::parse("sequenceDiagram\n    A->>B: hi\n").unwrap();
    assert_eq!(d.participants.len(), 2);
    assert_eq!(d.participants[0].id, "A");
    assert_eq!(d.participants[1].id, "B");
}

#[test]
fn participant_alias() {
    let d = sequence::parse("sequenceDiagram\n    participant A as Alice\n    A->>B: hi\n").unwrap();
    assert_eq!(d.participants[0].label, "Alice");
}

#[test]
fn sequence_roundtrip() {
    let d = sequence::parse(SEQ_SAMPLE).unwrap();
    let out = d.to_mermaid();
    let d2 = sequence::parse(&out).unwrap();
    assert_eq!(d2.participants.len(), d.participants.len());
    assert_eq!(d2.messages.len(), d.messages.len());
}

#[test]
fn is_sequence_detects() {
    assert!(sequence::is_sequence(SEQ_SAMPLE));
    assert!(!sequence::is_sequence("graph TD\n  A-->B\n"));
}

const STATE_SAMPLE: &str = r#"stateDiagram-v2
    [*] --> Still
    Still --> [*]
    Still --> Moving
    Moving --> Still
    Moving --> Crash
    Crash --> [*]
"#;

#[test]
fn is_state_detects() {
    assert!(state::is_state(STATE_SAMPLE));
    assert!(!state::is_state("graph TD\n  A-->B\n"));
}

#[test]
fn state_parse_basic() {
    let d = state::parse(STATE_SAMPLE).unwrap();
    assert!(d.states.iter().any(|s| s.id == "Still"));
    assert_eq!(d.transitions.len(), 6);
    assert!(d.transitions.iter().any(|t| t.from == "Still" && t.to == "Moving"));
}

#[test]
fn parse_state_alias_and_choice() {
    let src = r#"stateDiagram-v2
    state "Waiting for user" as Wait
    state check <<choice>>
    [*] --> Wait
    Wait --> check
    check --> Done: ok
"#;
    let d = state::parse(src).unwrap();
    let wait = d.states.iter().find(|s| s.id == "Wait").unwrap();
    assert_eq!(wait.label, "Waiting for user");
    let check = d.states.iter().find(|s| s.id == "check").unwrap();
    assert_eq!(check.kind, StateNodeKind::Choice);
}

#[test]
fn state_roundtrip() {
    let d = state::parse(STATE_SAMPLE).unwrap();
    let out = d.to_mermaid();
    let d2 = state::parse(&out).unwrap();
    assert_eq!(d2.transitions.len(), d.transitions.len());
}

#[test]
fn state_order_is_first_appearance() {
    let d = state::parse(STATE_SAMPLE).unwrap();
    let ids: Vec<&str> = d.states.iter().map(|s| s.id.as_str()).collect();
    assert_eq!(ids, vec!["[*]", "Still", "Moving", "Crash"]);
    assert_eq!(d.states[0].kind, StateNodeKind::StartEnd);
}

#[test]
fn state_errors() {
    let e = state::parse("graph TD\n").unwrap_err();
    assert_eq!(e.message, "expected stateDiagram-v2 header");
    assert_eq!(e.line, Some(1));
    let e = state::parse("stateDiagram-v2\n  what is this\n").unwrap_err();
    assert_eq!(e.message, "unrecognized state diagram line: what is this");
    assert_eq!(e.line, Some(2));
    let e = state::parse("stateDiagram-v2\n  state Outer {\n  A --> B\n").unwrap_err();
    assert_eq!(e.message, "unclosed composite state block");
    let d = state::parse("stateDiagram-v2\n  state Outer {\n    A --> B\n  }\n  C --> D\n").unwrap();
    assert_eq!(d.transitions.len(), 1);
}

#[test]
fn state_to_mermaid_exact() {
    let d = state::parse("stateDiagram-v2\n  state \"a\\b\" as S\n  state f <<fork>>\n  [*] --> S: go\n").unwrap();
    assert_eq!(
        d.to_mermaid(),
        "stateDiagram-v2\n    state \"a\\\\b\" as S\n    state f <<fork>>\n    [*] --> S: go\n"
    );
}

const ER_SAMPLE: &str = r#"erDiagram
    CUSTOMER ||--o{ ORDER : places
    ORDER ||--|{ LINE-ITEM : contains
    CUSTOMER {
        string name
        string custNumber PK
        string sector
    }
    ORDER {
        int orderNumber PK
        string deliveryAddress
    }
    LINE-ITEM {
        string productCode
        int quantity
        float pricePerUnit
    }
"#;

#[test]
fn is_er_detects() {
    assert!(er::is_er(ER_SAMPLE));
    assert!(!er::is_er("classDiagram\n  class A\n"));
}

#[test]
fn er_parse_basic() {
    let d = er::parse(ER_SAMPLE).unwrap();
    assert_eq!(d.entities.len(), 3);
    assert_eq!(d.relationships.len(), 2);
    let customer = d.entities.iter().find(|e| e.id == "CUSTOMER").unwrap();
    assert_eq!(customer.attributes.len(), 3);
    assert!(customer.attributes.iter().any(|a| a.pk && a.name == "custNumber"));
    assert_eq!(d.relationships[0].from_card, Cardinality::One);
    assert_eq!(d.relationships[0].to_card, Cardinality::ZeroOrMore);
    assert_eq!(d.relationships[0].label, "places");
}

#[test]
fn er_roundtrip() {
    let d = er::parse(ER_SAMPLE).unwrap();
    let out = d.to_mermaid();
    let d2 = er::parse(&out).unwrap();
    assert_eq!(d2.entities.len(), d.entities.len());
    assert_eq!(d2.relationships.len(), d.relationships.len());
}

#[test]
fn er_entities_sorted_and_output_exact() {
    let d = er::parse("erDiagram\n  b }|..|| a\n  LONE\n  a {\n    int id PK FK\n  }\n").unwrap();
    let ids: Vec<&str> = d.entities.iter().map(|e| e.id.as_str()).collect();
    assert_eq!(ids, vec!["LONE", "a", "b"]);
    assert!(!d.relationships[0].identifying);
    assert_eq!(d.relationships[0].from_card, Cardinality::OneOrMore);
    assert_eq!(d.relationships[0].to_card, Cardinality::One);
    assert_eq!(
        d.to_mermaid(),
        "erDiagram\n    a {\n        int id PK FK\n    }\n    b }|..|| a\n    LONE\n"
    );
}

#[test]
fn er_errors() {
    let e = er::parse("erDiagram\n  A {\n    int\n  }\n").unwrap_err();
    assert_eq!(e.message, "attribute needs type and name: int");
    assert_eq!(e.line, Some(3));
    let e = er::parse("erDiagram\n  A {\n    int x\n").unwrap_err();
    assert_eq!(e.message, "unclosed entity block");
    assert_eq!(e.line, Some(2));
    let e = er::parse("erDiagram\n  what? no\n").unwrap_err();
    assert_eq!(e.message, "unrecognized ER line: what? no");
}

const GANTT_SAMPLE: &str = r#"gantt
    title Project Plan
    dateFormat YYYY-MM-DD
    section Design
    Research :a1, 2024-01-01, 7d
    Spec :after a1, 5d
    section Build
    Implement :2024-01-15, 10d
"#;

#[test]
fn parse_ymd_roundtrip() {
    let d = parse_ymd("2024-01-01").unwrap();
    assert_eq!(format_ymd(d), "2024-01-01");
}

#[test]
fn gantt_parse_basic() {
    let g = gantt::parse(GANTT_SAMPLE).unwrap();
    assert_eq!(g.title, "Project Plan");
    assert_eq!(g.tasks.len(), 3);
    assert_eq!(g.tasks[0].id.as_deref(), Some("a1"));
    assert_eq!(g.tasks[1].start, g.tasks[0].end);
    assert_eq!(g.tasks[2].section, "Build");
}

#[test]
fn gantt_roundtrip() {
    let g = gantt::parse(GANTT_SAMPLE).unwrap();
    let out = g.to_mermaid();
    let g2 = gantt::parse(&out).unwrap();
    assert_eq!(g2.tasks.len(), g.tasks.len());
    assert_eq!(g2.tasks[0].name, g.tasks[0].name);
}

#[test]
fn is_gantt_detects() {
    assert!(gantt::is_gantt(GANTT_SAMPLE));
    assert!(!gantt::is_gantt("graph TD\n A-->B\n"));
}

#[test]
fn gantt_dates_exact() {
    assert_eq!(parse_ymd("1970-01-01"), Some(0));
    assert_eq!(parse_ymd("1970-01-02"), Some(1));
    assert_eq!(parse_ymd("2000-03-01"), Some(11017));
    assert_eq!(parse_ymd("1969-12-31"), Some(-1));
    assert_eq!(parse_ymd("2024-13-01"), None);
    assert_eq!(parse_ymd("2024-01"), None);
    assert_eq!(parse_ymd("2024-01-01-01"), None);
    assert_eq!(parse_ymd("+2024-01-01"), Some(19723));
    assert_eq!(format_ymd(-1), "1969-12-31");
    assert_eq!(format_ymd(11017), "2000-03-01");
}

#[test]
fn gantt_durations_and_errors() {
    let g = gantt::parse("gantt\n  T :2024-01-01, 25h\n  U :milestone, 2024-01-05\n").unwrap();
    assert_eq!(g.tasks[0].end - g.tasks[0].start, 2);
    assert!(g.tasks[1].milestone);
    assert_eq!(g.tasks[1].start, g.tasks[1].end);
    let e = gantt::parse("gantt\n  T :after zz, 2d\n").unwrap_err();
    assert_eq!(e.message, "unknown task id 'zz' in after clause");
    assert_eq!(e.line, Some(2));
    let e = gantt::parse("gantt\n  dateFormat DD.MM\n").unwrap_err();
    assert_eq!(e.message, "unsupported dateFormat 'DD.MM' (only YYYY-MM-DD)");
    let e = gantt::parse("gantt\n  T : 3d\n").unwrap_err();
    assert_eq!(e.message, "task missing start date");
    let e = gantt::parse("gantt\n  T : 2024-01-01, ???\n").unwrap_err();
    assert_eq!(e.message, "unrecognized task token '???'");
    assert_eq!(
        gantt::parse("gantt\n  section S\n  T :crit, t1, 2024-01-01, 3d\n").unwrap().to_mermaid(),
        "gantt\n    dateFormat YYYY-MM-DD\n    section S\n    T : crit, t1, 2024-01-01, 3d\n"
    );
}

#[test]
fn parse_stereotype() {
    let src = r#"classDiagram
    class Shape <<interface>> {
        +draw()
    }
    class Circle {
        <<implementation>>
        +draw()
    }
    Circle ..|> Shape
"#;
    let d = class::parse(src).unwrap();
    let shape = d.classes.iter().find(|c| c.id == "Shape").unwrap();
    assert_eq!(shape.stereotype.as_deref(), Some("interface"));
    assert_eq!(shape.members.len(), 1);
    let circle = d.classes.iter().find(|c| c.id == "Circle").unwrap();
    assert_eq!(circle.stereotype.as_deref(), Some("implementation"));
    let out = d.to_mermaid();
    assert!(out.contains("<<interface>>"));
    let d2 = class::parse(&out).unwrap();
    assert_eq!(
        d2.classes
            .iter()
            .find(|c| c.id == "Shape")
            .unwrap()
            .stereotype
            .as_deref(),
        Some("interface")
    );
}

#[test]
fn parse_cardinality() {
    let src = r#"classDiagram
    Customer "1" --> "*" Order : places
    Student "1" --> "1..*" Course
"#;
    let d = class::parse(src).unwrap();
    assert_eq!(d.relations.len(), 2);
    assert_eq!(d.relations[0].from, "Customer");
    assert_eq!(d.relations[0].to, "Order");
    assert_eq!(d.relations[0].from_card.as_deref(), Some("1"));
    assert_eq!(d.relations[0].to_card.as_deref(), Some("*"));
    assert_eq!(d.relations[0].label, "places");
    assert_eq!(d.relations[1].to_card.as_deref(), Some("1..*"));
    let out = d.to_mermaid();
    assert!(out.contains("\"1\""));
    assert!(out.contains("\"*\""));
    let d2 = class::parse(&out).unwrap();
    assert_eq!(d2.relations[0].from_card, d.relations[0].from_card);
    assert_eq!(d2.relations[0].to_card, d.relations[0].to_card);
}

#[test]
fn parse_notes() {
    let src = r#"classDiagram
    class Animal
    note for Animal "represents living creatures"
    Animal --> Food
"#;
    let d = class::parse(src).unwrap();
    assert_eq!(d.notes.len(), 1);
    assert_eq!(d.notes[0].target, "Animal");
    assert_eq!(d.notes[0].text, "represents living creatures");
    let out = d.to_mermaid();
    assert!(out.contains("note for Animal"));
    let d2 = class::parse(&out).unwrap();
    assert_eq!(d2.notes.len(), 1);
    assert_eq!(d2.notes[0].text, d.notes[0].text);
}

#[test]
fn parse_notes_and_self_message() {
    let src = r#"sequenceDiagram
    participant A
    participant B
    Note left of A: thinking
    A->>B: hi
    Note over A,B: shared
    B->>B: self check
    Note right of B: done
"#;
    let d = sequence::parse(src).unwrap();
    assert_eq!(d.notes.len(), 3);
    assert_eq!(d.notes[0].placement, sequence::NotePlacement::LeftOf);
    assert_eq!(d.notes[0].before_message, 0);
    assert_eq!(d.notes[1].placement, sequence::NotePlacement::Over);
    assert_eq!(d.notes[1].before_message, 1);
    assert_eq!(d.messages[1].from, "B");
    assert_eq!(d.messages[1].to, "B");
    let out = d.to_mermaid();
    let d2 = sequence::parse(&out).unwrap();
    assert_eq!(d2.notes.len(), 3);
    assert_eq!(d2.messages.len(), 2);
}

#[test]
fn parse_loop_alt_opt() {
    let src = r#"sequenceDiagram
    participant A
    participant B
    loop Heartbeat
        A->>B: ping
        B-->>A: pong
    end
    alt success
        A->>B: ok
    else failure
        A->>B: retry
    end
    opt Extra
        A->>B: bonus
    end
"#;
    let d = sequence::parse(src).unwrap();
    assert_eq!(d.messages.len(), 5);
    assert_eq!(d.fragments.len(), 3);
    assert_eq!(d.fragments[0].kind, sequence::FragmentKind::Loop);
    assert_eq!(d.fragments[0].sections[0].label, "Heartbeat");
    assert_eq!(d.fragments[0].start_message(), 0);
    assert_eq!(d.fragments[0].end_message, 2);
    assert_eq!(d.fragments[1].kind, sequence::FragmentKind::Alt);
    assert_eq!(d.fragments[1].sections.len(), 2);
    assert_eq!(d.fragments[1].sections[1].label, "failure");
    assert_eq!(d.fragments[1].sections[1].start_message, 3);
    assert_eq!(d.fragments[2].kind, sequence::FragmentKind::Opt);
    let out = d.to_mermaid();
    assert!(out.contains("loop Heartbeat"));
    assert!(out.contains("else failure"));
    assert!(out.contains("opt Extra"));
    let d2 = sequence::parse(&out).unwrap();
    assert_eq!(d2.fragments.len(), 3);
    assert_eq!(d2.messages.len(), 5);
}

#[test]
fn parse_milestone() {
    let src = r#"gantt
    title Ship
    dateFormat YYYY-MM-DD
    section Build
    Implement :a1, 2024-01-01, 5d
    Launch :milestone, m1, 2024-01-10, 0d
    Followup :after m1, 3d
"#;
    let g = gantt::parse(src).unwrap();
    assert!(g.tasks[1].milestone);
    assert_eq!(g.tasks[1].start, g.tasks[1].end);
    assert_eq!(g.tasks[2].start, g.tasks[1].start);
    let out = g.to_mermaid();
    assert!(out.contains("milestone"));
    let g2 = gantt::parse(&out).unwrap();
    assert!(g2.tasks[1].milestone);
    assert_eq!(g2.tasks[1].name, "Launch");
}

#[test]
fn parse_generics() {
    let src = r#"classDiagram
    class Stack~T~ {
        +List~T~ items
        +push(item~T~) void
    }
    class List~List~int~~
    Stack~T~ --> List~T~ : stores
"#;
    let d = diagram::class::parse(src).unwrap();
    let stack = d.classes.iter().find(|c| c.id == "Stack~T~").unwrap();
    assert_eq!(stack.members[0].text, "+List~T~ items");
    assert!(d.classes.iter().any(|c| c.id == "List~List~int~~"));
    assert_eq!(d.relations[0].from, "Stack~T~");
    assert_eq!(diagram::class::display_generics("Stack~T~"), "Stack‹T›");
    assert_eq!(diagram::class::display_generics("List~List~int~~"), "List‹List‹int››");
    assert_eq!(diagram::class::generics_to_angle("Stack~T~"), "Stack<T>");
    assert_eq!(diagram::class::angle_generics_to_tilde("Stack<T>"), "Stack~T~");
    assert_eq!(diagram::class::angle_generics_to_tilde("List<List<int>>"), "List~List~int~~");
    let out = d.to_mermaid();
    assert!(out.contains("Stack~T~"));
    let d2 = diagram::class::parse(&out).unwrap();
    assert!(d2.classes.iter().any(|c| c.id == "Stack~T~"));
}

#[test]
fn generics_edge_cases() {
    assert_eq!(diagram::class::display_generics("A~~B"), "A~~B");
    assert_eq!(diagram::class::display_generics("Map~K~V~"), "Map~K‹V›");
    assert_eq!(diagram::class::angle_generics_to_tilde("<<interface>> Box<T>"), "<<interface>> Box~T~");
    assert_eq!(diagram::class::angle_generics_to_tilde("a<>b"), "a<>b");
}

#[test]
fn dates_printable_up_to_the_32_bit_year_range() {
    assert!(gantt::date_printable(0));
    assert!(gantt::date_printable(750_000_000_000));
    assert_eq!(format_ymd(750_000_000_000), "2053432225-03-30");
    assert!(gantt::date_printable(784_000_000_000));
    assert!(gantt::date_printable(-784_000_000_000));
    assert!(!gantt::date_printable(785_000_000_000));
    assert!(!gantt::date_printable(i64::MAX));
    assert!(!gantt::date_printable(i64::MIN));
}

#[test]
fn sequence_participants_and_messages_read_back() {
    let src = "sequenceDiagram\n    participant A as Alice\n    participant B\n    A->>B: hello there\n    B-->>A: \n    A->>A: self\n";
    let d = sequence::parse(src).unwrap();
    let again = sequence::parse(&d.to_mermaid()).unwrap();
    let parts = |x: &sequence::SequenceDiagram| x.participants.iter().map(|p| (p.id.clone(), p.label.clone())).collect::<Vec<_>>();
    let msgs = |x: &sequence::SequenceDiagram| x.messages.iter().map(|m| (m.from.clone(), m.to.clone(), m.text.clone(), m.arrow)).collect::<Vec<_>>();
    assert_eq!(parts(&again), parts(&d));
    assert_eq!(msgs(&again), msgs(&d));
    assert_eq!(parts(&d), vec![("A".to_string(), "Alice".to_string()), ("B".to_string(), "B".to_string())]);
    assert_eq!(d.messages[1].text, "");
    assert_eq!(d.messages[1].arrow, MessageArrow::Dashed);
}

#[test]
fn er_with_attributes_reads_back_exactly() {
    let src = "erDiagram\n    CUSTOMER ||--o{ ORDER : places\n    ORDER ||--|{ LINE-ITEM : contains\n    ORDER |o..o| CUSTOMER\n    CUSTOMER {\n        string name\n        string custNumber PK UK\n    }\n    ORDER {\n        int orderNumber PK\n        int customer FK\n    }\n    LINE-ITEM {\n        string productCode\n    }\n";
    let d = er::parse(src).unwrap();
    let again = er::parse(&d.to_mermaid()).unwrap();
    let ents = |x: &er::ErDiagram| {
        x.entities
            .iter()
            .map(|e| (e.id.clone(), e.attributes.iter().map(|a| (a.data_type.clone(), a.name.clone(), a.pk, a.fk, a.uk)).collect::<Vec<_>>()))
            .collect::<Vec<_>>()
    };
    let rels = |x: &er::ErDiagram| {
        x.relationships
            .iter()
            .map(|r| (r.from.clone(), r.to.clone(), r.from_card, r.to_card, r.identifying, r.label.clone()))
            .collect::<Vec<_>>()
    };
    assert_eq!(ents(&again), ents(&d));
    assert_eq!(rels(&again), rels(&d));
    assert_eq!(d.entities[0].id, "CUSTOMER");
    assert!(d.entities[0].attributes[1].pk && d.entities[0].attributes[1].uk);
    assert!(!d.relationships[2].identifying);
    assert_eq!(d.relationships[2].label, "");
}

#[test]
fn class_diagram_reads_back_exactly() {
    let src = "classDiagram\n    class Animal <<abstract>> {\n        +String name\n        +eat() void\n    }\n    class Dog\n    class Cat {\n        +meow()\n    }\n    Animal <|-- Dog : inherits\n    Animal \"1\" *-- \"0..*\" Cat : owns\n    Dog ..> Cat\n    Cat o-- Dog\n";
    let d = class::parse(src).unwrap();
    let again = class::parse(&d.to_mermaid()).unwrap();
    let classes = |x: &class::ClassDiagram| {
        x.classes
            .iter()
            .map(|c| (c.id.clone(), c.members.iter().map(|m| m.text.clone()).collect::<Vec<_>>(), c.stereotype.clone()))
            .collect::<Vec<_>>()
    };
    let rels = |x: &class::ClassDiagram| {
        x.relations
            .iter()
            .map(|r| (r.from.clone(), r.to.clone(), r.kind, r.label.clone(), r.from_card.clone(), r.to_card.clone()))
            .collect::<Vec<_>>()
    };
    assert_eq!(classes(&again), classes(&d));
    assert_eq!(rels(&again), rels(&d));
    assert_eq!(d.classes[0].stereotype, Some("abstract".to_string()));
    assert_eq!(d.relations[1].from_card, Some("1".to_string()));
    assert_eq!(d.relations[1].to_card, Some("0..*".to_string()));
    assert_eq!(d.relations[1].kind, RelationKind::Composition);
}

#[test]
fn state_diagram_reads_back_as_same_states() {
    let src = "stateDiagram-v2\n    state \"Waiting for input\" as Idle\n    state Check <<choice>>\n    state Split <<fork>>\n    [*] --> Idle\n    Idle --> Check : poll\n    Check --> Split\n    Split --> Done\n    Done --> [*]\n";
    let d = state::parse(src).unwrap();
    let again = state::parse(&d.to_mermaid()).unwrap();
    let trans = |x: &state::StateDiagram| x.transitions.iter().map(|t| (t.from.clone(), t.to.clone(), t.label.clone())).collect::<Vec<_>>();
    let states = |x: &state::StateDiagram| {
        let mut v = x.states.iter().map(|s| (s.id.clone(), s.label.clone(), format!("{:?}", s.kind))).collect::<Vec<_>>();
        v.sort();
        v
    };
    assert_eq!(trans(&again), trans(&d));
    assert_eq!(states(&again), states(&d));
    let idle = d.states.iter().find(|s| s.id == "Idle").unwrap();
    assert_eq!(idle.label, "Waiting for input");
    let check = d.states.iter().find(|s| s.id == "Check").unwrap();
    assert_eq!(check.kind, StateNodeKind::Choice);
    assert_eq!(d.transitions[1].label, "poll");
}
