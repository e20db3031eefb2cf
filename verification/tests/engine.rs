use kataru::conditional::{branch_len, take_branch};
use kataru::runner::Runner;
use kataru::structs::{Choices, Config, Goto, PassageLine, SetCmd, Value};

fn text(s: &str) -> PassageLine {
    PassageLine::Text(s.to_string())
}

#[test]
fn flattened_length_counts_every_arm() {
    let lines = vec![
        text("a"),
        PassageLine::Branches(vec![
            ("if x == 1".to_string(), vec![text("b"), text("c")]),
            ("else".to_string(), vec![text("d")]),
        ]),
    ];
    assert_eq!(branch_len(&lines), 5);

    let lines = vec![PassageLine::Branches(vec![
        (
            "if x == 1".to_string(),
            vec![PassageLine::Branches(vec![("if y == 2".to_string(), vec![text("n")])])],
        ),
        ("else".to_string(), vec![text("e")]),
    ])];
    assert_eq!(branch_len(&lines), 4);
}

#[test]
fn branch_selection_lands_on_the_matching_arm() {
    let arms: Vec<(String, Vec<PassageLine>)> = vec![
        ("if x == 1".to_string(), vec![text("A")]),
        ("if x == 2".to_string(), vec![text("B")]),
        ("else".to_string(), vec![text("C")]),
    ];

    let mut config = Config {
        passage: "p".to_string(),
        line: 0,
        state: vec![("x".to_string(), Value::Number(2))],
        characters: vec![],
    };
    take_branch(&mut config, &arms).unwrap();
    assert_eq!(config.line, 2);

    let mut config = Config {
        passage: "p".to_string(),
        line: 0,
        state: vec![("x".to_string(), Value::Number(5))],
        characters: vec![],
    };
    take_branch(&mut config, &arms).unwrap();
    assert_eq!(config.line, 3);
}

#[test]
fn take_branch_reports_a_malformed_condition() {
    let arms: Vec<(String, Vec<PassageLine>)> =
        vec![("if x ==".to_string(), vec![text("A")])];
    let mut config = Config {
        passage: "p".to_string(),
        line: 0,
        state: vec![("x".to_string(), Value::Number(1))],
        characters: vec![],
    };
    assert!(take_branch(&mut config, &arms).is_err());
    assert_eq!(config.line, 0);
}

#[test]
fn choices_consume_matching_input_and_reprompt_otherwise() {
    let story = vec![
        (
            "start".to_string(),
            vec![
                text("Hello"),
                PassageLine::Choices(Choices {
                    choices: vec![
                        ("go north".to_string(), "forest".to_string()),
                        ("go south".to_string(), "town".to_string()),
                    ],
                }),
            ],
        ),
        ("forest".to_string(), vec![text("The forest greets you.")]),
        ("town".to_string(), vec![text("The town sleeps.")]),
    ];
    let config = Config {
        passage: "start".to_string(),
        line: 0,
        state: vec![],
        characters: vec![],
    };
    let mut runner = Runner::new(config, story);

    match runner.next("") {
        Some(PassageLine::Text(t)) => assert_eq!(t, "Hello"),
        other => panic!("expected the text line, got {:?}", other),
    }
    assert_eq!(runner.config.line, 1);

    match runner.next("") {
        Some(PassageLine::Choices(c)) => assert_eq!(c.choices.len(), 2),
        other => panic!("expected the choice menu, got {:?}", other),
    }
    assert_eq!(runner.config.line, 1);

    match runner.next("east") {
        Some(PassageLine::InvalidChoice) => {}
        other => panic!("expected the invalid-choice sentinel, got {:?}", other),
    }
    assert_eq!(runner.config.line, 1);
    assert_eq!(runner.config.passage, "start");

    match runner.next("go north") {
        Some(PassageLine::Text(t)) => assert_eq!(t, "The forest greets you."),
        other => panic!("expected the forest's first line, got {:?}", other),
    }
    assert_eq!(runner.config.passage, "forest");
    assert_eq!(runner.config.line, 1);
}

#[test]
fn parked_choice_menu_is_idempotent() {
    let story = vec![
        (
            "start".to_string(),
            vec![PassageLine::Choices(Choices {
                choices: vec![("wait".to_string(), "start".to_string())],
            })],
        ),
    ];
    let config = Config {
        passage: "start".to_string(),
        line: 0,
        state: vec![("seen".to_string(), Value::Number(1))],
        characters: vec![],
    };
    let mut runner = Runner::new(config, story);
    for _ in 0..3 {
        match runner.next("") {
            Some(PassageLine::Choices(c)) => {
                assert_eq!(c.choices, vec![("wait".to_string(), "start".to_string())]);
            }
            other => panic!("expected the choice menu, got {:?}", other),
        }
        assert_eq!(runner.config.line, 0);
        assert_eq!(runner.config.state, vec![("seen".to_string(), Value::Number(1))]);
    }
    for _ in 0..2 {
        match runner.next("run") {
            Some(PassageLine::InvalidChoice) => {}
            other => panic!("expected the invalid-choice sentinel, got {:?}", other),
        }
        assert_eq!(runner.config.line, 0);
        assert_eq!(runner.config.state, vec![("seen".to_string(), Value::Number(1))]);
    }
}

#[test]
fn mutations_jumps_and_branches_resolve_silently() {
    let story = vec![
        (
            "start".to_string(),
            vec![
                PassageLine::SetCmd(SetCmd {
                    set: vec![("score +=".to_string(), Value::Number(3))],
                }),
                PassageLine::Goto(Goto { goto: "endp".to_string() }),
            ],
        ),
        (
            "endp".to_string(),
            vec![PassageLine::Branches(vec![
                (
                    "if score == 5".to_string(),
                    vec![text("won"), PassageLine::Goto(Goto { goto: "fin".to_string() })],
                ),
                (
                    "else".to_string(),
                    vec![text("lost"), PassageLine::Goto(Goto { goto: "fin".to_string() })],
                ),
            ])],
        ),
        ("fin".to_string(), vec![]),
    ];
    let config = Config {
        passage: "start".to_string(),
        line: 0,
        state: vec![("score".to_string(), Value::Number(2))],
        characters: vec![],
    };
    let mut runner = Runner::new(config, story);

    match runner.next("") {
        Some(PassageLine::Text(t)) => assert_eq!(t, "won"),
        other => panic!("expected the winning line, got {:?}", other),
    }
    assert_eq!(runner.config.passage, "endp");
    assert_eq!(runner.config.state, vec![("score".to_string(), Value::Number(5))]);

    assert!(runner.next("").is_none());
    assert_eq!(runner.config.passage, "fin");
    assert!(runner.next("").is_none());
}

#[test]
fn dialogue_lines_are_observable() {
    let story = vec![(
        "start".to_string(),
        vec![PassageLine::Dialogue(vec![("alice".to_string(), "hi".to_string())])],
    )];
    let config = Config {
        passage: "start".to_string(),
        line: 0,
        state: vec![],
        characters: vec![("alice".to_string(), kataru::structs::CharacterData {
            description: "a wanderer".to_string(),
        })],
    };
    let mut runner = Runner::new(config, story);
    match runner.next("") {
        Some(PassageLine::Dialogue(d)) => {
            assert_eq!(d, vec![("alice".to_string(), "hi".to_string())]);
        }
        other => panic!("expected the dialogue line, got {:?}", other),
    }
    assert!(runner.next("").is_none());
}
