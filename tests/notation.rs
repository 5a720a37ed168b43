use zero_inbox::ast::TaskDuration as PlanDuration;
use zero_inbox::dsl::{TaskDuration, Token};

#[test]
fn test_duration_parsing() {
    let duration = TaskDuration::from_str("[2h]").unwrap();
    assert_eq!(duration.minutes, 120);
    assert_eq!(duration.to_string(), "2h");

    let duration = TaskDuration::from_str("[30m]").unwrap();
    assert_eq!(duration.minutes, 30);
    assert_eq!(duration.to_string(), "30m");
}

#[test]
fn test_tokenize_multiline() {
    let input = "@morning\n  task1()\n  task2() [30m]\n";
    let tokens: Vec<_> = Token::lexer(input);

    assert_eq!(tokens, vec![
        Token::At,
        Token::Task("morning".to_string()),
        Token::Newline,
        Token::Indent,
        Token::Task("task1()".to_string()),
        Token::Newline,
        Token::Indent,
        Token::Task("task2()".to_string()),
        Token::Duration("[30m]".to_string()),
        Token::Newline,
    ]);
}

#[test]
fn test_tokenize_block_header() {
    let tokens = Token::lexer("@morning");
    assert_eq!(tokens, vec![Token::At, Token::Task("morning".to_string())]);
}

#[test]
fn test_tokenize_task_with_duration() {
    let tokens = Token::lexer("  write(report) [2h]");
    assert_eq!(tokens, vec![
        Token::Indent,
        Token::Task("write(report)".to_string()),
        Token::Duration("[2h]".to_string()),
    ]);
}

#[test]
fn notation_unknown_characters_are_errors() {
    let tokens = Token::lexer("@x\n  a-b [2x]");
    assert_eq!(tokens, vec![
        Token::At,
        Token::Task("x".to_string()),
        Token::Newline,
        Token::Indent,
        Token::Task("a".to_string()),
        Token::Error,
        Token::Task("b".to_string()),
        Token::Error,
        Token::Error,
        Token::Task("x".to_string()),
        Token::Error,
    ]);
}

#[test]
fn notation_unclosed_parameters_leave_the_name() {
    let tokens = Token::lexer("go(on");
    assert_eq!(tokens, vec![
        Token::Task("go".to_string()),
        Token::Error,
        Token::Task("on".to_string()),
    ]);
}

#[test]
fn duration_text_forms() {
    assert_eq!(TaskDuration::from_str("45m").unwrap().minutes, 45);
    assert_eq!(TaskDuration::from_str("+3h").unwrap().minutes, 180);
    assert!(TaskDuration::from_str("3d").is_none());
    assert!(TaskDuration::from_str("h").is_none());
    assert!(TaskDuration::from_str("[]").is_none());
    assert!(TaskDuration::from_str("71582789h").is_none());
    assert_eq!(TaskDuration::from_str("71582788h").unwrap().minutes, 71582788 * 60);
    assert!(TaskDuration::from_str("4294967296m").is_none());
    assert_eq!(TaskDuration { minutes: 90 }.to_string(), "90m");
    assert_eq!(TaskDuration { minutes: 0 }.to_string(), "0h");
    assert_eq!(TaskDuration::from_str("[2h]").unwrap().to_std().as_secs(), 7200);
}

#[test]
fn plan_duration_forms() {
    assert_eq!(PlanDuration::from_str("2h"), Ok(PlanDuration::from_minutes(120)));
    assert_eq!(PlanDuration::from_str("+30m").unwrap().minutes, 30);
    assert_eq!(PlanDuration::from_str("[2h]"), Err(()));
    assert_eq!(PlanDuration::from_str("307445734561825861h"), Err(()));
    assert_eq!(PlanDuration::from_str("307445734561825860h").unwrap().minutes, 307445734561825860 * 60);
}

#[test]
fn human_duration_forms() {
    assert_eq!(PlanDuration::from_minutes(45).to_human_string(), "45m");
    assert_eq!(PlanDuration::from_minutes(120).to_human_string(), "2h");
    assert_eq!(PlanDuration::from_minutes(90).to_human_string(), "1h 30m");
}
