use zero_inbox::dsl::{parse, Block, Error, Program, Task, Token};
use zero_inbox::dsl_ir::{lower, optimize, IRBlock, IRProgram, Task as IrTask};

#[test]
fn test_task_parsing() {
    let task = Task::from_str("write(report, urgent)").unwrap();
    assert_eq!(task.name, "write");
    assert_eq!(task.params, vec!["report", "urgent"]);
    assert!(task.duration.is_none());
}

#[test]
fn test_block_creation() {
    let mut block = Block::new("morning");
    block.add_task(Task::from_str("check_email()").unwrap());
    block.add_task(Task::from_str("write(report)").unwrap());

    assert_eq!(block.name, "morning");
    assert_eq!(block.tasks.len(), 2);
    assert_eq!(block.tasks[0].name, "check_email");
    assert_eq!(block.tasks[1].name, "write");
}

#[test]
fn compact_task_without_parentheses_is_rejected() {
    assert!(Task::from_str("plain").is_none());
    let t = Task::from_str("  go ( a ,b ))) ").unwrap();
    assert_eq!(t.name, "go");
    assert_eq!(t.params, vec!["a", "b"]);
}

#[test]
fn test_lower_program() {
    let mut program = Program::new();

    let mut block1 = Block::new("morning");
    block1.add_task(Task {
        name: "check_email".to_string(),
        params: vec!["inbox".to_string()],
        duration: None,
    });

    let mut block2 = Block::new("afternoon");
    block2.add_task(Task {
        name: "write".to_string(),
        params: vec!["report".to_string()],
        duration: None,
    });

    program.add_block(block1);
    program.add_block(block2);

    let ir_program = lower(program).unwrap();

    assert_eq!(ir_program.blocks.len(), 2);
    assert_eq!(ir_program.blocks[0].name, "morning");
    assert_eq!(ir_program.blocks[0].tasks[0].name, "check_email");
    assert_eq!(ir_program.blocks[1].name, "afternoon");
    assert_eq!(ir_program.blocks[1].tasks[0].name, "write");
}

#[test]
fn lowering_sums_seconds() {
    let p = parse("@a\n  x() [2h]\n  y() [30m]\n  z()\n").unwrap();
    let ir = lower(p).unwrap();
    assert_eq!(ir.total_duration, 9000);
    assert_eq!(ir.blocks[0].tasks[0].duration, Some(7200));
    assert_eq!(ir.blocks[0].tasks[2].duration, None);
    assert_eq!(ir.blocks[0].tasks[1].block, "a");
}

#[test]
fn test_optimize() {
    let mut program = IRProgram::new();

    let block = IRBlock {
        name: "test".to_string(),
        tasks: vec![
            IrTask {
                name: "short".to_string(),
                params: vec![],
                duration: Some(300),
                start_time: None,
                end_time: None,
                block: "test".to_string(),
                tags: vec![],
                priority: 0,
            },
            IrTask {
                name: "long".to_string(),
                params: vec![],
                duration: Some(3600),
                start_time: None,
                end_time: None,
                block: "test".to_string(),
                tags: vec![],
                priority: 0,
            },
        ],
        start_time: None,
        end_time: None,
    };

    program.add_block(block);

    assert_eq!(program.blocks[0].tasks[0].name, "short");

    optimize(&mut program);

    assert_eq!(program.blocks[0].tasks[0].name, "long");
}

#[test]
fn test_parse_simple_program() {
    let input = r#"
@morning
  check_email()
  write(report) [2h]
  
@evening
  review(PRs) [1h]
"#;

    let program = parse(input).unwrap();
    assert_eq!(program.blocks.len(), 2);

    let morning = &program.blocks[0];
    assert_eq!(morning.name, "morning");
    assert_eq!(morning.tasks.len(), 2);
    assert_eq!(morning.tasks[0].name, "check_email");
    assert_eq!(morning.tasks[1].name, "write");
    assert_eq!(morning.tasks[1].duration.as_ref().unwrap().minutes, 120);

    let evening = &program.blocks[1];
    assert_eq!(evening.name, "evening");
    assert_eq!(evening.tasks[0].name, "review");
    assert_eq!(evening.tasks[0].duration.as_ref().unwrap().minutes, 60);
}

#[test]
fn test_parse_invalid_syntax() {
    let input = "@\n  task()";
    assert!(parse(input).is_err());

    let input = "@block\n  invalid-task";
    assert!(parse(input).is_ok());
}

#[test]
fn compact_texts() {
    let t = Task::from_str("write(report, urgent)").unwrap();
    assert_eq!(t.to_string(), "write(report, urgent)");
    assert_eq!(Task::from_str("nap()").unwrap().to_string(), "nap()");
    assert_eq!(Token::At.to_string(), "@");
    assert_eq!(Token::Duration("[2h]".to_string()).to_string(), "[2h]");
    assert_eq!(Token::Indent.to_string(), "indent");
    let e = Error::ParseError { line: 12, col: 3, message: "bad".to_string() };
    assert_eq!(e.to_string(), "Parser error at line 12:3 - bad");
    assert_eq!(Error::Other("x".to_string()).to_string(), "Error: x");
    let err = parse("@\n").unwrap_err();
    assert_eq!(err.to_string(), "Parser error at line 1:1 - Expected block name after @");
}
