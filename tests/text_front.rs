use zero_inbox::ast::Priority;
use zero_inbox::config::{parse_time, Config, ConfigError, OutputFormat};
use zero_inbox::lexer::{extract_task_params, tokenize, Token};
use zero_inbox::parser::{parse, ParseError};
use zero_inbox::runtime::{answer_action, run_order, StepAction};
use zero_inbox::scheduler::ScheduleMode;
use zero_inbox::utils::{format_duration, round_to_nearest_15_min, sanitize_output_name, slugify};
use zero_inbox::{compile, CompileError};

#[test]
fn tokenize_lines_and_attributes() {
    let tokens = tokenize("@morning\n  write(report) [2h] #deepwork p:high after:a,b\n\nloose\n");
    assert_eq!(tokens, vec![
        Token::Block("morning".to_string()),
        Token::Newline,
        Token::Task("write(report)".to_string()),
        Token::Duration("2h".to_string()),
        Token::Tag("deepwork".to_string()),
        Token::Priority("high".to_string()),
        Token::DependsOn(vec!["a".to_string(), "b".to_string()]),
        Token::Newline,
        Token::Newline,
        Token::Task("loose".to_string()),
        Token::Newline,
        Token::EOF,
    ]);
}

#[test]
fn tokenize_empty_input() {
    assert_eq!(tokenize(""), vec![Token::EOF]);
    assert_eq!(tokenize("x ??"), vec![Token::Task("x".to_string()), Token::Newline, Token::EOF]);
}

#[test]
fn task_params_are_split_and_trimmed() {
    assert_eq!(extract_task_params("write(report, urgent)"), ("write".to_string(), vec!["report".to_string(), "urgent".to_string()]));
    assert_eq!(extract_task_params("rest"), ("rest".to_string(), vec![]));
    assert_eq!(extract_task_params("odd)("), ("odd)(".to_string(), vec![]));
    assert_eq!(extract_task_params("f()"), ("f".to_string(), vec!["".to_string()]));
}

#[test]
fn parse_blocks_and_loose_tasks() {
    let tokens = tokenize("first [30m]\n@work\n  code(x) [1h] p:critical #dev #dev after:first\n@rest\n  nap\n");
    let blocks = parse(&tokens).unwrap();
    assert_eq!(blocks.len(), 3);
    assert_eq!(blocks[0].name, "default");
    assert_eq!(blocks[0].tasks[0].name, "first");
    assert_eq!(blocks[0].tasks[0].duration.unwrap().minutes, 30);
    assert_eq!(blocks[1].name, "work");
    let code = &blocks[1].tasks[0];
    assert_eq!(code.name, "code");
    assert_eq!(code.params, vec!["x".to_string()]);
    assert_eq!(code.duration.unwrap().minutes, 60);
    assert_eq!(code.priority, Priority::Critical);
    assert_eq!(code.tags, vec!["dev".to_string()]);
    assert_eq!(code.depends_on, vec!["first".to_string()]);
    assert_eq!(blocks[2].name, "rest");
    assert_eq!(blocks[2].tasks[0].priority, Priority::Medium);
}

#[test]
fn parse_errors() {
    let bad_duration = parse(&tokenize("x [2d]\n")).unwrap_err();
    assert_eq!(bad_duration, ParseError::InvalidDuration("2d".to_string()));
    let bad_priority = parse(&tokenize("x p:urgent\n")).unwrap_err();
    assert_eq!(bad_priority, ParseError::InvalidPriority("urgent".to_string()));
    let stray = parse(&[Token::Tag("t".to_string()), Token::EOF]).unwrap_err();
    assert_eq!(stray, ParseError::UnexpectedToken("Tag(\"t\")".to_string()));
    let indent = parse(&[Token::Task("a".to_string()), Token::Indent]).unwrap_err();
    assert_eq!(indent, ParseError::UnexpectedToken("Indent".to_string()));
}

#[test]
fn priority_names_and_numbers() {
    assert_eq!(Priority::from_str("HIGH"), Ok(Priority::High));
    assert_eq!(Priority::from_str("4"), Ok(Priority::Critical));
    assert_eq!(Priority::from_str("urgent"), Err(()));
}

#[test]
fn schedule_mode_names() {
    assert_eq!(ScheduleMode::from_str("NAIVE"), Some(ScheduleMode::Naive));
    assert_eq!(ScheduleMode::from_str("Early-Bird"), Some(ScheduleMode::EarlyBird));
    assert_eq!(ScheduleMode::from_str("deepworkfirst"), Some(ScheduleMode::DeepworkFirst));
    assert_eq!(ScheduleMode::from_str("random"), None);
}

#[test]
fn config_conversions() {
    let c = Config::default();
    let m = c.to_ir_metadata().unwrap();
    assert_eq!((m.workday_start, m.workday_end), (540, 1020));
    assert_eq!(c.get_schedule_mode(), Ok(ScheduleMode::Naive));
    assert_eq!(c.get_output_format(), Ok(OutputFormat::Markdown));
    let mut bad = Config::default();
    bad.workday_end = "17h".to_string();
    assert!(matches!(bad.to_ir_metadata(), Err(ConfigError::InvalidTime(_))));
    bad.schedule_mode = "never".to_string();
    assert_eq!(bad.get_schedule_mode(), Err(ConfigError::InvalidScheduleMode("never".to_string())));
    bad.output_format = "pdf".to_string();
    assert_eq!(bad.get_output_format(), Err(ConfigError::InvalidOutputFormat("pdf".to_string())));
}

#[test]
fn times_of_day() {
    assert_eq!(parse_time("09:00"), Some(540));
    assert_eq!(parse_time("9:05"), Some(545));
    assert_eq!(parse_time("25:00"), None);
    assert_eq!(parse_time("noon"), None);
}

#[test]
fn slugs_and_file_names() {
    assert_eq!(slugify("  My Daily__Plan! "), "my-daily-plan");
    assert_eq!(slugify("Héllo World"), "héllo-world");
    assert_eq!(slugify("!!!"), "unnamed");
    assert_eq!(sanitize_output_name("Week Plan", "zbx"), "week-plan.zbx");
}

#[test]
fn durations_and_rounding() {
    assert_eq!(format_duration(45), "45m");
    assert_eq!(format_duration(180), "3h");
    assert_eq!(format_duration(135), "2h 15m");
    assert_eq!(round_to_nearest_15_min(9 * 60 + 7), 9 * 60);
    assert_eq!(round_to_nearest_15_min(9 * 60 + 8), 9 * 60 + 15);
    assert_eq!(round_to_nearest_15_min(9 * 60 + 53), 10 * 60);
}

#[test]
fn answers_while_running() {
    assert_eq!(answer_action(" q \n"), StepAction::Quit);
    assert_eq!(answer_action("s"), StepAction::Skip);
    assert_eq!(answer_action("\n"), StepAction::Start);
    assert_eq!(answer_action("quit"), StepAction::Start);
}

#[test]
fn test_compile() {
    let mut config = Config::default();
    config.schedule_mode = "early-bird".to_string();
    let p = compile("@morning\n  mail [30m] p:low\n  write [2h] p:high\n", &config).unwrap();
    assert_eq!(p.blocks.len(), 1);
    assert_eq!(p.task_map[1].scheduled_start, Some(540));
    assert_eq!(p.task_map[0].scheduled_start, Some(660));
    let order = run_order(&p);
    assert_eq!(order, vec![1, 0]);
}

#[test]
fn compile_reports_errors() {
    let config = Config::default();
    assert!(matches!(compile("x [zz]\n", &config), Err(CompileError::Parse(ParseError::InvalidDuration(_)))));
    let mut c2 = Config::default();
    c2.schedule_mode = "later".to_string();
    assert!(matches!(compile("x\n", &c2), Err(CompileError::Config(ConfigError::InvalidScheduleMode(_)))));
}

#[test]
fn compile_uses_default_deepwork_tag_when_empty() {
    let mut config = Config::default();
    config.schedule_mode = "deepwork".to_string();
    config.deepwork_tag = String::new();
    let p = compile("@day\n  write [1h] #deepwork\n  mail [30m]\n", &config).unwrap();
    assert_eq!(p.task_map[0].scheduled_start, Some(660));
    assert_eq!(p.task_map[1].scheduled_start, Some(540));
}

#[test]
fn compile_resolves_dependencies_in_listed_order() {
    let mut config = Config::default();
    config.optimization_level = 2;
    let p = compile("@w\n  ship p:critical after:docs,build\n  build p:high\n  docs p:low\n", &config).unwrap();
    assert_eq!(p.task_map[0].deps, vec![2, 1]);
    let order: Vec<String> = p.blocks[0].tasks.iter().map(|&i| p.task_map[i].name.clone()).collect();
    assert_eq!(order, vec!["docs", "build", "ship"]);
}

#[test]
fn metadata_keeps_given_time_zone() {
    let m = Config::default().metadata_with_timezone("+05:30".to_string()).unwrap();
    assert_eq!(m.timezone, "+05:30");
    assert_eq!(m.optimization_level, 1);
}
