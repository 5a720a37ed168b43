use zero_inbox::ast::{Block, Priority, Task, TaskDuration};
use zero_inbox::ir::{to_ir, IRMetadata, IRProgram, IRTask};
use zero_inbox::optimizer::optimize;
use zero_inbox::scheduler::{create_scheduler, DeepworkScheduler, EarlyBirdScheduler, NaiveScheduler, ScheduleMode};

fn task(name: &str, priority: Priority, minutes: u64) -> Task {
    Task::new(name.to_string())
        .with_priority(priority)
        .with_duration(Some(TaskDuration::from_minutes(minutes)))
}

fn tagged(name: &str, priority: Priority, minutes: u64, tags: &[&str]) -> Task {
    task(name, priority, minutes).with_tags(tags.iter().map(|t| t.to_string()).collect())
}

fn after(t: Task, deps: &[&str]) -> Task {
    t.with_dependencies(deps.iter().map(|d| d.to_string()).collect())
}

fn metadata(start: u64, end: u64, level: u8) -> IRMetadata {
    IRMetadata {
        timezone: "+00:00".to_string(),
        workday_start: start,
        workday_end: end,
        max_parallel: 1,
        focus_tags: Vec::new(),
        optimization_level: level,
    }
}

fn program(tasks: Vec<Task>, meta: IRMetadata) -> IRProgram {
    let block = Block::new("day".to_string()).with_tasks(tasks);
    to_ir(&[block], meta)
}

fn names(p: &IRProgram, b: usize) -> Vec<String> {
    p.blocks[b].tasks.iter().map(|&id| p.task_map[id].name.clone()).collect()
}

fn times(p: &IRProgram, id: usize) -> (Option<u64>, Option<u64>) {
    (p.task_map[id].scheduled_start, p.task_map[id].scheduled_end)
}

#[test]
fn lowering_assigns_sequential_ids_and_resolves_names() {
    let a = Block::new("am".to_string()).with_tasks(vec![
        task("mail", Priority::Low, 10),
        after(task("write", Priority::High, 60), &["mail", "missing"]),
    ]);
    let b = Block::new("pm".to_string()).with_tasks(vec![after(task("call", Priority::Medium, 5), &["mail"])]);
    let p = to_ir(&[a, b], metadata(540, 1020, 1));
    assert_eq!(p.blocks[0].tasks, vec![0, 1]);
    assert_eq!(p.blocks[1].tasks, vec![2]);
    assert_eq!(p.task_map[1].deps, vec![0]);
    assert!(p.task_map[2].deps.is_empty());
    assert_eq!(p.task_map[2].block, "pm");
    assert_eq!(p.get_task(1).unwrap().name, "write");
    assert!(p.get_task(3).is_none());
    assert_eq!(p.total_duration(), 75);
    assert_eq!(p.all_tasks().len(), 3);
}

#[test]
fn level_one_sorts_by_priority_then_duration() {
    let mut p = program(
        vec![task("A", Priority::High, 30), task("B", Priority::High, 10), task("C", Priority::Low, 5)],
        metadata(540, 1020, 1),
    );
    optimize(&mut p);
    assert_eq!(names(&p, 0), vec!["B", "A", "C"]);
}

#[test]
fn level_one_keeps_ties_in_order() {
    let mut p = program(
        vec![task("x", Priority::Medium, 10), task("y", Priority::Critical, 10), task("z", Priority::Medium, 10)],
        metadata(540, 1020, 1),
    );
    optimize(&mut p);
    assert_eq!(names(&p, 0), vec!["y", "x", "z"]);
}

#[test]
fn level_zero_is_identity() {
    let mut p = program(
        vec![task("C", Priority::Low, 5), task("A", Priority::High, 30), task("B", Priority::High, 10)],
        metadata(540, 1020, 0),
    );
    optimize(&mut p);
    assert_eq!(names(&p, 0), vec!["C", "A", "B"]);
}

#[test]
fn level_two_puts_dependencies_first() {
    let mut p = program(
        vec![
            after(task("deploy", Priority::Critical, 10), &["test"]),
            after(task("test", Priority::High, 10), &["build"]),
            task("build", Priority::Low, 10),
        ],
        metadata(540, 1020, 2),
    );
    optimize(&mut p);
    assert_eq!(names(&p, 0), vec!["build", "test", "deploy"]);
}

#[test]
fn level_two_survives_a_cycle() {
    let mut p = program(
        vec![
            after(task("a", Priority::High, 10), &["b"]),
            after(task("b", Priority::High, 20), &["a"]),
            task("c", Priority::Low, 5),
        ],
        metadata(540, 1020, 2),
    );
    optimize(&mut p);
    let mut got = names(&p, 0);
    assert_eq!(got, vec!["b", "a", "c"]);
    got.sort();
    assert_eq!(got, vec!["a", "b", "c"]);
}

#[test]
fn level_three_groups_by_tag() {
    let mut p = program(
        vec![
            tagged("w1", Priority::Low, 10, &["writing"]),
            tagged("m1", Priority::Critical, 10, &["mail"]),
            task("plain", Priority::High, 10),
            tagged("w2", Priority::High, 10, &["writing", "mail"]),
        ],
        metadata(540, 1020, 3),
    );
    optimize(&mut p);
    // level-1 order: m1, plain, w2, w1; tags first seen: mail, writing
    assert_eq!(names(&p, 0), vec!["m1", "w2", "w1", "plain"]);
}

#[test]
fn level_three_uses_focus_tags() {
    let mut meta = metadata(540, 1020, 3);
    meta.focus_tags = vec!["writing".to_string()];
    let mut p = program(
        vec![
            tagged("m1", Priority::Critical, 10, &["mail"]),
            tagged("w1", Priority::Low, 10, &["writing"]),
        ],
        meta,
    );
    optimize(&mut p);
    assert_eq!(names(&p, 0), vec!["w1", "m1"]);
}

#[test]
fn naive_schedules_back_to_back() {
    let mut p = program(vec![task("a", Priority::Medium, 30), task("b", Priority::Medium, 120)], metadata(540, 1020, 0));
    NaiveScheduler.schedule(&mut p);
    assert_eq!(times(&p, 0), (Some(540), Some(570)));
    assert_eq!(times(&p, 1), (Some(570), Some(690)));
}

#[test]
fn naive_leaves_overflow_unscheduled() {
    let mut p = program(vec![task("a", Priority::Medium, 30)], metadata(540, 560, 0));
    NaiveScheduler.schedule(&mut p);
    assert_eq!(times(&p, 0), (None, None));
}

#[test]
fn a_miss_does_not_move_the_cursor() {
    let mut p = program(
        vec![task("a", Priority::Medium, 30), task("b", Priority::Medium, 30), task("c", Priority::Medium, 10)],
        metadata(540, 560, 0),
    );
    NaiveScheduler.schedule(&mut p);
    assert_eq!(times(&p, 0), (None, None));
    assert_eq!(times(&p, 1), (None, None));
    // a shorter task still fits at the unmoved cursor
    assert_eq!(times(&p, 2), (Some(540), Some(550)));
}

#[test]
fn untimed_task_takes_no_time() {
    let mut p = program(vec![Task::new("think".to_string()), task("b", Priority::Medium, 15)], metadata(540, 600, 0));
    NaiveScheduler.schedule(&mut p);
    assert_eq!(times(&p, 0), (Some(540), Some(540)));
    assert_eq!(times(&p, 1), (Some(540), Some(555)));
}

#[test]
fn early_bird_orders_all_blocks_by_priority() {
    let a = Block::new("am".to_string()).with_tasks(vec![task("low", Priority::Low, 10)]);
    let b = Block::new("pm".to_string()).with_tasks(vec![task("crit", Priority::Critical, 20), task("med", Priority::Medium, 5)]);
    let mut p = to_ir(&[a, b], metadata(540, 1020, 0));
    EarlyBirdScheduler.schedule(&mut p);
    assert_eq!(times(&p, 1), (Some(540), Some(560)));
    assert_eq!(times(&p, 2), (Some(560), Some(565)));
    assert_eq!(times(&p, 0), (Some(565), Some(575)));
}

#[test]
fn deepwork_goes_to_the_middle_of_the_day() {
    let mut p = program(
        vec![
            task("mail", Priority::High, 60),
            tagged("write", Priority::Medium, 90, &["deepwork"]),
            task("call", Priority::Low, 90),
            task("admin", Priority::Low, 60),
        ],
        metadata(540, 1020, 0),
    );
    DeepworkScheduler::new("deepwork".to_string()).schedule(&mut p);
    // window 09:00-17:00: deepwork from 11:00 to 15:00
    assert_eq!(times(&p, 1), (Some(660), Some(750)));
    assert_eq!(times(&p, 0), (Some(540), Some(600)));
    // 10:00 + 90m = 11:30 fits the day; then the cursor jumps to 15:00
    assert_eq!(times(&p, 2), (Some(600), Some(690)));
    assert_eq!(times(&p, 3), (Some(900), Some(960)));
}

#[test]
fn deepwork_task_too_long_for_the_window() {
    let mut p = program(vec![tagged("big", Priority::High, 300, &["focus"])], metadata(540, 1020, 0));
    let s = create_scheduler(ScheduleMode::DeepworkFirst, Some("focus".to_string()));
    s.schedule(&mut p);
    assert_eq!(times(&p, 0), (None, None));
}

#[test]
fn scheduled_times_read_the_same_through_blocks() {
    let mut p = program(vec![task("a", Priority::Medium, 30), task("b", Priority::High, 20)], metadata(540, 1020, 1));
    optimize(&mut p);
    create_scheduler(ScheduleMode::EarlyBird, None).schedule(&mut p);
    for block in &p.blocks {
        for &id in &block.tasks {
            let via_id = p.get_task(id).unwrap();
            assert_eq!(via_id.id, id);
            if let (Some(s), Some(e)) = (via_id.scheduled_start, via_id.scheduled_end) {
                assert_eq!(e - s, via_id.duration_minutes());
            }
        }
    }
}

#[test]
fn filter_by_tag_lists_tagged_tasks() {
    let p = program(
        vec![tagged("a", Priority::Low, 1, &["x"]), task("b", Priority::Low, 1), tagged("c", Priority::Low, 1, &["y", "x"])],
        metadata(540, 1020, 0),
    );
    let found: Vec<String> = p.filter_by_tag("x").iter().map(|t| t.name.clone()).collect();
    assert_eq!(found, vec!["a", "c"]);
}

#[test]
fn display_name_joins_parameters() {
    let p = program(vec![task("write", Priority::Low, 1).with_params(vec!["report".to_string(), "urgent".to_string()])], metadata(540, 1020, 0));
    assert_eq!(p.task_map[0].display_name(), "write(report, urgent)");
    let q = program(vec![task("rest", Priority::Low, 1)], metadata(540, 1020, 0));
    assert_eq!(q.task_map[0].display_name(), "rest");
}

#[test]
fn ir_task_from_parsed_task() {
    let t = after(tagged("code", Priority::High, 90, &["dev"]), &["plan"]);
    let ir = IRTask::new(7, &t, "pm");
    assert_eq!(ir.id, 7);
    assert_eq!(ir.block, "pm");
    assert_eq!(ir.depends_on, vec!["plan".to_string()]);
    assert!(ir.deps.is_empty());
    let placed = ir.with_scheduled_time(600);
    assert_eq!((placed.scheduled_start, placed.scheduled_end), (Some(600), Some(690)));
    assert!(placed.has_tag("dev"));
    assert!(!placed.has_tag("ops"));
}

#[test]
fn level_two_visits_dependencies_in_listed_order() {
    let mut p = program(
        vec![
            after(task("ship", Priority::Critical, 10), &["docs", "build"]),
            task("build", Priority::High, 10),
            task("docs", Priority::Low, 10),
            task("idle", Priority::Low, 1),
        ],
        metadata(540, 1020, 2),
    );
    optimize(&mut p);
    // level-1 order: ship, build, idle, docs; ship's visit reaches docs first
    assert_eq!(names(&p, 0), vec!["docs", "build", "ship", "idle"]);
}
