use std::path::PathBuf;
use wordstat::analysis::AnalyzeSource;
use wordstat::sources::{plan_content, plan_walk, walk_depth, Step, WalkEntry};

fn told(plan: &Vec<Step>) -> Vec<String> {
    plan.iter()
        .map(|step| match step {
            Step::Analyze(AnalyzeSource::Content(content)) => format!("text {}", content),
            Step::Analyze(AnalyzeSource::Path(path)) => format!("file {}", path.display()),
            Step::Message(message) => format!("message {}", message),
            Step::Increment => "increment".to_string(),
        })
        .collect()
}

#[test]
fn walk_goes_one_level_deep_unless_recursive() {
    assert_eq!(walk_depth(false), 1);
    assert_eq!(walk_depth(true), usize::MAX);
}

#[test]
fn text_is_one_unit_of_work() {
    let plan = plan_content("some text".to_string());
    assert_eq!(told(&plan), vec!["text some text", "increment"]);
}

#[test]
fn walk_submits_files_and_reports_what_it_cannot_read() {
    let plan = plan_walk(vec![
        WalkEntry::Other,
        WalkEntry::File(PathBuf::from("dir/a.txt")),
        WalkEntry::Unreadable("dir/locked: permission denied".to_string()),
        WalkEntry::File(PathBuf::from("dir/b.txt")),
        WalkEntry::Other,
    ]);
    assert_eq!(
        told(&plan),
        vec![
            "file dir/a.txt",
            "message dir/locked: permission denied",
            "file dir/b.txt",
            "increment",
        ]
    );
}

#[test]
fn every_source_is_signalled_once() {
    let empty = plan_walk(Vec::new());
    assert_eq!(told(&empty), vec!["increment"]);
    let only_directories = plan_walk(vec![WalkEntry::Other, WalkEntry::Other]);
    assert_eq!(told(&only_directories), vec!["increment"]);
    let many = plan_walk((0..50).map(|i| WalkEntry::File(PathBuf::from(format!("f{}", i)))).collect());
    assert_eq!(many.len(), 51);
    assert_eq!(many.iter().filter(|step| matches!(step, Step::Increment)).count(), 1);
    assert!(matches!(many.last(), Some(Step::Increment)));
}
