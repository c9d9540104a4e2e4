use tidyup::paths::join_path;
use tidyup::paths::move_dest;
use tidyup::plan::move_step;
use tidyup::plan::plan_moves;
use tidyup::plan::DestProbe;
use tidyup::plan::MoveStep;
use tidyup::scan::group_by_extension;

#[test]
fn test_join_path_value() {
    assert_eq!(join_path("/r", "pdf"), "/r/pdf");
    assert_eq!(join_path("", "pdf"), "/pdf");
}

#[test]
fn test_move_dest_value() {
    assert_eq!(move_dest("/r", "pdf", "/r/report.pdf"), "/r/pdf/report.pdf");
    assert_eq!(move_dest("/r", "gz", "/r/archive.tar.gz"), "/r/gz/archive.tar.gz");
}

#[test]
fn test_plan_moves_pairs() {
    let files: Vec<String> = vec![
        "/r/report.pdf".to_string(),
        "/r/notes.txt".to_string(),
        "/r/paper.pdf".to_string(),
    ];
    let (groups, skipped) = group_by_extension(&files);
    assert!(skipped.is_empty());
    let plan = plan_moves("/r", &groups);
    assert_eq!(
        plan,
        vec![
            ("/r/report.pdf".to_string(), "/r/pdf/report.pdf".to_string()),
            ("/r/paper.pdf".to_string(), "/r/pdf/paper.pdf".to_string()),
            ("/r/notes.txt".to_string(), "/r/txt/notes.txt".to_string()),
        ]
    );
}

#[test]
fn test_plan_skips_extensionless() {
    let files: Vec<String> = vec!["/r/README".to_string(), "/r/a.md".to_string()];
    let (groups, skipped) = group_by_extension(&files);
    assert_eq!(skipped, vec!["/r/README".to_string()]);
    let plan = plan_moves("/r", &groups);
    assert_eq!(plan, vec![("/r/a.md".to_string(), "/r/md/a.md".to_string())]);
}

#[test]
fn test_plan_empty_groups() {
    let groups: Vec<(String, Vec<String>)> = Vec::new();
    let plan = plan_moves("/r", &groups);
    assert!(plan.is_empty());
}

#[test]
fn test_existing_destination_fails_move() {
    // A move whose destination is already occupied is reported as failed and
    // never renamed, so the occupant and the source both stay in place.
    let step = move_step(DestProbe::Exists);
    assert_eq!(step, MoveStep::FailExists);
    assert_ne!(step, MoveStep::DoRename);
}

#[test]
fn test_free_destination_is_renamed() {
    assert_eq!(move_step(DestProbe::Missing), MoveStep::DoRename);
}
