use tidyup::provision::provision_step;
use tidyup::provision::DirProbe;
use tidyup::provision::ProvisionStep;

#[test]
fn test_existing_folder_is_tolerated() {
    // A pre-existing extension folder, whatever it holds, is only reported:
    // it is neither an error nor touched.
    assert_eq!(provision_step(DirProbe::IsDir), ProvisionStep::ReportExists);
}

#[test]
fn test_second_run_reports_already_exists() {
    // After a run every extension folder exists, so a re-run's provisioning
    // decision for each of them is to report, never to fail or create.
    let again = provision_step(DirProbe::IsDir);
    assert_eq!(again, ProvisionStep::ReportExists);
    assert_ne!(again, ProvisionStep::FailCollision);
    assert_ne!(again, ProvisionStep::CreateNew);
}

#[test]
fn test_missing_folder_is_created() {
    assert_eq!(provision_step(DirProbe::Missing), ProvisionStep::CreateNew);
}

#[test]
fn test_name_collision_fails() {
    assert_eq!(provision_step(DirProbe::IsOther), ProvisionStep::FailCollision);
}
