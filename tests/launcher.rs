use flock_core::launcher::{AwsLambdaLauncher, GCPLauncher, LaunchError};

#[test]
fn launchers_report_unsupported() {
    let aws = AwsLambdaLauncher::new(&vec![]);
    assert_eq!(aws.deploy(), Err(LaunchError::Unsupported));
    assert_eq!(aws.execute(), Err(LaunchError::Unsupported));
    let gcp = GCPLauncher::new(&vec![]);
    assert_eq!(gcp.deploy(), Err(LaunchError::Unsupported));
    assert_eq!(gcp.execute(), Err(LaunchError::Unsupported));
}
