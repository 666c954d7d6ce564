//! Launchers that deploy and run a query's stages on a cloud platform.
//! Neither platform is supported yet: each says so with an error.
use crate::descriptor::StageDescriptor;
use vstd::prelude::*;

verus! {

/// Why a launcher could not act.
#[derive(PartialEq, Eq, Structural, Clone, Copy, Debug)]
pub enum LaunchError {
    /// The launcher does not support this operation.
    Unsupported,
}

/// Deploys and executes a query's stages on AWS Lambda.
pub struct AwsLambdaLauncher {}

/// Deploys and executes a query's stages on GCP Functions.
pub struct GCPLauncher {}

impl AwsLambdaLauncher {
    pub fn new(_query: &Vec<StageDescriptor>) -> (r: AwsLambdaLauncher) {
        AwsLambdaLauncher {  }
    }

    pub fn deploy(&self) -> (r: Result<(), LaunchError>)
        ensures
            r == Err::<(), LaunchError>(LaunchError::Unsupported),
    {
        Err(LaunchError::Unsupported)
    }

    pub fn execute(&self) -> (r: Result<(), LaunchError>)
        ensures
            r == Err::<(), LaunchError>(LaunchError::Unsupported),
    {
        Err(LaunchError::Unsupported)
    }
}

impl GCPLauncher {
    pub fn new(_query: &Vec<StageDescriptor>) -> (r: GCPLauncher) {
        GCPLauncher {  }
    }

    pub fn deploy(&self) -> (r: Result<(), LaunchError>)
        ensures
            r == Err::<(), LaunchError>(LaunchError::Unsupported),
    {
        Err(LaunchError::Unsupported)
    }

    pub fn execute(&self) -> (r: Result<(), LaunchError>)
        ensures
            r == Err::<(), LaunchError>(LaunchError::Unsupported),
    {
        Err(LaunchError::Unsupported)
    }
}

} // verus!
