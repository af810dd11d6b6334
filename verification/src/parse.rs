//! The shape of a workflow file as the YAML parser reads it, before any
//! GitHub Actions meaning is given to it. Maps are lists of distinct keys
//! with their values; unknown keys are kept in `extra`.

use vstd::prelude::*;

use crate::yaml::Yaml;

verus! {

/// A whole workflow file.
#[derive(Debug)]
pub struct RawWorkflow {
    pub name: Option<String>,
    pub on: Yaml,
    pub concurrency: Option<Yaml>,
    pub permissions: Option<Yaml>,
    pub defaults: Option<Yaml>,
    pub jobs: Vec<(String, RawJob)>,
    pub extra: Vec<(String, Yaml)>,
}

/// One job.
#[derive(Debug)]
pub struct RawJob {
    pub runs_on: Option<Yaml>,
    /// `needs`, a single name or a list, as a list.
    pub needs: Vec<String>,
    pub condition: Option<String>,
    pub outputs: Vec<(String, String)>,
    pub steps: Vec<RawStep>,
    pub env: Vec<(String, String)>,
    pub concurrency: Option<Yaml>,
    pub services: Vec<(String, Yaml)>,
    pub permissions: Option<Yaml>,
    pub environment: Option<Yaml>,
    pub defaults: Option<Yaml>,
    pub strategy: Option<Yaml>,
    /// The text the YAML writer gives `strategy`.
    pub strategy_text: Option<String>,
    /// A reusable workflow called by the job.
    pub uses: Option<String>,
    pub with_inputs: Vec<(String, Yaml)>,
    pub extra: Vec<(String, Yaml)>,
}

/// One step.
#[derive(Debug)]
pub struct RawStep {
    pub name: Option<String>,
    pub id: Option<String>,
    pub uses: Option<String>,
    pub run: Option<String>,
    pub shell: Option<String>,
    pub working_directory: Option<String>,
    pub condition: Option<String>,
    pub with_inputs: Vec<(String, Yaml)>,
    pub env: Vec<(String, String)>,
    pub extra: Vec<(String, Yaml)>,
}

} // verus!
