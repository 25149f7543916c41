//! The tool's configuration: source directories, globally enabled skills
//! and their target directories, per-project overrides, and the ignore list
//! the check run consults. Loading this from a file is the callers' work;
//! the checks read it as plain values.

use vstd::prelude::*;

verus! {

/// Source directories configuration.
#[derive(Debug, Clone)]
pub struct Sources {
    /// Directories to search for skills, in priority order.
    pub skills: Vec<String>,
}

/// Global skill activation.
#[derive(Debug, Clone)]
pub struct Global {
    /// Target directories where skills are linked.
    pub targets: Vec<String>,
    /// Skills enabled globally.
    pub skills: Vec<String>,
}

/// Per-project skill configuration.
#[derive(Debug, Clone)]
pub struct Project {
    /// Skills enabled for this project.
    pub skills: Vec<String>,
    /// Whether the project also takes the global skills.
    pub inherit: bool,
}

/// Options of the check run.
#[derive(Debug, Clone)]
pub struct CheckConfig {
    /// Suppression keys of findings to ignore.
    pub ignore: Vec<String>,
}

impl Default for CheckConfig {
    /// An empty ignore list.
    fn default() -> (r: CheckConfig)
        ensures
            r.ignore@.len() == 0,
    {
        CheckConfig { ignore: Vec::new() }
    }
}

/// The complete configuration.
#[derive(Debug, Clone)]
pub struct Config {
    pub sources: Sources,
    pub global: Global,
    /// Per-project overrides, keyed by project path.
    pub projects: Vec<(String, Project)>,
    pub check: CheckConfig,
}

/// The mathematical value of a [`Project`].
pub ghost struct ProjectV {
    pub skills: Seq<Seq<char>>,
    pub inherit: bool,
}

impl View for Project {
    type V = ProjectV;

    open spec fn view(&self) -> ProjectV {
        ProjectV { skills: self.skills.deep_view(), inherit: self.inherit }
    }
}

impl DeepView for Project {
    type V = ProjectV;

    open spec fn deep_view(&self) -> ProjectV {
        self.view()
    }
}

/// The mathematical value of a [`Config`].
pub ghost struct ConfigV {
    pub source_dirs: Seq<Seq<char>>,
    pub global_targets: Seq<Seq<char>>,
    pub global_skills: Seq<Seq<char>>,
    pub projects: Seq<(Seq<char>, ProjectV)>,
    pub ignore: Seq<Seq<char>>,
}

impl View for Config {
    type V = ConfigV;

    open spec fn view(&self) -> ConfigV {
        ConfigV {
            source_dirs: self.sources.skills.deep_view(),
            global_targets: self.global.targets.deep_view(),
            global_skills: self.global.skills.deep_view(),
            projects: self.projects.deep_view(),
            ignore: self.check.ignore.deep_view(),
        }
    }
}

impl DeepView for Config {
    type V = ConfigV;

    open spec fn deep_view(&self) -> ConfigV {
        self.view()
    }
}

} // verus!
