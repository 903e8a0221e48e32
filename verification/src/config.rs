//! Settings for the application's configuration collaborator.
//!
//! The container core itself never reads configuration; it only
//! describes where the embedding application should load it from.  The
//! loading itself (files, profiles, environment) happens outside this
//! library.

use vstd::prelude::*;

verus! {

/// Where the application's configuration lives: the file name, the
/// directory it is searched in, and the profile to select.
#[derive(Debug, Clone)]
pub struct AppConfigLoader<'a> {
    pub name: &'a str,
    pub dir: &'a str,
    pub profile: &'a str,
}

impl<'a> AppConfigLoader<'a> {
    /// The default settings: a file called `app`, in the current
    /// directory, under the `prod` profile.
    pub fn new() -> (r: Self)
        ensures
            r.name@ == "app"@,
            r.dir@ == "."@,
            r.profile@ == "prod"@,
    {
        Self { name: "app", dir: ".", profile: "prod" }
    }

    /// Replaces the configuration file name.
    pub fn name(self, name: &'a str) -> (r: Self)
        ensures
            r.name == name,
            r.dir == self.dir,
            r.profile == self.profile,
    {
        Self { name, ..self }
    }

    /// Replaces the directory the configuration is searched in.
    pub fn dir(self, dir: &'a str) -> (r: Self)
        ensures
            r.dir == dir,
            r.name == self.name,
            r.profile == self.profile,
    {
        Self { dir, ..self }
    }

    /// Replaces the configuration profile.
    pub fn profile(self, profile: &'a str) -> (r: Self)
        ensures
            r.profile == profile,
            r.name == self.name,
            r.dir == self.dir,
    {
        Self { profile, ..self }
    }
}

} // verus!
