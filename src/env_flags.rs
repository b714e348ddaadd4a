use vstd::prelude::*;

use crate::table::Table;

verus! {

/// The deployment a process runs in.
#[derive(Debug, Clone, Copy, PartialEq, Eq, Structural)]
pub enum Environment {
    Development,
    Staging,
    Production,
}

/// Text equality, by value.
fn same_text(a: &str, b: &str) -> (r: bool)
    ensures
        r == (a@ == b@),
{
    a.to_owned() == b.to_owned()
}

/// The environment a setting names: "production" or "prod", "staging" or
/// "stage"; anything else means development.
pub open spec fn environment_named(name: Seq<char>) -> Environment {
    if name == "production"@ || name == "prod"@ {
        Environment::Production
    } else if name == "staging"@ || name == "stage"@ {
        Environment::Staging
    } else {
        Environment::Development
    }
}

/// Whether `feature` is on by default in environment `e`. Names not listed
/// here are off everywhere.
pub open spec fn env_default(feature: Seq<char>, e: Environment) -> bool {
    if feature == "debug_logging"@ {
        e == Environment::Development
    } else if feature == "verbose_errors"@ {
        e != Environment::Production
    } else if feature == "paper_trading"@ {
        e != Environment::Production
    } else if feature == "live_trading"@ {
        e == Environment::Production
    } else if feature == "relaxed_risk_limits"@ {
        e == Environment::Development
    } else if feature == "query_caching"@ {
        e != Environment::Development
    } else if feature == "experimental_algorithm"@ {
        e == Environment::Development
    } else {
        false
    }
}

impl Environment {
    /// Reads an environment setting such as the value of a deployment
    /// variable.
    pub fn from_setting(value: &str) -> (r: Environment)
        ensures
            r == environment_named(value@),
    {
        proof {
            reveal_strlit("production");
            reveal_strlit("prod");
            reveal_strlit("staging");
            reveal_strlit("stage");
        }
        if same_text(value, "production") || same_text(value, "prod") {
            Environment::Production
        } else if same_text(value, "staging") || same_text(value, "stage") {
            Environment::Staging
        } else {
            Environment::Development
        }
    }
}

/// Feature switches with defaults that depend on the environment, and
/// overrides that take precedence over them.
pub struct EnvFeatureFlags {
    environment: Environment,
    overrides: Table<bool>,
}

impl EnvFeatureFlags {
    pub closed spec fn wf(&self) -> bool {
        self.overrides.wf()
    }

    pub closed spec fn spec_environment(&self) -> Environment {
        self.environment
    }

    /// The overrides set so far.
    pub closed spec fn spec_overrides(&self) -> Map<Seq<char>, bool> {
        self.overrides@
    }

    pub fn with_environment(environment: Environment) -> (r: EnvFeatureFlags)
        ensures
            r.wf(),
            r.spec_environment() == environment,
            r.spec_overrides() == Map::<Seq<char>, bool>::empty(),
    {
        EnvFeatureFlags { environment, overrides: Table::new() }
    }

    /// Forces `feature` on or off, whatever the environment.
    pub fn set_override(&mut self, feature: &str, enabled: bool)
        requires
            old(self).wf(),
        ensures
            final(self).wf(),
            final(self).spec_environment() == old(self).spec_environment(),
            final(self).spec_overrides() == old(self).spec_overrides().insert(feature@, enabled),
    {
        self.overrides.insert(feature, enabled);
    }

    /// The override for `feature` if there is one, else its default in this
    /// environment.
    pub fn is_enabled(&self, feature: &str) -> (r: bool)
        requires
            self.wf(),
        ensures
            r == if self.spec_overrides().contains_key(feature@) {
                self.spec_overrides()[feature@]
            } else {
                env_default(feature@, self.spec_environment())
            },
    {
        if let Some(enabled) = self.overrides.get(feature) {
            return *enabled;
        }
        proof {
            reveal_strlit("debug_logging");
            reveal_strlit("verbose_errors");
            reveal_strlit("paper_trading");
            reveal_strlit("live_trading");
            reveal_strlit("relaxed_risk_limits");
            reveal_strlit("query_caching");
            reveal_strlit("experimental_algorithm");
        }
        let e = self.environment;
        if same_text(feature, "debug_logging") {
            e == Environment::Development
        } else if same_text(feature, "verbose_errors") {
            e != Environment::Production
        } else if same_text(feature, "paper_trading") {
            e != Environment::Production
        } else if same_text(feature, "live_trading") {
            e == Environment::Production
        } else if same_text(feature, "relaxed_risk_limits") {
            e == Environment::Development
        } else if same_text(feature, "query_caching") {
            e != Environment::Development
        } else if same_text(feature, "experimental_algorithm") {
            e == Environment::Development
        } else {
            false
        }
    }

    pub fn environment(&self) -> (r: Environment)
        ensures
            r == self.spec_environment(),
    {
        self.environment
    }
}

} // verus!
