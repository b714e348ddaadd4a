use std::collections::hash_map::DefaultHasher;
use std::hash::{Hash, Hasher};

use vstd::prelude::*;

use crate::table::Table;

verus! {

/// How a feature is rolled out: a master switch, the share of users (in
/// percent) that get it, and users who always or never get it.
#[derive(Debug, Clone)]
pub struct FeatureConfig {
    pub enabled: bool,
    pub rollout_percentage: u8,
    pub allowed_users: Vec<String>,
    pub blocked_users: Vec<String>,
}

impl Default for FeatureConfig {
    fn default() -> (r: FeatureConfig)
        ensures
            !r.enabled,
            r.rollout_percentage == 0,
            r.allowed_users@.len() == 0,
            r.blocked_users@.len() == 0,
    {
        FeatureConfig {
            enabled: false,
            rollout_percentage: 0,
            allowed_users: Vec::new(),
            blocked_users: Vec::new(),
        }
    }
}

/// The hash std's `DefaultHasher::new()` gives a `String` holding `s`.
pub uninterp spec fn default_hash(s: Seq<char>) -> u64;

/// Relies on std's `DefaultHasher` (`new`, `String`'s `Hash`, `finish`): the
/// hash of the text `user_id:feature`, which depends on that text alone since
/// `DefaultHasher::new` always starts from the same keys.
#[verifier::external_body]
fn hash_user_feature(user_id: &str, feature: &str) -> (r: u64)
    ensures
        r == default_hash(user_id@ + seq![':'] + feature@),
{
    let mut hasher = DefaultHasher::new();
    format!("{}:{}", user_id, feature).hash(&mut hasher);
    hasher.finish()
}

/// The bucket, 0 to 99, that decides whether `user` falls in a partial
/// rollout of `feature`.
pub open spec fn user_bucket(user: Seq<char>, feature: Seq<char>) -> int {
    (default_hash(user + seq![':'] + feature) % 100) as int
}

/// `user` is named in `users`.
pub open spec fn listed(users: Seq<String>, user: Seq<char>) -> bool {
    exists|i: int| 0 <= i < users.len() && #[trigger] users[i]@ == user
}

/// Whether `config` gives the feature to `user`, whose bucket is `bucket`:
/// never when switched off or when the user is blocked, always when the user
/// is allowed or the rollout is complete, else when the bucket is below the
/// rollout percentage.
pub open spec fn grants(config: FeatureConfig, user: Seq<char>, bucket: int) -> bool {
    if !config.enabled {
        false
    } else if listed(config.blocked_users@, user) {
        false
    } else if listed(config.allowed_users@, user) {
        true
    } else if config.rollout_percentage >= 100 {
        true
    } else {
        bucket < config.rollout_percentage
    }
}

/// Whether the features configured in `configs` give `feature` to `user`.
pub open spec fn enabled_for(
    configs: Map<Seq<char>, FeatureConfig>,
    feature: Seq<char>,
    user: Seq<char>,
) -> bool {
    configs.contains_key(feature) && grants(configs[feature], user, user_bucket(user, feature))
}

/// How many of `users` get `feature`.
pub open spec fn count_enabled(
    configs: Map<Seq<char>, FeatureConfig>,
    feature: Seq<char>,
    users: Seq<&str>,
) -> int
    decreases users.len(),
{
    if users.len() == 0 {
        0
    } else {
        count_enabled(configs, feature, users.drop_last()) + if enabled_for(
            configs,
            feature,
            users.last()@,
        ) {
            1int
        } else {
            0int
        }
    }
}

fn is_listed(users: &Vec<String>, user: &str) -> (r: bool)
    ensures
        r == listed(users@, user@),
{
    let u = user.to_owned();
    let mut i: usize = 0;
    while i < users.len()
        invariant
            i <= users@.len(),
            u@ == user@,
            forall|j: int| 0 <= j < i ==> #[trigger] users@[j]@ != user@,
        decreases users@.len() - i,
    {
        if users[i] == u {
            return true;
        }
        i = i + 1;
    }
    false
}

/// Decides whether `config` gives its feature to `user_id`, given the user's
/// bucket for that feature.
pub fn config_grants(config: &FeatureConfig, user_id: &str, bucket: u8) -> (r: bool)
    ensures
        r == grants(*config, user_id@, bucket as int),
{
    if !config.enabled {
        return false;
    }
    if is_listed(&config.blocked_users, user_id) {
        return false;
    }
    if is_listed(&config.allowed_users, user_id) {
        return true;
    }
    if config.rollout_percentage >= 100 {
        return true;
    }
    bucket < config.rollout_percentage
}

/// Features rolled out to users by name and by a stable per-user bucket.
pub struct FeatureFlagSystem {
    configs: Table<FeatureConfig>,
}

impl View for FeatureFlagSystem {
    type V = Map<Seq<char>, FeatureConfig>;

    closed spec fn view(&self) -> Map<Seq<char>, FeatureConfig> {
        self.configs@
    }
}

impl FeatureFlagSystem {
    pub closed spec fn wf(&self) -> bool {
        self.configs.wf()
    }

    pub fn new() -> (r: FeatureFlagSystem)
        ensures
            r.wf(),
            r@ == Map::<Seq<char>, FeatureConfig>::empty(),
    {
        FeatureFlagSystem { configs: Table::new() }
    }

    /// Sets how `feature` is rolled out.
    pub fn configure(&mut self, feature: &str, config: FeatureConfig)
        requires
            old(self).wf(),
        ensures
            final(self).wf(),
            final(self)@ == old(self)@.insert(feature@, config),
    {
        self.configs.insert(feature, config);
    }

    /// An unknown feature is off for everyone.
    pub fn is_enabled_for_user(&self, feature: &str, user_id: &str) -> (r: bool)
        requires
            self.wf(),
        ensures
            r == enabled_for(self@, feature@, user_id@),
    {
        match self.configs.get(feature) {
            Some(config) => {
                let bucket = self.get_user_bucket(user_id, feature);
                config_grants(config, user_id, bucket)
            },
            None => false,
        }
    }

    fn get_user_bucket(&self, user_id: &str, feature: &str) -> (r: u8)
        ensures
            r == user_bucket(user_id@, feature@),
    {
        (hash_user_feature(user_id, feature) % 100) as u8
    }

    /// Switches `feature` on for `percentage` percent of users (at most all of
    /// them), keeping its lists of allowed and blocked users; a new feature
    /// starts with empty lists.
    pub fn enable_for_percentage(&mut self, feature: &str, percentage: u8)
        requires
            old(self).wf(),
        ensures
            final(self).wf(),
            final(self)@ == old(self)@.insert(feature@, final(self)@[feature@]),
            final(self)@[feature@].enabled,
            final(self)@[feature@].rollout_percentage == if percentage <= 100 {
                percentage
            } else {
                100
            },
            old(self)@.contains_key(feature@) ==> {
                &&& final(self)@[feature@].allowed_users == old(self)@[feature@].allowed_users
                &&& final(self)@[feature@].blocked_users == old(self)@[feature@].blocked_users
            },
            !old(self)@.contains_key(feature@) ==> {
                &&& final(self)@[feature@].allowed_users@.len() == 0
                &&& final(self)@[feature@].blocked_users@.len() == 0
            },
    {
        let mut config = match self.configs.take(feature) {
            Some(c) => c,
            None => FeatureConfig::default(),
        };
        config.enabled = true;
        config.rollout_percentage = if percentage <= 100 {
            percentage
        } else {
            100
        };
        self.configs.insert(feature, config);
        proof {
            assert(self@ =~= old(self)@.insert(feature@, self@[feature@]));
        }
    }

    /// How many of `all_users` get `feature`, and how many users were asked
    /// about.
    pub fn get_rollout_stats(&self, feature: &str, all_users: &[&str]) -> (r: (usize, usize))
        requires
            self.wf(),
        ensures
            r.0 == count_enabled(self@, feature@, all_users@),
            r.1 == all_users@.len(),
    {
        let mut count: usize = 0;
        let mut i: usize = 0;
        while i < all_users.len()
            invariant
                i <= all_users@.len(),
                self.wf(),
                count == count_enabled(self@, feature@, all_users@.take(i as int)),
                count <= i,
            decreases all_users@.len() - i,
        {
            let on = self.is_enabled_for_user(feature, all_users[i]);
            proof {
                assert(all_users@.take(i + 1).drop_last() =~= all_users@.take(i as int));
            }
            if on {
                count = count + 1;
            }
            i = i + 1;
        }
        proof {
            assert(all_users@.take(i as int) =~= all_users@);
        }
        (count, all_users.len())
    }
}

} // verus!
