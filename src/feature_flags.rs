use vstd::prelude::*;

use crate::table::Table;

verus! {

/// Named on/off switches.
pub struct FeatureFlags {
    flags: Table<bool>,
}

/// The switches listed in `config`, a later entry for a name overriding an
/// earlier one.
pub open spec fn config_map(config: Seq<(String, bool)>) -> Map<Seq<char>, bool>
    decreases config.len(),
{
    if config.len() == 0 {
        Map::empty()
    } else {
        config_map(config.drop_last()).insert(config.last().0@, config.last().1)
    }
}

impl View for FeatureFlags {
    type V = Map<Seq<char>, bool>;

    closed spec fn view(&self) -> Map<Seq<char>, bool> {
        self.flags@
    }
}

impl FeatureFlags {
    pub closed spec fn wf(&self) -> bool {
        self.flags.wf()
    }

    pub fn new() -> (r: FeatureFlags)
        ensures
            r.wf(),
            r@ == Map::<Seq<char>, bool>::empty(),
    {
        FeatureFlags { flags: Table::new() }
    }

    /// Sets the switch `feature`.
    pub fn set(&mut self, feature: &str, enabled: bool)
        requires
            old(self).wf(),
        ensures
            final(self).wf(),
            final(self)@ == old(self)@.insert(feature@, enabled),
    {
        self.flags.insert(feature, enabled);
    }

    /// A switch that was never set is off.
    pub fn is_enabled(&self, feature: &str) -> (r: bool)
        requires
            self.wf(),
        ensures
            r == (self@.contains_key(feature@) && self@[feature@]),
    {
        match self.flags.get(feature) {
            Some(v) => *v,
            None => false,
        }
    }

    /// Switches set from a list of names and values, in list order.
    pub fn load_from_config(config: &[(String, bool)]) -> (r: FeatureFlags)
        ensures
            r.wf(),
            r@ == config_map(config@),
    {
        let mut flags = FeatureFlags::new();
        let mut i: usize = 0;
        while i < config.len()
            invariant
                i <= config@.len(),
                flags.wf(),
                flags@ == config_map(config@.take(i as int)),
            decreases config@.len() - i,
        {
            flags.set(config[i].0.as_str(), config[i].1);
            proof {
                assert(config@.take(i + 1).drop_last() =~= config@.take(i as int));
            }
            i = i + 1;
        }
        proof {
            assert(config@.take(i as int) =~= config@);
        }
        flags
    }
}

} // verus!
