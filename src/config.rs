use vstd::prelude::*;
use crate::augmentation::Augmentation;
use crate::errors::Error;
use crate::naming::same_text;
use vstd::string::StringExecFns;

verus! {

/// The persisted state: the registry of augmentations and bookkeeping.
pub struct InternalConfig {
    pub augmentations: Vec<Augmentation>,
    pub last_badge_update: u64,
    pub afk_channel: Option<i32>,
}

/// Where the channel server and the dashboard are reached.
pub struct ExternalConfig {
    pub host: String,
    pub port: u16,
    pub user: String,
    pub pass: String,
    pub vsid: i32,
    pub bind_addr: String,
    pub bind_port: u16,
}

impl Default for ExternalConfig {
    fn default() -> (r: ExternalConfig)
        ensures
            r.host@ == "127.0.0.1"@,
            r.port == 10022,
            r.user@ == "serveradmin"@,
            r.pass@ == "password"@,
            r.vsid == 1,
            r.bind_addr@ == "0.0.0.0"@,
            r.bind_port == 8000,
    {
        ExternalConfig {
            host: String::from_str("127.0.0.1"),
            port: 10022,
            user: String::from_str("serveradmin"),
            pass: String::from_str("password"),
            vsid: 1,
            bind_addr: String::from_str("0.0.0.0"),
            bind_port: 8000,
        }
    }
}

pub struct Config {
    pub internal: InternalConfig,
    pub external: ExternalConfig,
}

/// The position of the first augmentation called `identifier`, if any.
pub open spec fn position_of(augs: Seq<Augmentation>, identifier: Seq<char>) -> Option<int>
    decreases augs.len(),
{
    if augs.len() == 0 {
        None
    } else {
        match position_of(augs.drop_last(), identifier) {
            Some(i) => Some(i),
            None => if augs.last().identifier@ == identifier { Some(augs.len() - 1) } else { None },
        }
    }
}

pub proof fn lemma_position_of(augs: Seq<Augmentation>, identifier: Seq<char>)
    ensures
        position_of(augs, identifier) matches Some(i) ==> 0 <= i < augs.len()
            && augs[i].identifier@ == identifier
            && forall|j: int| 0 <= j < i ==> augs[j].identifier@ != identifier,
        position_of(augs, identifier) is None ==> forall|j: int| 0 <= j < augs.len() ==> augs[j].identifier@ != identifier,
    decreases augs.len(),
{
    if augs.len() > 0 {
        lemma_position_of(augs.drop_last(), identifier);
        assert forall|j: int| 0 <= j < augs.len() - 1 implies augs.drop_last()[j] == augs[j] by {}
    }
}

/// The position of the first augmentation called `identifier`, if any.
pub fn find_augmentation(augs: &Vec<Augmentation>, identifier: &str) -> (r: Option<usize>)
    ensures
        r matches Some(i) ==> position_of(augs@, identifier@) == Some(i as int),
        r is None ==> position_of(augs@, identifier@) is None,
{
    let mut i: usize = 0;
    while i < augs.len()
        invariant
            i <= augs@.len(),
            position_of(augs@.subrange(0, i as int), identifier@) is None,
        decreases augs@.len() - i,
    {
        assert(augs@.subrange(0, i + 1).drop_last() =~= augs@.subrange(0, i as int));
        if same_text(augs[i].identifier.as_str(), identifier) {
            proof {
                lemma_position_of(augs@, identifier@);
                lemma_position_of(augs@.subrange(0, i as int), identifier@);
                assert(augs@.subrange(0, i as int).len() == i);
                assert forall|j: int| 0 <= j < i implies augs@[j].identifier@ != identifier@ by {
                    assert(augs@.subrange(0, i as int)[j] == augs@[j]);
                }
            }
            return Some(i);
        }
        i = i + 1;
    }
    assert(augs@.subrange(0, augs@.len() as int) =~= augs@);
    None
}

impl Config {
    /// Adds an augmentation to the registry.
    pub fn add_augmentation(&mut self, augmentation: Augmentation)
        ensures
            final(self).internal.augmentations@ == old(self).internal.augmentations@.push(augmentation),
            final(self).internal.last_badge_update == old(self).internal.last_badge_update,
            final(self).internal.afk_channel == old(self).internal.afk_channel,
            final(self).external == old(self).external,
    {
        self.internal.augmentations.push(augmentation);
    }

    /// Takes the augmentation called `identifier` out of the registry.
    pub fn remove_augmentation(&mut self, identifier: &str) -> (r: Result<Augmentation, Error>)
        ensures
            match position_of(old(self).internal.augmentations@, identifier@) {
                Some(i) => r == Ok::<Augmentation, Error>(old(self).internal.augmentations@[i])
                    && final(self).internal.augmentations@ == old(self).internal.augmentations@.remove(i),
                None => r is Err && r->Err_0 is NotFound && final(self).internal.augmentations@ == old(self).internal.augmentations@,
            },
            final(self).internal.last_badge_update == old(self).internal.last_badge_update,
            final(self).internal.afk_channel == old(self).internal.afk_channel,
            final(self).external == old(self).external,
    {
        proof {
            lemma_position_of(self.internal.augmentations@, identifier@);
        }
        match find_augmentation(&self.internal.augmentations, identifier) {
            Some(i) => Ok(self.internal.augmentations.remove(i)),
            None => Err(Error::NotFound),
        }
    }
}

} // verus!
