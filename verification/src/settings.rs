//! The broker's configuration, as it stands once it has been read.

use vstd::prelude::*;

verus! {

#[derive(Debug)]
pub struct Database {
    pub url: String,
}

/// A topic as the configuration declares it.
#[derive(Debug, Clone)]
pub struct Topic {
    pub name: String,
    /// Whether a record replaces the one that has its key; absent means no.
    pub compacted: Option<bool>,
    /// After how many milliseconds a record expires; absent means never.
    pub retention: Option<u64>,
}

/// What a `Topic` says.
pub struct TopicConfig {
    pub name: Seq<char>,
    pub compacted: Option<bool>,
    pub retention: Option<u64>,
}

impl DeepView for Topic {
    type V = TopicConfig;

    open spec fn deep_view(&self) -> TopicConfig {
        TopicConfig { name: self.name@, compacted: self.compacted, retention: self.retention }
    }
}

/// The declaration that counts for a topic name: the last one made under it.
pub open spec fn config_of(topics: Seq<TopicConfig>, name: Seq<char>) -> Option<TopicConfig>
    decreases topics.len(),
{
    if topics.len() == 0 {
        None
    } else if topics.last().name == name {
        Some(topics.last())
    } else {
        config_of(topics.drop_last(), name)
    }
}

/// Whether a topic is compacted: it is if the declaration that counts for it
/// says so.
pub open spec fn compacted_in(topics: Seq<TopicConfig>, name: Seq<char>) -> bool {
    match config_of(topics, name) {
        Some(topic) => topic.compacted == Some(true),
        None => false,
    }
}

/// Whether the configuration declares the topic compacted.
pub fn is_compacted(topics: &Vec<Topic>, name: &String) -> (compacted: bool)
    ensures
        compacted == compacted_in(topics.deep_view(), name@),
{
    let ghost models = topics.deep_view();
    let mut compacted = false;
    let mut i: usize = 0;
    assert(models.take(0) =~= Seq::<TopicConfig>::empty());
    while i < topics.len()
        invariant
            i <= topics.len(),
            models == topics.deep_view(),
            compacted == compacted_in(models.take(i as int), name@),
        decreases topics.len() - i,
    {
        assert(models.take(i + 1).drop_last() =~= models.take(i as int));
        assert(models.take(i + 1).last() == models[i as int]);
        if topics[i].name == *name {
            compacted = match topics[i].compacted {
                Some(c) => c,
                None => false,
            };
        }
        i += 1;
    }
    assert(models.take(topics.len() as int) =~= models);
    compacted
}

#[derive(Debug)]
pub struct Settings {
    pub listen: Option<String>,
    pub hostname: Option<String>,
    /// The interval of the retention run in milliseconds; absent means that
    /// none is scheduled.
    pub cleanup: Option<u64>,
    pub threads: Option<usize>,
    pub database: Database,
    pub topics: Vec<Topic>,
}

/// `hostname::get_hostname`: the name the operating system gives this host,
/// if it gives one. Nothing is known of it beforehand.
#[verifier::external_body]
fn os_hostname() -> Option<String> {
    hostname::get_hostname()
}

impl Settings {
    /// The address to listen on: the configured one, else every interface on
    /// port 9092.
    pub fn listen(&self) -> (address: String)
        ensures
            address@ == match self.listen {
                Some(s) => s@,
                None => "0.0.0.0:9092"@,
            },
    {
        match &self.listen {
            Some(s) => s.clone(),
            None => "0.0.0.0:9092".to_owned(),
        }
    }

    /// The size of the pool of handler workers: the configured one, else 100.
    pub fn worker_threads(&self) -> (n: usize)
        ensures
            n == match self.threads {
                Some(t) => t,
                None => 100usize,
            },
    {
        match self.threads {
            Some(t) => t,
            None => 100,
        }
    }

    /// The host name to advertise when the operating system reports
    /// `detected`: the configured name wins.
    pub fn hostname_or(&self, detected: Option<String>) -> (name: Option<String>)
        ensures
            name.deep_view() == match self.hostname {
                Some(v) => Some(v@),
                None => detected.deep_view(),
            },
    {
        match &self.hostname {
            Some(v) => Some(v.clone()),
            None => detected,
        }
    }

    /// The host name to advertise: the configured one, else the one the
    /// operating system reports, which is asked only then and may have none.
    pub fn get_hostname(&self) -> (name: Option<String>)
        ensures
            self.hostname matches Some(v) ==> name.deep_view() == Some(v@),
    {
        match &self.hostname {
            Some(_) => self.hostname_or(None),
            None => self.hostname_or(os_hostname()),
        }
    }
}

} // verus!
