//! The host store: a mapping from host name to the MAC address and the
//! broadcast address used to wake that host.

use vstd::prelude::*;

verus! {

/// How to reach one host: its MAC address as text, and the `ip:port`
/// broadcast address that the magic packet is sent to.
#[derive(Debug, Clone, PartialEq, Eq)]
pub struct HostConfig {
    pub mac: String,
    pub broadcast: String,
}

/// The abstract value of a [`HostConfig`].
pub struct HostView {
    pub mac: Seq<char>,
    pub broadcast: Seq<char>,
}

impl View for HostConfig {
    type V = HostView;

    open spec fn view(&self) -> HostView {
        HostView { mac: self.mac@, broadcast: self.broadcast@ }
    }
}

/// A named host as stored.
#[derive(Debug, Clone, PartialEq, Eq)]
pub struct HostEntry {
    pub name: String,
    pub host: HostConfig,
}

/// The map that a list of entries describes; a later entry for a name
/// overrides an earlier one.
pub open spec fn entries_map(es: Seq<HostEntry>) -> Map<Seq<char>, HostView>
    decreases es.len(),
{
    if es.len() == 0 {
        Map::empty()
    } else {
        entries_map(es.drop_last()).insert(es.last().name@, es.last().host@)
    }
}

/// No two entries share a name.
pub open spec fn names_unique(es: Seq<HostEntry>) -> bool {
    forall|i: int, j: int| 0 <= i < es.len() && 0 <= j < es.len() && i != j ==> (#[trigger] es[i]).name@ != (#[trigger] es[j]).name@
}

/// The keys of `entries_map(es)` are the names of the entries, and with
/// unique names each entry's host is the one stored under its name.
pub proof fn lemma_entries_map(es: Seq<HostEntry>)
    ensures
        forall|k: Seq<char>| #[trigger] entries_map(es).contains_key(k) <==> exists|i: int| 0 <= i < es.len() && (#[trigger] es[i]).name@ == k,
        names_unique(es) ==> forall|i: int| 0 <= i < es.len() ==> entries_map(es)[(#[trigger] es[i]).name@] == es[i].host@,
    decreases es.len(),
{
    if es.len() > 0 {
        let p = es.drop_last();
        lemma_entries_map(p);
        assert forall|k: Seq<char>| #[trigger] entries_map(es).contains_key(k) <==> exists|i: int| 0 <= i < es.len() && (#[trigger] es[i]).name@ == k by {
            let last = es.len() - 1;
            if entries_map(es).contains_key(k) {
                if k == es[last].name@ {
                    assert(0 <= last < es.len() && es[last].name@ == k);
                } else {
                    assert(entries_map(p).contains_key(k));
                    let i = choose|i: int| 0 <= i < p.len() && (#[trigger] p[i]).name@ == k;
                    assert(es[i] == p[i]);
                    assert(0 <= i < es.len() && es[i].name@ == k);
                }
            }
            if exists|i: int| 0 <= i < es.len() && (#[trigger] es[i]).name@ == k {
                let i = choose|i: int| 0 <= i < es.len() && (#[trigger] es[i]).name@ == k;
                if i < last {
                    assert(p[i] == es[i]);
                    assert(entries_map(p).contains_key(k));
                }
                assert(entries_map(es).contains_key(k));
            }
        }
        if names_unique(es) {
            assert forall|i: int| 0 <= i < es.len() implies entries_map(es)[(#[trigger] es[i]).name@] == es[i].host@ by {
                if i < p.len() {
                    assert(p[i] == es[i]);
                    assert(es[i].name@ != es[es.len() - 1].name@);
                }
            }
        }
    }
}

/// Removing the entry at `i`, whose name no other entry has, removes its
/// name from the map.
pub proof fn lemma_entries_map_remove(es: Seq<HostEntry>, i: int)
    requires
        names_unique(es),
        0 <= i < es.len(),
    ensures
        entries_map(es.remove(i)) == entries_map(es).remove(es[i].name@),
        names_unique(es.remove(i)),
{
    let r = es.remove(i);
    let key = es[i].name@;
    assert(names_unique(r)) by {
        assert forall|a: int, b: int| 0 <= a < r.len() && 0 <= b < r.len() && a != b implies (#[trigger] r[a]).name@ != (#[trigger] r[b]).name@ by {
            let a2 = if a < i { a } else { a + 1 };
            let b2 = if b < i { b } else { b + 1 };
            assert(r[a] == es[a2] && r[b] == es[b2]);
        }
    }
    lemma_entries_map(es);
    lemma_entries_map(r);
    let m = entries_map(es).remove(key);
    assert forall|k: Seq<char>| #[trigger] entries_map(r).contains_key(k) <==> m.contains_key(k) by {
        if entries_map(r).contains_key(k) {
            let a = choose|a: int| 0 <= a < r.len() && (#[trigger] r[a]).name@ == k;
            let a2 = if a < i { a } else { a + 1 };
            assert(r[a] == es[a2]);
        }
        if m.contains_key(k) {
            let a = choose|a: int| 0 <= a < es.len() && (#[trigger] es[a]).name@ == k;
            let a1 = if a < i { a } else { a - 1 };
            assert(r[a1] == es[a]);
        }
    }
    assert forall|k: Seq<char>| #[trigger] entries_map(r).contains_key(k) implies entries_map(r)[k] == m[k] by {
        let a = choose|a: int| 0 <= a < r.len() && (#[trigger] r[a]).name@ == k;
        let a2 = if a < i { a } else { a + 1 };
        assert(r[a] == es[a2]);
    }
    assert(entries_map(r) =~= m);
}

/// The hosts known by name, each with its MAC and broadcast address.
pub struct Config {
    hosts: Vec<HostEntry>,
}

impl View for Config {
    type V = Map<Seq<char>, HostView>;

    closed spec fn view(&self) -> Map<Seq<char>, HostView> {
        entries_map(self.hosts@)
    }
}

impl Config {
    /// Host names are unique in the store.
    pub closed spec fn wf(&self) -> bool {
        names_unique(self.hosts@)
    }

    /// The stored entries, each name once.
    pub closed spec fn entries_spec(&self) -> Seq<HostEntry> {
        self.hosts@
    }

    /// An empty store.
    pub fn new() -> (r: Config)
        ensures
            r.wf(),
            r@ == Map::<Seq<char>, HostView>::empty(),
    {
        Config { hosts: Vec::new() }
    }

    fn find(&self, name: &String) -> (r: Option<usize>)
        requires
            self.wf(),
        ensures
            match r {
                Some(i) => i < self.hosts@.len() && self.hosts@[i as int].name@ == name@,
                None => !self@.contains_key(name@),
            },
    {
        proof {
            lemma_entries_map(self.hosts@);
        }
        let mut i: usize = 0;
        while i < self.hosts.len()
            invariant
                i <= self.hosts@.len(),
                forall|j: int| 0 <= j < i ==> (#[trigger] self.hosts@[j]).name@ != name@,
            decreases self.hosts@.len() - i,
        {
            if self.hosts[i].name == *name {
                return Some(i);
            }
            i = i + 1;
        }
        None
    }

    /// The host stored under `name`, if any.
    pub fn get(&self, name: &str) -> (r: Option<&HostConfig>)
        requires
            self.wf(),
        ensures
            match r {
                Some(h) => self@.contains_key(name@) && self@[name@] == h@,
                None => !self@.contains_key(name@),
            },
    {
        let key = name.to_owned();
        match self.find(&key) {
            Some(i) => {
                proof {
                    lemma_entries_map(self.hosts@);
                }
                Some(&self.hosts[i].host)
            },
            None => None,
        }
    }

    /// Stores `host` under `name`, replacing and returning what was there.
    pub fn insert(&mut self, name: String, host: HostConfig) -> (r: Option<HostConfig>)
        requires
            old(self).wf(),
        ensures
            final(self).wf(),
            final(self)@ == old(self)@.insert(name@, host@),
            match r {
                Some(h) => old(self)@.contains_key(name@) && old(self)@[name@] == h@,
                None => !old(self)@.contains_key(name@),
            },
    {
        let previous = self.remove(name.as_str());
        let ghost before = self.hosts@;
        let entry = HostEntry { name, host };
        self.hosts.push(entry);
        proof {
            lemma_entries_map(before);
            assert(self.hosts@.drop_last() =~= before);
            assert(names_unique(self.hosts@)) by {
                assert forall|a: int, b: int| 0 <= a < self.hosts@.len() && 0 <= b < self.hosts@.len() && a != b implies (#[trigger] self.hosts@[a]).name@ != (#[trigger] self.hosts@[b]).name@ by {
                    if a < before.len() {
                        assert(self.hosts@[a] == before[a]);
                        if b == before.len() && before[a].name@ == name@ {
                            assert(entries_map(before).contains_key(name@));
                        }
                    }
                    if b < before.len() {
                        assert(self.hosts@[b] == before[b]);
                        if a == before.len() && before[b].name@ == name@ {
                            assert(entries_map(before).contains_key(name@));
                        }
                    }
                }
            }
            assert(self@ =~= old(self)@.insert(name@, host@));
        }
        previous
    }

    /// Removes the host stored under `name`, returning it; a name that is
    /// not stored leaves the store exactly as it was.
    pub fn remove(&mut self, name: &str) -> (r: Option<HostConfig>)
        requires
            old(self).wf(),
        ensures
            final(self).wf(),
            final(self)@ == old(self)@.remove(name@),
            match r {
                Some(h) => old(self)@.contains_key(name@) && old(self)@[name@] == h@,
                None => !old(self)@.contains_key(name@) && *final(self) == *old(self),
            },
    {
        let key = name.to_owned();
        match self.find(&key) {
            Some(i) => {
                proof {
                    lemma_entries_map(self.hosts@);
                    lemma_entries_map_remove(self.hosts@, i as int);
                }
                let entry = self.hosts.remove(i);
                Some(entry.host)
            },
            None => {
                assert(old(self)@.remove(name@) =~= old(self)@);
                None
            },
        }
    }

    /// Whether no host is stored.
    pub fn is_empty(&self) -> (r: bool)
        requires
            self.wf(),
        ensures
            r <==> self@.is_empty(),
    {
        proof {
            lemma_entries_map(self.hosts@);
        }
        if self.hosts.len() == 0 {
            assert(self@ =~= Map::<Seq<char>, HostView>::empty());
            true
        } else {
            assert(self@.contains_key(self.hosts@[0].name@));
            false
        }
    }

    /// The stored entries, each name once: what is written out on save.
    pub fn entries(&self) -> (r: &Vec<HostEntry>)
        requires
            self.wf(),
        ensures
            r@ == self.entries_spec(),
            names_unique(r@),
            entries_map(r@) == self@,
    {
        &self.hosts
    }

    /// The store that a list of entries describes, as read back on load;
    /// a later entry for a name overrides an earlier one.
    pub fn from_entries(entries: Vec<HostEntry>) -> (r: Config)
        ensures
            r.wf(),
            r@ == entries_map(entries@),
    {
        let ghost all = entries@;
        let mut rest = entries;
        let mut config = Config::new();
        while rest.len() > 0
            invariant
                config.wf(),
                rest@.len() <= all.len(),
                rest@ == all.subrange(all.len() - rest@.len(), all.len() as int),
                config@ == entries_map(all.subrange(0, all.len() - rest@.len())),
            decreases rest@.len(),
        {
            let ghost done = all.len() - rest@.len();
            assert(rest@[0] == all[done]);
            let entry = rest.remove(0);
            assert(all.subrange(0, done + 1).drop_last() =~= all.subrange(0, done));
            config.insert(entry.name, entry.host);
            assert(rest@ =~= all.subrange(all.len() - rest@.len(), all.len() as int));
        }
        assert(all.subrange(0, all.len() as int) =~= all);
        config
    }
}

/// Saving the store and loading what was saved gives the same store back;
/// in particular, a host inserted before the save is found after the load
/// with the same MAC and broadcast address.
pub proof fn lemma_save_load_round_trip(before: Config, after: Config, name: Seq<char>, host: HostView)
    requires
        before.wf(),
        after.wf(),
        after@ == before@.insert(name, host),
    ensures
        entries_map(after.entries_spec()) == after@,
        entries_map(after.entries_spec()).contains_key(name),
        entries_map(after.entries_spec())[name] == host,
{
}

/// Removing a name that is not stored leaves the store as it was.
pub proof fn lemma_remove_missing_unchanged(store: Config, name: Seq<char>)
    requires
        store.wf(),
        !store@.contains_key(name),
    ensures
        store@.remove(name) == store@,
{
    assert(store@.remove(name) =~= store@);
}

} // verus!
