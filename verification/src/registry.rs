//! The inspector's view of the DDS network: participants, topics, writers
//! and readers, each keyed by its GUID (topics by name), as discovery
//! reports them.

use vstd::prelude::*;

use crate::dto::{BackendEvent, EndpointDto, ParticipantDto, TopicDto};

verus! {

/// An entry of the registry: it has a key and can be copied.
pub trait RegistryEntry: Sized {
    spec fn key_of(&self) -> Seq<char>;

    fn key(&self) -> (r: &String)
        ensures
            r@ == self.key_of(),
    ;

    fn duplicate(&self) -> (r: Self)
        ensures
            r == *self,
    ;
}

impl RegistryEntry for ParticipantDto {
    open spec fn key_of(&self) -> Seq<char> {
        self.guid@
    }

    fn key(&self) -> (r: &String) {
        &self.guid
    }

    fn duplicate(&self) -> (r: Self) {
        self.clone()
    }
}

impl RegistryEntry for TopicDto {
    open spec fn key_of(&self) -> Seq<char> {
        self.name@
    }

    fn key(&self) -> (r: &String) {
        &self.name
    }

    fn duplicate(&self) -> (r: Self) {
        self.clone()
    }
}

impl RegistryEntry for EndpointDto {
    open spec fn key_of(&self) -> Seq<char> {
        self.guid@
    }

    fn key(&self) -> (r: &String) {
        &self.guid
    }

    fn duplicate(&self) -> (r: Self) {
        self.clone()
    }
}

/// Index of the entry with key `k` in `s`, or -1.
pub open spec fn key_index<T: RegistryEntry>(s: Seq<T>, k: Seq<char>) -> int {
    if exists|i: int| 0 <= i < s.len() && s[i].key_of() == k {
        choose|i: int| 0 <= i < s.len() && s[i].key_of() == k
    } else {
        -1
    }
}

/// No two entries share a key.
pub open spec fn distinct_keys<T: RegistryEntry>(s: Seq<T>) -> bool {
    forall|i: int, j: int|
        0 <= i < s.len() && 0 <= j < s.len() && i != j ==> s[i].key_of() != s[j].key_of()
}

/// `s` with `item` inserted: it replaces the entry with the same key, or
/// is appended.
pub open spec fn upserted<T: RegistryEntry>(s: Seq<T>, item: T) -> Seq<T> {
    let i = key_index(s, item.key_of());
    if i >= 0 {
        s.update(i, item)
    } else {
        s.push(item)
    }
}

/// `s` without the entry with key `k` (unchanged if there is none).
pub open spec fn without_key<T: RegistryEntry>(s: Seq<T>, k: Seq<char>) -> Seq<T> {
    let i = key_index(s, k);
    if i >= 0 {
        s.remove(i)
    } else {
        s
    }
}

/// The entry with key `k`, if any.
pub open spec fn entry_of<T: RegistryEntry>(s: Seq<T>, k: Seq<char>) -> Option<T> {
    let i = key_index(s, k);
    if i >= 0 {
        Some(s[i])
    } else {
        None
    }
}

proof fn lemma_key_found<T: RegistryEntry>(s: Seq<T>, k: Seq<char>, i: int)
    requires
        distinct_keys(s),
        0 <= i < s.len(),
        s[i].key_of() == k,
    ensures
        key_index(s, k) == i,
{
    assert(exists|m: int| 0 <= m < s.len() && s[m].key_of() == k);
}

/// After an insert the entry is found under its key, the keys stay
/// distinct, and every other key keeps its entry.
pub proof fn lemma_upsert_then_lookup<T: RegistryEntry>(s: Seq<T>, item: T, other: Seq<char>)
    requires
        distinct_keys(s),
    ensures
        distinct_keys(upserted(s, item)),
        entry_of(upserted(s, item), item.key_of()) == Some(item),
        other != item.key_of() ==> entry_of(upserted(s, item), other) == entry_of(s, other),
{
    let t = upserted(s, item);
    let i = key_index(s, item.key_of());
    assert forall|a: int, b: int| 0 <= a < t.len() && 0 <= b < t.len() && a != b implies t[a].key_of()
        != t[b].key_of() by {
        if i >= 0 {
            assert(s[i].key_of() == item.key_of());
            if a == i {
                assert(s[b].key_of() != s[i].key_of());
            } else if b == i {
                assert(s[a].key_of() != s[i].key_of());
            }
        } else {
            if a == s.len() {
                assert(s[b].key_of() != item.key_of());
            } else if b == s.len() {
                assert(s[a].key_of() != item.key_of());
            }
        }
    }
    let j = if i >= 0 { i } else { s.len() as int };
    assert(t[j] == item);
    lemma_key_found(t, item.key_of(), j);
    if other != item.key_of() {
        if exists|m: int| 0 <= m < s.len() && s[m].key_of() == other {
            let m = choose|m: int| 0 <= m < s.len() && s[m].key_of() == other;
            lemma_key_found(s, other, m);
            assert(t[m] == s[m]);
            lemma_key_found(t, other, m);
        } else {
            assert forall|m: int| 0 <= m < t.len() implies t[m].key_of() != other by {
                if m != j {
                    assert(t[m] == s[m]);
                }
            }
        }
    }
}

/// After a removal no entry has the key, the keys stay distinct, and
/// every other key keeps its entry.
pub proof fn lemma_remove_then_lookup<T: RegistryEntry>(s: Seq<T>, k: Seq<char>, other: Seq<char>)
    requires
        distinct_keys(s),
    ensures
        distinct_keys(without_key(s, k)),
        entry_of(without_key(s, k), k) == None::<T>,
        other != k ==> entry_of(without_key(s, k), other) == entry_of(s, other),
{
    let t = without_key(s, k);
    let i = key_index(s, k);
    if i >= 0 {
        assert(s[i].key_of() == k);
        assert forall|a: int| 0 <= a < t.len() implies t[a] == s[if a < i { a } else { a + 1 }] by {}
        assert forall|a: int, b: int| 0 <= a < t.len() && 0 <= b < t.len() && a != b implies t[a].key_of()
            != t[b].key_of() by {
            let a2 = if a < i { a } else { a + 1 };
            let b2 = if b < i { b } else { b + 1 };
            assert(t[a] == s[a2] && t[b] == s[b2]);
        }
        assert forall|m: int| 0 <= m < t.len() implies t[m].key_of() != k by {
            let m2 = if m < i { m } else { m + 1 };
            assert(t[m] == s[m2]);
        }
        if other != k {
            if exists|m: int| 0 <= m < s.len() && s[m].key_of() == other {
                let m = choose|m: int| 0 <= m < s.len() && s[m].key_of() == other;
                lemma_key_found(s, other, m);
                let m1 = if m < i { m } else { m - 1 };
                assert(t[m1] == s[m]);
                lemma_key_found(t, other, m1);
            } else {
                assert forall|m: int| 0 <= m < t.len() implies t[m].key_of() != other by {
                    let m2 = if m < i { m } else { m + 1 };
                    assert(t[m] == s[m2]);
                }
            }
        }
    }
}

/// Entries of one kind, at most one per key, in insertion order.
pub struct KeyedTable<T: RegistryEntry> {
    items: Vec<T>,
}

impl<T: RegistryEntry> KeyedTable<T> {
    pub closed spec fn entries(&self) -> Seq<T> {
        self.items@
    }

    pub closed spec fn wf(&self) -> bool {
        distinct_keys(self.items@)
    }

    /// No two entries share a key.
    pub proof fn lemma_keys_distinct(&self)
        requires
            self.wf(),
        ensures
            distinct_keys(self.entries()),
    {
    }

    pub fn new() -> (r: Self)
        ensures
            r.wf(),
            r.entries().len() == 0,
    {
        KeyedTable { items: Vec::new() }
    }

    fn find(&self, key: &String) -> (r: Option<usize>)
        requires
            self.wf(),
        ensures
            match r {
                Some(i) => i < self.items@.len() && key_index(self.items@, key@) == i,
                None => key_index(self.items@, key@) == -1,
            },
    {
        let n = self.items.len();
        let mut i: usize = 0;
        while i < n
            invariant
                n == self.items@.len(),
                distinct_keys(self.items@),
                i <= n,
                forall|m: int| 0 <= m < i ==> self.items@[m].key_of() != key@,
            decreases n - i,
        {
            if *self.items[i].key() == *key {
                proof {
                    lemma_key_found(self.items@, key@, i as int);
                }
                return Some(i);
            }
            i = i + 1;
        }
        None
    }

    /// Insert `item`, replacing the entry with the same key.
    pub fn upsert(&mut self, item: T)
        requires
            old(self).wf(),
        ensures
            final(self).wf(),
            final(self).entries() == upserted(old(self).entries(), item),
    {
        proof {
            lemma_upsert_then_lookup(self.items@, item, item.key_of());
        }
        match self.find(item.key()) {
            Some(i) => {
                self.items.set(i, item);
            },
            None => {
                self.items.push(item);
            },
        }
    }

    /// Remove the entry with key `key`, if any.
    pub fn remove_key(&mut self, key: &str)
        requires
            old(self).wf(),
        ensures
            final(self).wf(),
            final(self).entries() == without_key(old(self).entries(), key@),
    {
        proof {
            lemma_remove_then_lookup(self.items@, key@, key@);
        }
        let k = key.to_owned();
        match self.find(&k) {
            Some(i) => {
                self.items.remove(i);
            },
            None => {},
        }
    }

    /// Copies of all entries, in order.
    pub fn values(&self) -> (r: Vec<T>)
        ensures
            r@ == self.entries(),
    {
        let mut out: Vec<T> = Vec::new();
        let mut i: usize = 0;
        while i < self.items.len()
            invariant
                i <= self.items@.len(),
                out@ == self.items@.take(i as int),
            decreases self.items@.len() - i,
        {
            out.push(self.items[i].duplicate());
            proof {
                assert(self.items@.take(i + 1) =~= self.items@.take(i as int).push(self.items@[i as int]));
            }
            i = i + 1;
        }
        proof {
            assert(self.items@.take(self.items@.len() as int) =~= self.items@);
        }
        out
    }
}

/// Endpoints of `s` that do not belong to participant `guid`.
pub open spec fn not_of_participant(s: Seq<EndpointDto>, guid: Seq<char>) -> Seq<EndpointDto> {
    s.filter(|e: EndpointDto| e.participant_guid@ != guid)
}

impl KeyedTable<EndpointDto> {
    /// Drop every endpoint of participant `guid`.
    pub fn drop_participant(&mut self, guid: &str)
        requires
            old(self).wf(),
        ensures
            final(self).wf(),
            final(self).entries() == not_of_participant(old(self).entries(), guid@),
    {
        let g = guid.to_owned();
        let ghost s = self.items@;
        let ghost pred = |e: EndpointDto| e.participant_guid@ != guid@;
        let mut kept: Vec<EndpointDto> = Vec::new();
        let n = self.items.len();
        let mut i: usize = 0;
        while i < n
            invariant
                n == s.len(),
                s == self.items@,
                distinct_keys(s),
                g@ == guid@,
                pred == (|e: EndpointDto| e.participant_guid@ != guid@),
                i <= n,
                kept@ == s.take(i as int).filter(pred),
                distinct_keys(kept@),
                forall|a: int| 0 <= a < kept@.len() ==> exists|b: int| 0 <= b < i && #[trigger] kept@[a] == s[b],
            decreases n - i,
        {
            let e = &self.items[i];
            proof {
                reveal(Seq::filter);
                assert(s.take(i + 1).drop_last() =~= s.take(i as int));
            }
            if e.participant_guid != g {
                let ghost before = kept@;
                kept.push(e.clone());
                proof {
                    assert forall|a: int, b: int|
                        0 <= a < kept@.len() && 0 <= b < kept@.len() && a != b implies kept@[a].key_of()
                        != kept@[b].key_of() by {
                        if a < before.len() && b < before.len() {
                        } else if a == before.len() {
                            let c = choose|c: int| 0 <= c < i && before[b] == s[c];
                            assert(s[c].key_of() != s[i as int].key_of());
                        } else {
                            let c = choose|c: int| 0 <= c < i && before[a] == s[c];
                            assert(s[c].key_of() != s[i as int].key_of());
                        }
                    }
                    assert forall|a: int| 0 <= a < kept@.len() implies exists|b: int| 0 <= b < i + 1 && #[trigger] kept@[a] == s[b] by {
                        if a < before.len() {
                            let c = choose|c: int| 0 <= c < i && before[a] == s[c];
                            assert(kept@[a] == s[c]);
                        } else {
                            assert(kept@[a] == s[i as int]);
                        }
                    }
                }
            }
            i = i + 1;
        }
        proof {
            assert(s.take(n as int) =~= s);
        }
        self.items = kept;
    }
}

/// Copies of everything the registry holds.
pub struct RegistrySnapshot {
    pub participants: Vec<ParticipantDto>,
    pub topics: Vec<TopicDto>,
    pub writers: Vec<EndpointDto>,
    pub readers: Vec<EndpointDto>,
}

/// Participants by GUID, topics by name, writers and readers by GUID.
pub struct Registry {
    participants: KeyedTable<ParticipantDto>,
    topics: KeyedTable<TopicDto>,
    writers: KeyedTable<EndpointDto>,
    readers: KeyedTable<EndpointDto>,
}

impl Registry {
    pub closed spec fn participants(&self) -> Seq<ParticipantDto> {
        self.participants.entries()
    }

    pub closed spec fn topics(&self) -> Seq<TopicDto> {
        self.topics.entries()
    }

    pub closed spec fn writers(&self) -> Seq<EndpointDto> {
        self.writers.entries()
    }

    pub closed spec fn readers(&self) -> Seq<EndpointDto> {
        self.readers.entries()
    }

    pub closed spec fn wf(&self) -> bool {
        self.participants.wf() && self.topics.wf() && self.writers.wf() && self.readers.wf()
    }

    /// Each of the four tables holds at most one entry per key.
    pub proof fn lemma_keys_distinct(&self)
        requires
            self.wf(),
        ensures
            distinct_keys(self.participants()),
            distinct_keys(self.topics()),
            distinct_keys(self.writers()),
            distinct_keys(self.readers()),
    {
    }

    pub fn new() -> (r: Self)
        ensures
            r.wf(),
            r.participants().len() == 0,
            r.topics().len() == 0,
            r.writers().len() == 0,
            r.readers().len() == 0,
    {
        Registry {
            participants: KeyedTable::new(),
            topics: KeyedTable::new(),
            writers: KeyedTable::new(),
            readers: KeyedTable::new(),
        }
    }

    pub fn snapshot(&self) -> (r: RegistrySnapshot)
        ensures
            r.participants@ == self.participants(),
            r.topics@ == self.topics(),
            r.writers@ == self.writers(),
            r.readers@ == self.readers(),
    {
        RegistrySnapshot {
            participants: self.participants.values(),
            topics: self.topics.values(),
            writers: self.writers.values(),
            readers: self.readers.values(),
        }
    }

    pub fn add_participant(&mut self, p: ParticipantDto)
        requires
            old(self).wf(),
        ensures
            final(self).wf(),
            final(self).participants() == upserted(old(self).participants(), p),
            final(self).topics() == old(self).topics(),
            final(self).writers() == old(self).writers(),
            final(self).readers() == old(self).readers(),
    {
        self.participants.upsert(p);
    }

    /// Remove participant `guid` and every writer and reader it owns.
    pub fn remove_participant(&mut self, guid: &str)
        requires
            old(self).wf(),
        ensures
            final(self).wf(),
            final(self).participants() == without_key(old(self).participants(), guid@),
            final(self).topics() == old(self).topics(),
            final(self).writers() == not_of_participant(old(self).writers(), guid@),
            final(self).readers() == not_of_participant(old(self).readers(), guid@),
    {
        self.participants.remove_key(guid);
        self.writers.drop_participant(guid);
        self.readers.drop_participant(guid);
    }

    pub fn add_topic(&mut self, t: TopicDto)
        requires
            old(self).wf(),
        ensures
            final(self).wf(),
            final(self).topics() == upserted(old(self).topics(), t),
            final(self).participants() == old(self).participants(),
            final(self).writers() == old(self).writers(),
            final(self).readers() == old(self).readers(),
    {
        self.topics.upsert(t);
    }

    pub fn remove_topic(&mut self, name: &str)
        requires
            old(self).wf(),
        ensures
            final(self).wf(),
            final(self).topics() == without_key(old(self).topics(), name@),
            final(self).participants() == old(self).participants(),
            final(self).writers() == old(self).writers(),
            final(self).readers() == old(self).readers(),
    {
        self.topics.remove_key(name);
    }

    pub fn add_writer(&mut self, e: EndpointDto)
        requires
            old(self).wf(),
        ensures
            final(self).wf(),
            final(self).writers() == upserted(old(self).writers(), e),
            final(self).participants() == old(self).participants(),
            final(self).topics() == old(self).topics(),
            final(self).readers() == old(self).readers(),
    {
        self.writers.upsert(e);
    }

    pub fn remove_writer(&mut self, guid: &str)
        requires
            old(self).wf(),
        ensures
            final(self).wf(),
            final(self).writers() == without_key(old(self).writers(), guid@),
            final(self).participants() == old(self).participants(),
            final(self).topics() == old(self).topics(),
            final(self).readers() == old(self).readers(),
    {
        self.writers.remove_key(guid);
    }

    pub fn add_reader(&mut self, e: EndpointDto)
        requires
            old(self).wf(),
        ensures
            final(self).wf(),
            final(self).readers() == upserted(old(self).readers(), e),
            final(self).participants() == old(self).participants(),
            final(self).topics() == old(self).topics(),
            final(self).writers() == old(self).writers(),
    {
        self.readers.upsert(e);
    }

    pub fn remove_reader(&mut self, guid: &str)
        requires
            old(self).wf(),
        ensures
            final(self).wf(),
            final(self).readers() == without_key(old(self).readers(), guid@),
            final(self).participants() == old(self).participants(),
            final(self).topics() == old(self).topics(),
            final(self).writers() == old(self).writers(),
    {
        self.readers.remove_key(guid);
    }

    /// Apply one discovery change.
    pub fn apply_event(&mut self, event: BackendEvent)
        requires
            old(self).wf(),
        ensures
            final(self).wf(),
            match event {
                BackendEvent::ParticipantAdded(p) => final(self).participants() == upserted(
                    old(self).participants(),
                    p,
                ) && final(self).writers() == old(self).writers() && final(self).readers()
                    == old(self).readers() && final(self).topics() == old(self).topics(),
                BackendEvent::ParticipantRemoved(g) => final(self).participants() == without_key(
                    old(self).participants(),
                    g@,
                ) && final(self).writers() == not_of_participant(old(self).writers(), g@)
                    && final(self).readers() == not_of_participant(old(self).readers(), g@)
                    && final(self).topics() == old(self).topics(),
                BackendEvent::TopicAdded(t) => final(self).topics() == upserted(
                    old(self).topics(),
                    t,
                ) && final(self).participants() == old(self).participants() && final(self).writers()
                    == old(self).writers() && final(self).readers() == old(self).readers(),
                BackendEvent::TopicRemoved(n) => final(self).topics() == without_key(
                    old(self).topics(),
                    n@,
                ) && final(self).participants() == old(self).participants() && final(self).writers()
                    == old(self).writers() && final(self).readers() == old(self).readers(),
                BackendEvent::WriterAdded(e) => final(self).writers() == upserted(
                    old(self).writers(),
                    e,
                ) && final(self).participants() == old(self).participants() && final(self).topics()
                    == old(self).topics() && final(self).readers() == old(self).readers(),
                BackendEvent::WriterRemoved(g) => final(self).writers() == without_key(
                    old(self).writers(),
                    g@,
                ) && final(self).participants() == old(self).participants() && final(self).topics()
                    == old(self).topics() && final(self).readers() == old(self).readers(),
                BackendEvent::ReaderAdded(e) => final(self).readers() == upserted(
                    old(self).readers(),
                    e,
                ) && final(self).participants() == old(self).participants() && final(self).topics()
                    == old(self).topics() && final(self).writers() == old(self).writers(),
                BackendEvent::ReaderRemoved(g) => final(self).readers() == without_key(
                    old(self).readers(),
                    g@,
                ) && final(self).participants() == old(self).participants() && final(self).topics()
                    == old(self).topics() && final(self).writers() == old(self).writers(),
            },
    {
        match event {
            BackendEvent::ParticipantAdded(p) => self.add_participant(p),
            BackendEvent::ParticipantRemoved(g) => self.remove_participant(g.as_str()),
            BackendEvent::TopicAdded(t) => self.add_topic(t),
            BackendEvent::TopicRemoved(n) => self.remove_topic(n.as_str()),
            BackendEvent::WriterAdded(e) => self.add_writer(e),
            BackendEvent::WriterRemoved(g) => self.remove_writer(g.as_str()),
            BackendEvent::ReaderAdded(e) => self.add_reader(e),
            BackendEvent::ReaderRemoved(g) => self.remove_reader(g.as_str()),
        }
    }
}

/// Once a participant is removed, neither it nor any writer or reader it
/// owned is left.
pub proof fn lemma_removed_participant_leaves_nothing(
    participants: Seq<ParticipantDto>,
    endpoints: Seq<EndpointDto>,
    guid: Seq<char>,
)
    requires
        distinct_keys(participants),
    ensures
        entry_of(without_key(participants, guid), guid) == None::<ParticipantDto>,
        forall|i: int|
            0 <= i < not_of_participant(endpoints, guid).len() ==> (#[trigger] not_of_participant(
                endpoints,
                guid,
            )[i]).participant_guid@ != guid,
{
    lemma_remove_then_lookup(participants, guid, guid);
    let pred = |e: EndpointDto| e.participant_guid@ != guid;
    assert forall|i: int| 0 <= i < endpoints.filter(pred).len() implies pred(
        #[trigger] endpoints.filter(pred)[i],
    ) by {
        endpoints.lemma_filter_pred(pred, i);
    }
}

/// Index of topic `name` in `s`, or -1.
pub open spec fn topic_index<H>(s: Seq<(String, H)>, name: Seq<char>) -> int {
    if exists|i: int| 0 <= i < s.len() && s[i].0@ == name {
        choose|i: int| 0 <= i < s.len() && s[i].0@ == name
    } else {
        -1
    }
}

/// Live subscriptions, one per topic name, each with the caller's handle.
pub struct Subscriptions<H> {
    items: Vec<(String, H)>,
}

impl<H> Subscriptions<H> {
    /// Topic names with their handles, in subscription order.
    pub closed spec fn entries(&self) -> Seq<(String, H)> {
        self.items@
    }

    /// No topic is subscribed twice.
    pub closed spec fn wf(&self) -> bool {
        forall|i: int, j: int|
            0 <= i < self.items@.len() && 0 <= j < self.items@.len() && i != j ==> self.items@[i].0@
                != self.items@[j].0@
    }

    /// No topic is subscribed twice.
    pub proof fn lemma_topics_distinct(&self)
        requires
            self.wf(),
        ensures
            forall|i: int, j: int|
                0 <= i < self.entries().len() && 0 <= j < self.entries().len() && i != j
                    ==> self.entries()[i].0@ != self.entries()[j].0@,
    {
    }

    pub fn new() -> (r: Self)
        ensures
            r.wf(),
            r.entries().len() == 0,
    {
        Subscriptions { items: Vec::new() }
    }

    fn find(&self, name: &str) -> (r: Option<usize>)
        requires
            self.wf(),
        ensures
            match r {
                Some(i) => i < self.items@.len() && topic_index(self.items@, name@) == i,
                None => topic_index(self.items@, name@) == -1,
            },
    {
        let key = name.to_owned();
        let n = self.items.len();
        let mut i: usize = 0;
        while i < n
            invariant
                n == self.items@.len(),
                i <= n,
                key@ == name@,
                self.wf(),
                forall|k: int| 0 <= k < i ==> self.items@[k].0@ != name@,
            decreases n - i,
        {
            if self.items[i].0 == key {
                proof {
                    assert(exists|k: int| 0 <= k < self.items@.len() && self.items@[k].0@ == name@);
                    let c = choose|k: int| 0 <= k < self.items@.len() && self.items@[k].0@ == name@;
                    assert(c == i);
                }
                return Some(i);
            }
            i = i + 1;
        }
        None
    }

    /// Whether `name` is subscribed.
    pub fn contains(&self, name: &str) -> (r: bool)
        requires
            self.wf(),
        ensures
            r == (topic_index(self.entries(), name@) >= 0),
    {
        self.find(name).is_some()
    }

    /// Record a subscription to a topic that has none.
    pub fn insert(&mut self, name: String, handle: H)
        requires
            old(self).wf(),
            topic_index(old(self).entries(), name@) == -1,
        ensures
            final(self).wf(),
            final(self).entries() == old(self).entries().push((name, handle)),
    {
        let ghost o = self.items@;
        let ghost k = name@;
        self.items.push((name, handle));
        proof {
            assert forall|a: int| 0 <= a < o.len() implies o[a].0@ != k by {
                if o[a].0@ == k {
                    assert(exists|i: int| 0 <= i < o.len() && o[i].0@ == k);
                }
            }
        }
    }

    /// Drop the subscription to `name`, handing back its handle; `None`
    /// when there is none.
    pub fn remove(&mut self, name: &str) -> (r: Option<H>)
        requires
            old(self).wf(),
        ensures
            final(self).wf(),
            ({
                let i = topic_index(old(self).entries(), name@);
                if i >= 0 {
                    r == Some(old(self).entries()[i].1) && final(self).entries() == old(
                        self,
                    ).entries().remove(i)
                } else {
                    r is None && final(self).entries() == old(self).entries()
                }
            }),
    {
        match self.find(name) {
            Some(i) => {
                let ghost o = self.items@;
                let (_, h) = self.items.remove(i);
                proof {
                    assert forall|a: int, b: int|
                        0 <= a < self.items@.len() && 0 <= b < self.items@.len() && a != b implies self.items@[a].0@
                        != self.items@[b].0@ by {
                        let a2 = if a < i { a } else { a + 1 };
                        let b2 = if b < i { b } else { b + 1 };
                        assert(self.items@[a] == o[a2]);
                        assert(self.items@[b] == o[b2]);
                    }
                }
                Some(h)
            },
            None => None,
        }
    }
}

} // verus!
