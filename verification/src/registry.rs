//! The component instances that have registered, and whether they are alive.
use crate::clock::now_millis;
use crate::protocol::ProtocolError;
use dashmap::DashMap;
use vstd::prelude::*;

verus! {

/// How an instance is connected: by a Unix domain socket at a path, or by TCP
/// at an address.
#[derive(Debug)]
pub enum Transport {
    Unix(String),
    Tcp(String),
}

impl Transport {
    /// Whether this is a Unix domain socket.
    pub fn is_unix(&self) -> (r: bool)
        ensures
            r == (*self is Unix),
    {
        matches!(self, Transport::Unix(_))
    }

    /// Whether this is TCP.
    pub fn is_tcp(&self) -> (r: bool)
        ensures
            r == (*self is Tcp),
    {
        matches!(self, Transport::Tcp(_))
    }
}

/// A registered component instance.
#[derive(Debug)]
pub struct InstanceConnection {
    pub component_id: String,
    /// When the instance was last heard of, in milliseconds since the epoch.
    pub last_heartbeat: u64,
}

/// The value of an [`InstanceConnection`].
#[verifier::ext_equal]
pub struct InstanceModel {
    pub component_id: Seq<char>,
    pub last_heartbeat: u64,
}

impl View for InstanceConnection {
    type V = InstanceModel;

    open spec fn view(&self) -> InstanceModel {
        InstanceModel { component_id: self.component_id@, last_heartbeat: self.last_heartbeat }
    }
}

impl Clone for InstanceConnection {
    fn clone(&self) -> (r: Self)
        ensures
            r@ == self@,
    {
        InstanceConnection { component_id: self.component_id.clone(), last_heartbeat: self.last_heartbeat }
    }
}

/// Whether an instance was heard of within the timeout before `now`. One that
/// was heard of after `now`, by a clock that has been set back since, was not.
pub open spec fn healthy(c: InstanceModel, timeout_secs: u64, now: u64) -> bool {
    now >= c.last_heartbeat && now - c.last_heartbeat < timeout_secs * 1000
}

impl InstanceConnection {
    /// An instance that is heard of at the time `now`.
    pub fn new_at(component_id: String, now: u64) -> (c: InstanceConnection)
        ensures
            c@ == (InstanceModel { component_id: component_id@, last_heartbeat: now }),
    {
        InstanceConnection { component_id, last_heartbeat: now }
    }

    /// An instance that is heard of now.
    pub fn new(component_id: String) -> (c: InstanceConnection)
        ensures
            c@.component_id == component_id@,
    {
        InstanceConnection::new_at(component_id, now_millis())
    }

    /// Notes that the instance was heard of at the time `now`.
    pub fn heartbeat_at(&mut self, now: u64)
        ensures
            final(self)@ == (InstanceModel { last_heartbeat: now, ..old(self)@ }),
    {
        self.last_heartbeat = now;
    }

    /// Notes that the instance was heard of now.
    pub fn heartbeat(&mut self)
        ensures
            final(self)@.component_id == old(self)@.component_id,
    {
        self.heartbeat_at(now_millis());
    }

    /// Whether the instance was heard of within the timeout before `now`.
    pub fn is_healthy_at(&self, timeout_secs: u64, now: u64) -> (r: bool)
        ensures
            r == healthy(self@, timeout_secs, now),
    {
        now >= self.last_heartbeat && (now - self.last_heartbeat) / 1000 < timeout_secs
    }

    /// Whether the instance was heard of within the timeout.
    pub fn is_healthy(&self, timeout_secs: u64) -> (r: bool)
        ensures
            exists|now: u64| r == #[trigger] healthy(self@, timeout_secs, now),
    {
        let now: u64 = now_millis();
        let r: bool = self.is_healthy_at(timeout_secs, now);
        assert(r == healthy(self@, timeout_secs, now));
        r
    }
}

/// The instances that a table holds, by component id.
pub uninterp spec fn instance_table(m: DashMap<String, InstanceConnection>) -> Map<Seq<char>, InstanceModel>;

/// `DashMap::new`: a table without entries.
#[verifier::external_body]
fn instances_new() -> (m: DashMap<String, InstanceConnection>)
    ensures
        instance_table(m) == (Map::<Seq<char>, InstanceModel>::empty()),
{
    DashMap::new()
}

/// `DashMap::get`, handing out a copy of the entry: the instance under `id`, if
/// the table has one.
#[verifier::external_body]
fn instances_get(m: &DashMap<String, InstanceConnection>, id: &str) -> (r: Option<InstanceConnection>)
    ensures
        match r {
            Some(c) => instance_table(*m).contains_key(id@) && c@ == instance_table(*m)[id@],
            None => !instance_table(*m).contains_key(id@),
        },
{
    m.get(id).map(|c| c.value().clone())
}

/// `DashMap::insert`: puts the instance under `id`, in place of the one that
/// was there.
#[verifier::external_body]
fn instances_insert(m: &mut DashMap<String, InstanceConnection>, id: String, c: InstanceConnection)
    ensures
        instance_table(*final(m)) == instance_table(*old(m)).insert(id@, c@),
{
    let _ = m.insert(id, c);
}

/// `DashMap::remove`: takes the instance under `id` out of the table.
#[verifier::external_body]
fn instances_remove(m: &mut DashMap<String, InstanceConnection>, id: &str)
    ensures
        instance_table(*final(m)) == instance_table(*old(m)).remove(id@),
{
    let _ = m.remove(id);
}

/// `DashMap::iter`, handing out copies of the keys: each id of the table once,
/// in an order that is left open.
#[verifier::external_body]
fn instances_ids(m: &DashMap<String, InstanceConnection>) -> (r: Vec<String>)
    ensures
        id_texts(r@).no_duplicates(),
        id_texts(r@).to_set() == instance_table(*m).dom(),
{
    m.iter().map(|c| c.key().clone()).collect()
}

/// `DashMap::retain` with [`InstanceConnection::is_healthy_at`]: keeps the
/// instances that are healthy at the time `now`.
#[verifier::external_body]
fn instances_retain_healthy(m: &mut DashMap<String, InstanceConnection>, timeout_secs: u64, now: u64)
    ensures
        instance_table(*final(m)) == healthy_only(instance_table(*old(m)), timeout_secs, now),
{
    m.retain(|_, c| c.is_healthy_at(timeout_secs, now));
}

/// The values of some ids.
pub open spec fn id_texts(ids: Seq<String>) -> Seq<Seq<char>> {
    ids.map_values(|id: String| id@)
}

/// The instances that are healthy at the time `now`.
pub open spec fn healthy_only(m: Map<Seq<char>, InstanceModel>, timeout_secs: u64, now: u64) -> Map<
    Seq<char>,
    InstanceModel,
> {
    m.restrict(Set::new(|id: Seq<char>| healthy(m[id], timeout_secs, now)))
}

/// The registered component instances, one for each component id.
pub struct InstanceRegistry {
    instances: DashMap<String, InstanceConnection>,
    timeout_secs: u64,
}

/// The value of an [`InstanceRegistry`].
#[verifier::ext_equal]
pub struct RegistryModel {
    pub instances: Map<Seq<char>, InstanceModel>,
    pub timeout_secs: u64,
}

impl View for InstanceRegistry {
    type V = RegistryModel;

    closed spec fn view(&self) -> RegistryModel {
        RegistryModel { instances: instance_table(self.instances), timeout_secs: self.timeout_secs }
    }
}

/// The registry once an instance was heard of at the time `now`.
pub open spec fn with_instance(r: RegistryModel, component_id: Seq<char>, now: u64) -> RegistryModel {
    RegistryModel {
        instances: r.instances.insert(component_id, InstanceModel { component_id, last_heartbeat: now }),
        ..r
    }
}

/// The registry once a heartbeat of an instance has come at the time `now`.
pub open spec fn with_heartbeat(r: RegistryModel, component_id: Seq<char>, now: u64) -> RegistryModel {
    if r.instances.contains_key(component_id) {
        RegistryModel {
            instances: r.instances.insert(
                component_id,
                InstanceModel { last_heartbeat: now, ..r.instances[component_id] },
            ),
            ..r
        }
    } else {
        r
    }
}

/// The registry once the instances that are stale at the time `now` are gone.
pub open spec fn evicted(r: RegistryModel, now: u64) -> RegistryModel {
    RegistryModel { instances: healthy_only(r.instances, r.timeout_secs, now), ..r }
}

/// Whether a component has a healthy instance at the time `now`.
pub open spec fn has_healthy(r: RegistryModel, component_id: Seq<char>, now: u64) -> bool {
    r.instances.contains_key(component_id) && healthy(r.instances[component_id], r.timeout_secs, now)
}

impl InstanceRegistry {
    /// A registry without instances, in which an instance is stale after
    /// `timeout_secs` without a heartbeat.
    pub fn new(timeout_secs: u64) -> (r: InstanceRegistry)
        ensures
            r@ == (RegistryModel { instances: Map::empty(), timeout_secs }),
    {
        InstanceRegistry { instances: instances_new(), timeout_secs }
    }

    /// Registers an instance at the time `now`, in place of the one that the
    /// component had.
    pub fn register_at(&mut self, component_id: String, now: u64)
        ensures
            final(self)@ == with_instance(old(self)@, component_id@, now),
    {
        let c: InstanceConnection = InstanceConnection::new_at(component_id.clone(), now);
        instances_insert(&mut self.instances, component_id, c);
    }

    /// Registers an instance, in place of the one that the component had.
    pub fn register(&mut self, component_id: String) -> (r: Result<(), ProtocolError>)
        ensures
            r is Ok,
            exists|now: u64| final(self)@ == #[trigger] with_instance(old(self)@, component_id@, now),
    {
        self.register_at(component_id, now_millis());
        Ok(())
    }

    /// Takes the instance of a component out of the registry.
    pub fn unregister(&mut self, component_id: &str)
        ensures
            final(self)@ == (RegistryModel { instances: old(self)@.instances.remove(component_id@), ..old(self)@ }),
    {
        instances_remove(&mut self.instances, component_id);
    }

    /// Notes a heartbeat of an instance at the time `now`.
    pub fn heartbeat_at(&mut self, component_id: &str, now: u64)
        ensures
            final(self)@ == with_heartbeat(old(self)@, component_id@, now),
    {
        if let Some(c) = instances_get(&self.instances, component_id) {
            let mut c: InstanceConnection = c;
            c.heartbeat_at(now);
            instances_insert(&mut self.instances, component_id.to_owned(), c);
        }
    }

    /// Notes a heartbeat of an instance.
    pub fn heartbeat(&mut self, component_id: &str)
        ensures
            exists|now: u64| final(self)@ == #[trigger] with_heartbeat(old(self)@, component_id@, now),
    {
        self.heartbeat_at(component_id, now_millis());
    }

    /// The instance of a component, as it is now. Later heartbeats go through
    /// [`InstanceRegistry::heartbeat`].
    pub fn get(&self, component_id: &str) -> (r: Option<InstanceConnection>)
        ensures
            match r {
                Some(c) => self@.instances.contains_key(component_id@) && c@ == self@.instances[component_id@],
                None => !self@.instances.contains_key(component_id@),
            },
    {
        instances_get(&self.instances, component_id)
    }

    /// Whether a component has a healthy instance at the time `now`.
    pub fn is_healthy_at(&self, component_id: &str, now: u64) -> (r: bool)
        ensures
            r == has_healthy(self@, component_id@, now),
    {
        match instances_get(&self.instances, component_id) {
            Some(c) => c.is_healthy_at(self.timeout_secs, now),
            None => false,
        }
    }

    /// Whether a component has a healthy instance.
    pub fn is_healthy(&self, component_id: &str) -> (r: bool)
        ensures
            exists|now: u64| r == #[trigger] has_healthy(self@, component_id@, now),
    {
        let now: u64 = now_millis();
        let r: bool = self.is_healthy_at(component_id, now);
        assert(r == has_healthy(self@, component_id@, now));
        r
    }

    /// The ids of the components that have an instance, each once.
    pub fn list(&self) -> (r: Vec<String>)
        ensures
            id_texts(r@).no_duplicates(),
            id_texts(r@).to_set() == self@.instances.dom(),
    {
        instances_ids(&self.instances)
    }

    /// Removes the instances that are stale at the time `now`.
    pub fn evict_stale_at(&mut self, now: u64)
        ensures
            final(self)@ == evicted(old(self)@, now),
    {
        instances_retain_healthy(&mut self.instances, self.timeout_secs, now);
    }

    /// Removes stale instances.
    pub fn evict_stale(&mut self)
        ensures
            exists|now: u64| final(self)@ == #[trigger] evicted(old(self)@, now),
    {
        self.evict_stale_at(now_millis());
    }
}

/// After an eviction exactly the instances that were healthy are left, each as
/// it was.
pub proof fn law_eviction_exact(r: RegistryModel, now: u64, id: Seq<char>)
    ensures
        evicted(r, now).instances.contains_key(id) <==> has_healthy(r, id, now),
        has_healthy(r, id, now) ==> evicted(r, now).instances[id] == r.instances[id],
{
}

/// An instance that registers or sends a heartbeat survives every eviction
/// until its timeout has passed.
pub proof fn law_heartbeat_keeps_alive(r: RegistryModel, id: Seq<char>, then: u64, now: u64)
    requires
        then <= now,
        now - then < r.timeout_secs * 1000,
    ensures
        evicted(with_instance(r, id, then), now).instances.contains_key(id),
        r.instances.contains_key(id) ==> evicted(with_heartbeat(r, id, then), now).instances.contains_key(id),
{
}

/// Who is healthy: a component that has an instance which was heard of no later
/// than now, and less than the timeout before. An eviction leaves exactly these,
/// each as it was, and the timeout.
pub proof fn law_health_is_recent(r: RegistryModel, now: u64, id: Seq<char>)
    ensures
        ({
            let recent = r.instances[id].last_heartbeat <= now && now - r.instances[id].last_heartbeat
                < 1000 * r.timeout_secs;
            let left = evicted(r, now);
            &&& has_healthy(r, id, now) <==> r.instances.contains_key(id) && recent
            &&& left.instances.contains_key(id) <==> r.instances.contains_key(id) && recent
            &&& left.instances.contains_key(id) ==> left.instances[id] == r.instances[id]
            &&& left.timeout_secs == r.timeout_secs
        }),
        forall|c: InstanceModel, timeout_secs: u64| #[trigger]
            healthy(c, timeout_secs, now) <==> c.last_heartbeat <= now && now - c.last_heartbeat < 1000 * timeout_secs,
{
}

/// A registration enters the component with the time, whatever was known of it;
/// a heartbeat notes the time for a component that is there, and nothing for one
/// that is not. Neither touches any other component or the timeout.
pub proof fn law_registration_notes_time(r: RegistryModel, id: Seq<char>, now: u64, other: Seq<char>)
    ensures
        ({
            let t = with_instance(r, id, now);
            &&& t.instances.contains_key(id)
            &&& t.instances[id].component_id == id
            &&& t.instances[id].last_heartbeat == now
            &&& t.timeout_secs == r.timeout_secs
            &&& other != id ==> t.instances.contains_key(other) == r.instances.contains_key(other)
                && t.instances[other] == r.instances[other]
        }),
        ({
            let t = with_heartbeat(r, id, now);
            &&& t.instances.contains_key(id) <==> r.instances.contains_key(id)
            &&& r.instances.contains_key(id) ==> t.instances[id].last_heartbeat == now && t.instances[id].component_id
                == r.instances[id].component_id
            &&& !r.instances.contains_key(id) ==> t == r
            &&& t.timeout_secs == r.timeout_secs
            &&& other != id ==> t.instances.contains_key(other) == r.instances.contains_key(other)
                && t.instances[other] == r.instances[other]
        }),
{
}

/// The value of an instance holds all of it, and the values of ids are those of
/// each, in order.
pub proof fn law_instance_values(c: InstanceConnection, ids: Seq<String>)
    ensures
        c@.component_id == c.component_id@,
        c@.last_heartbeat == c.last_heartbeat,
        id_texts(ids).len() == ids.len(),
        forall|i: int| 0 <= i < ids.len() ==> #[trigger] id_texts(ids)[i] == ids[i]@,
{
}

} // verus!
