//! The telemetry service: the owner of the collector and of the two slot
//! index generators, and the activation switch that decides whether
//! records reach the collector at all.

use vstd::prelude::*;

use crate::assoc::assoc_insert;
use crate::indexing::{Key, Keyed, KeyGenerator, MapNamespace, Plain};
use crate::json::Json;
use crate::misc::{NamedStorage, SerializationFormat, Subset};
use crate::task::{KeyedStorage, Op, PlainStorage, TelemetryTask};

verus! {

/// The telemetry service. An application needs one (or more, but that
/// should seldom be necessary). The service owns the collector holding all
/// histogram storage; registering a histogram yields a handle carrying a
/// fresh slot index.
pub struct Service {
    /// A key generator for registration of new plain histograms.
    pub keys_plain: KeyGenerator<Plain>,
    /// A key generator for registration of new keyed histograms.
    pub keys_keyed: KeyGenerator<MapNamespace>,
    /// Whether recording is currently active.
    pub is_active: bool,
    /// The collector holding all the storage of this service.
    pub task: TelemetryTask,
}

/// What recording one flattened value into a plain histogram does to a
/// service: exactly the targeted slot's storage absorbs the value, and
/// everything else stands still.
pub open spec fn recorded_plain(pre: Service, post: Service, slot: int, v: u32) -> bool {
    &&& exists|s2: PlainStorage|
        #![auto]
        pre.task.plain_view()[slot].contents.store_rel(s2, v) && post.task.plain_view()
            == pre.task.plain_view().insert(
            slot,
            NamedStorage { name: pre.task.plain_view()[slot].name, contents: s2 },
        )
    &&& post.task.keyed_view() == pre.task.keyed_view()
    &&& post.task.keys.kv() == pre.task.keys.kv()
    &&& post.task.running == pre.task.running
    &&& post.is_active == pre.is_active
    &&& post.keys_plain == pre.keys_plain
    &&& post.keys_keyed == pre.keys_keyed
}

/// The keyed counterpart of `recorded_plain`.
pub open spec fn recorded_keyed(
    pre: Service,
    post: Service,
    slot: int,
    key: Seq<char>,
    v: u32,
) -> bool {
    &&& exists|s2: KeyedStorage|
        #![auto]
        pre.task.keyed_view()[slot].contents.store_rel(s2, key, v) && post.task.keyed_view()
            == pre.task.keyed_view().insert(
            slot,
            NamedStorage { name: pre.task.keyed_view()[slot].name, contents: s2 },
        )
    &&& post.task.plain_view() == pre.task.plain_view()
    &&& post.task.keys.kv() == pre.task.keys.kv()
    &&& post.task.running == pre.task.running
    &&& post.is_active == pre.is_active
    &&& post.keys_plain == pre.keys_plain
    &&& post.keys_keyed == pre.keys_keyed
}

impl Service {
    /// The service's invariant: a well-formed, running collector whose
    /// slots all lie below the generators' counters.
    pub open spec fn wf(&self) -> bool {
        &&& self.task.wf()
        &&& self.task.running
        &&& forall|k: int|
            #[trigger] self.task.plain_view().dom().contains(k) ==> 0 <= k
                < self.keys_plain.counter
        &&& forall|k: int|
            #[trigger] self.task.keyed_view().dom().contains(k) ==> 0 <= k
                < self.keys_keyed.counter
    }

    /// Creates a service with no histograms.
    pub fn new(is_active: bool) -> (r: Service)
        ensures
            r.wf(),
            r.is_active == is_active,
            r.task.plain_view() == Map::<int, NamedStorage<PlainStorage>>::empty(),
            r.task.keyed_view() == Map::<int, NamedStorage<KeyedStorage>>::empty(),
            r.task.keys.kv() == Seq::<(Seq<char>, ())>::empty(),
            r.keys_plain.counter == 0,
            r.keys_keyed.counter == 0,
    {
        Service {
            keys_plain: KeyGenerator::new(),
            keys_keyed: KeyGenerator::new(),
            is_active,
            task: TelemetryTask::new(),
        }
    }

    /// Serializes a subset of the histograms in a given format: an object
    /// mapping each included histogram's name to its rendering, names in
    /// lexicographic order.
    pub fn to_json(&self, what: Subset, format: SerializationFormat) -> (r: Json)
        requires
            self.wf(),
        ensures
            self.task.serialized_ok(what, format, r@),
    {
        self.task.serialize(what, format)
    }

    /// Makes the service (in)active. Data recorded on a histogram while
    /// the service is inactive is ignored.
    pub fn set_active(&mut self, value: bool)
        ensures
            final(self).is_active == value,
            final(self).task == old(self).task,
            final(self).keys_plain == old(self).keys_plain,
            final(self).keys_keyed == old(self).keys_keyed,
    {
        self.is_active = value;
    }

    /// Whether the service currently records.
    pub fn is_active(&self) -> (r: bool)
        ensures
            r == self.is_active,
    {
        self.is_active
    }

    /// Whether a histogram of this name is already registered.
    pub fn has_name(&self, name: &str) -> (r: bool)
        requires
            self.wf(),
        ensures
            r == self.task.has_name(name@),
    {
        match self.task.keys.find(name) {
            Option::Some(_) => true,
            Option::None => false,
        }
    }

    /// Registers a plain histogram, returning a fresh key.
    pub fn register_plain(&mut self, name: String, storage: PlainStorage) -> (r: Key<Plain>)
        requires
            old(self).wf(),
            !old(self).task.has_name(name@),
            storage.wf(),
            old(self).keys_plain.counter < usize::MAX,
        ensures
            final(self).wf(),
            r.index == old(self).keys_plain.counter,
            final(self).keys_plain.counter == old(self).keys_plain.counter + 1,
            final(self).keys_keyed == old(self).keys_keyed,
            final(self).is_active == old(self).is_active,
            final(self).task.plain_view() == old(self).task.plain_view().insert(
                r.index as int,
                NamedStorage { name, contents: storage },
            ),
            final(self).task.keyed_view() == old(self).task.keyed_view(),
            final(self).task.keys.kv() == assoc_insert(old(self).task.keys.kv(), name@, ()),
    {
        let key = self.keys_plain.next();
        let ghost pre = self.task;
        let _reply = self.task.process(Op::RegisterPlain(key.index, NamedStorage {
            name,
            contents: storage,
        }));
        key
    }

    /// Registers a keyed histogram, returning a fresh key.
    pub fn register_keyed<T>(&mut self, name: String, storage: KeyedStorage) -> (r: Key<Keyed<T>>)
        requires
            old(self).wf(),
            !old(self).task.has_name(name@),
            storage.wf(),
            old(self).keys_keyed.counter < usize::MAX,
        ensures
            final(self).wf(),
            r.index == old(self).keys_keyed.counter,
            final(self).keys_keyed.counter == old(self).keys_keyed.counter + 1,
            final(self).keys_plain == old(self).keys_plain,
            final(self).is_active == old(self).is_active,
            final(self).task.keyed_view() == old(self).task.keyed_view().insert(
                r.index as int,
                NamedStorage { name, contents: storage },
            ),
            final(self).task.plain_view() == old(self).task.plain_view(),
            final(self).task.keys.kv() == assoc_insert(old(self).task.keys.kv(), name@, ()),
    {
        let key = self.keys_keyed.next::<T>();
        let _reply = self.task.process(Op::RegisterKeyed(key.index, NamedStorage {
            name,
            contents: storage,
        }));
        key
    }
}

/// Backstage pass used inside the crate: the registration and activation
/// internals that the histogram constructors go through.
pub struct PrivateAccess;

impl PrivateAccess {
    /// Registers a plain histogram on behalf of a histogram constructor.
    pub fn register_plain(service: &mut Service, name: String, storage: PlainStorage) -> (r: Key<
        Plain,
    >)
        requires
            old(service).wf(),
            !old(service).task.has_name(name@),
            storage.wf(),
            old(service).keys_plain.counter < usize::MAX,
        ensures
            final(service).wf(),
            r.index == old(service).keys_plain.counter,
            final(service).keys_plain.counter == old(service).keys_plain.counter + 1,
            final(service).keys_keyed == old(service).keys_keyed,
            final(service).is_active == old(service).is_active,
            final(service).task.plain_view() == old(service).task.plain_view().insert(
                r.index as int,
                NamedStorage { name, contents: storage },
            ),
            final(service).task.keyed_view() == old(service).task.keyed_view(),
            final(service).task.keys.kv() == assoc_insert(
                old(service).task.keys.kv(),
                name@,
                (),
            ),
    {
        service.register_plain(name, storage)
    }

    /// Registers a keyed histogram on behalf of a histogram constructor.
    pub fn register_keyed<T>(service: &mut Service, name: String, storage: KeyedStorage) -> (r:
        Key<Keyed<T>>)
        requires
            old(service).wf(),
            !old(service).task.has_name(name@),
            storage.wf(),
            old(service).keys_keyed.counter < usize::MAX,
        ensures
            final(service).wf(),
            r.index == old(service).keys_keyed.counter,
            final(service).keys_keyed.counter == old(service).keys_keyed.counter + 1,
            final(service).keys_plain == old(service).keys_plain,
            final(service).is_active == old(service).is_active,
            final(service).task.keyed_view() == old(service).task.keyed_view().insert(
                r.index as int,
                NamedStorage { name, contents: storage },
            ),
            final(service).task.plain_view() == old(service).task.plain_view(),
            final(service).task.keys.kv() == assoc_insert(
                old(service).task.keys.kv(),
                name@,
                (),
            ),
    {
        service.register_keyed::<T>(name, storage)
    }

    /// Whether the service currently records.
    pub fn get_is_active(service: &Service) -> (r: bool)
        ensures
            r == service.is_active,
    {
        service.is_active
    }
}

} // verus!
