//! An alternative front end around the same collector: histograms are
//! grouped under features that can be switched on and off together, and a
//! histogram may carry an expiration version, after which registration
//! quietly yields a handle that never records.

use vstd::prelude::*;

use crate::assoc::{assoc_insert, assoc_sorted, assoc_views, lemma_assoc_insert_entries,
    lemma_assoc_map_dom, SortedMap};
use crate::indexing::{Key, Keyed, KeyGenerator, MapNamespace, Plain};
use crate::json::{entries_view, lemma_entries_view_len, Json, JsonModel};
use crate::keyed::{AsKey, KeyedFlagStorage, KeyedLinearStorage};
use crate::misc::{LinearBuckets, LinearStats, NamedStorage};
use crate::plain::{FlagStorage, LinearStorage};
use crate::task::{KeyedStorage, Op, PlainStorage, TelemetryTask};
use crate::vecmap::{keyed_map_get, keyed_map_keys, plain_map_get, plain_map_keys};

verus! {

/// A software version, by which histograms may expire.
pub type Version = [u32; 4];

/// Is version `a` at or below version `b`, comparing the four numbers
/// lexicographically?
pub open spec fn version_le_spec(a: Version, b: Version) -> bool {
    if a@[0] != b@[0] {
        a@[0] < b@[0]
    } else if a@[1] != b@[1] {
        a@[1] < b@[1]
    } else if a@[2] != b@[2] {
        a@[2] < b@[2]
    } else {
        a@[3] <= b@[3]
    }
}

/// Compares two versions, lexicographically by component.
pub fn version_le(a: &Version, b: &Version) -> (r: bool)
    ensures
        r == version_le_spec(*a, *b),
{
    if a[0] != b[0] {
        a[0] < b[0]
    } else if a[1] != b[1] {
        a[1] < b[1]
    } else if a[2] != b[2] {
        a[2] < b[2]
    } else {
        a[3] <= b[3]
    }
}

/// Metadata on a histogram.
pub struct Metadata {
    /// A key used to identify the histogram. Must be unique to the
    /// instance of `Telemetry`.
    pub key: String,
    /// Optionally, a version of the product at which this histogram
    /// expires.
    pub expires: Option<Version>,
}

impl Metadata {
    /// Has this histogram expired at the given product version?
    pub open spec fn expired(&self, version: Version) -> bool {
        match self.expires {
            Option::Some(v) => version_le_spec(v, version),
            Option::None => false,
        }
    }
}

/// A value that can be represented as a `u32`.
pub trait Flatten: Sized {
    /// The number this value stands for.
    spec fn flatten_spec(&self) -> u32;

    /// Flattens this value to the number it stands for.
    fn as_u32(&self) -> (r: u32)
        ensures
            r == self.flatten_spec(),
    ;
}

impl Flatten for u32 {
    open spec fn flatten_spec(&self) -> u32 {
        *self
    }

    fn as_u32(&self) -> (r: u32)
        ensures
            r == self.flatten_spec(),
    {
        *self
    }
}

/// The serialization format of this front end.
#[derive(Clone, Copy)]
pub enum SerializationFormat {
    /// A simple JSON-based format: flags as booleans, counters and
    /// bucketed histograms as numbers and arrays, keyed histograms as
    /// objects with their keys sorted.
    Simple,
}

/// The telemetry service of this front end: the owner of the collector,
/// the slot generators and the product version.
pub struct Telemetry {
    /// The version of the product. Some histograms may be limited to
    /// specific versions of the product.
    pub version: Version,
    /// A key generator for registration of flat histograms.
    pub keys_flat: KeyGenerator<Plain>,
    /// A key generator for registration of keyed histograms.
    pub keys_keyed: KeyGenerator<MapNamespace>,
    /// The collector holding all the storage of this instance.
    pub task: TelemetryTask,
}

/// A group of histograms observed together: they record only while their
/// feature is active.
pub struct Feature {
    /// Are measurements active for this feature?
    pub is_active: bool,
}

impl Feature {
    /// Creates a new feature. New features are deactivated by default.
    pub fn new(telemetry: &Telemetry) -> (r: Feature)
        ensures
            r.is_active == false,
    {
        Feature { is_active: false }
    }
}

/// What recording one flattened value into a flat histogram does to a
/// `Telemetry`: exactly the targeted slot's storage absorbs the value.
pub open spec fn recorded_flat(pre: Telemetry, post: Telemetry, slot: int, v: u32) -> bool {
    &&& exists|s2: PlainStorage|
        #![auto]
        pre.task.plain_view()[slot].contents.store_rel(s2, v) && post.task.plain_view()
            == pre.task.plain_view().insert(
            slot,
            NamedStorage { name: pre.task.plain_view()[slot].name, contents: s2 },
        )
    &&& post.task.keyed_view() == pre.task.keyed_view()
    &&& post.task.keys.kv() == pre.task.keys.kv()
    &&& post.task.running == pre.task.running
    &&& post.version == pre.version
    &&& post.keys_flat == pre.keys_flat
    &&& post.keys_keyed == pre.keys_keyed
}

/// The keyed counterpart of `recorded_flat`.
pub open spec fn recorded_map(
    pre: Telemetry,
    post: Telemetry,
    slot: int,
    key: Seq<char>,
    v: u32,
) -> bool {
    &&& exists|s2: KeyedStorage|
        #![auto]
        pre.task.keyed_view()[slot].contents.store_rel(s2, key, v) && post.task.keyed_view()
            == pre.task.keyed_view().insert(
            slot,
            NamedStorage { name: pre.task.keyed_view()[slot].name, contents: s2 },
        )
    &&& post.task.plain_view() == pre.task.plain_view()
    &&& post.task.keys.kv() == pre.task.keys.kv()
    &&& post.task.running == pre.task.running
    &&& post.version == pre.version
    &&& post.keys_flat == pre.keys_flat
    &&& post.keys_keyed == pre.keys_keyed
}

/// How a flat histogram renders in the `Simple` format: flags as a
/// boolean, everything else as in the compact format.
pub open spec fn render_flat_simple(s: PlainStorage) -> JsonModel {
    match s {
        PlainStorage::Flag(f) => JsonModel::Bool(f.encountered),
        PlainStorage::Linear(l) => l.render_simple(),
        PlainStorage::Count(c) => c.render_simple(),
        PlainStorage::Enum(e) => e.render_simple(),
    }
}

/// Renders a flat histogram in the `Simple` format.
fn flat_to_simple_json(s: &PlainStorage) -> (r: Json)
    requires
        s.wf(),
    ensures
        r@ == render_flat_simple(*s),
{
    match s {
        PlainStorage::Flag(f) => Json::Boolean(f.encountered),
        PlainStorage::Linear(l) => l.to_simple_json(),
        PlainStorage::Count(c) => c.to_simple_json(),
        PlainStorage::Enum(e) => e.to_simple_json(),
    }
}

impl Telemetry {
    /// The invariant: a well-formed, running collector whose slots all lie
    /// below the generators' counters.
    pub open spec fn wf(&self) -> bool {
        &&& self.task.wf()
        &&& self.task.running
        &&& forall|k: int|
            #[trigger] self.task.plain_view().dom().contains(k) ==> 0 <= k
                < self.keys_flat.counter
        &&& forall|k: int|
            #[trigger] self.task.keyed_view().dom().contains(k) ==> 0 <= k
                < self.keys_keyed.counter
    }

    /// Creates a telemetry instance with no histograms, for a product of
    /// the given version.
    pub fn new(version: Version) -> (r: Telemetry)
        ensures
            r.wf(),
            r.version == version,
            r.task.plain_view() == Map::<int, NamedStorage<PlainStorage>>::empty(),
            r.task.keyed_view() == Map::<int, NamedStorage<KeyedStorage>>::empty(),
            r.task.keys.kv() == Seq::<(Seq<char>, ())>::empty(),
            r.keys_flat.counter == 0,
            r.keys_keyed.counter == 0,
    {
        Telemetry {
            version,
            keys_flat: KeyGenerator::new(),
            keys_keyed: KeyGenerator::new(),
            task: TelemetryTask::new(),
        }
    }

    /// Is `e` a correct serialized entry of the flat histograms?
    pub open spec fn flat_entry_matches(&self, e: (Seq<char>, JsonModel)) -> bool {
        exists|k: int|
            #![auto]
            self.task.plain_view().dom().contains(k) && self.task.plain_view()[k].name@ == e.0
                && render_flat_simple(self.task.plain_view()[k].contents) == e.1
    }

    /// Is `e` a correct serialized entry of the keyed histograms?
    pub open spec fn keyed_entry_matches(&self, e: (Seq<char>, JsonModel)) -> bool {
        exists|k: int|
            #![auto]
            self.task.keyed_view().dom().contains(k) && self.task.keyed_view()[k].name@ == e.0
                && self.task.keyed_view()[k].contents.render_spec(
                crate::misc::SerializationFormat::SimpleJson,
            ) == e.1
    }

    /// What the flat snapshot is: an object, sorted by histogram name,
    /// with one correct entry per flat histogram and nothing else.
    pub open spec fn serialized_flat_ok(&self, m: JsonModel) -> bool {
        match m {
            JsonModel::Obj(es) => {
                &&& assoc_sorted(es)
                &&& forall|i: int| 0 <= i < es.len() ==> self.flat_entry_matches(#[trigger] es[i])
                &&& forall|k: int|
                    #[trigger] self.task.plain_view().dom().contains(k) ==> exists|i: int|
                        0 <= i < es.len() && es[i].0 == self.task.plain_view()[k].name@
            },
            _ => false,
        }
    }

    /// What the keyed snapshot is: an object, sorted by histogram name,
    /// with one correct entry per keyed histogram and nothing else.
    pub open spec fn serialized_keyed_ok(&self, m: JsonModel) -> bool {
        match m {
            JsonModel::Obj(es) => {
                &&& assoc_sorted(es)
                &&& forall|i: int| 0 <= i < es.len() ==> self.keyed_entry_matches(#[trigger] es[i])
                &&& forall|k: int|
                    #[trigger] self.task.keyed_view().dom().contains(k) ==> exists|i: int|
                        0 <= i < es.len() && es[i].0 == self.task.keyed_view()[k].name@
            },
            _ => false,
        }
    }

    /// Builds the two snapshots — flat histograms and keyed histograms —
    /// in the given format, names in lexicographic order.
    #[verifier::rlimit(50)]
    pub fn serialize(&self, format: SerializationFormat) -> (r: (Json, Json))
        requires
            self.wf(),
        ensures
            self.serialized_flat_ok(r.0@),
            self.serialized_keyed_ok(r.1@),
    {
        let mut flat_out: SortedMap<Json> = SortedMap::new();
        let ks = plain_map_keys(&self.task.plain);
        let mut i: usize = 0;
        while i < ks.len()
            invariant
                self.wf(),
                flat_out.wf(),
                i <= ks@.len(),
                forall|j: int|
                    0 <= j < ks@.len() ==> self.task.plain_view().dom().contains(
                        #[trigger] ks@[j] as int,
                    ),
                forall|mi: int|
                    0 <= mi < flat_out.kv().len() ==> self.flat_entry_matches(
                        ((#[trigger] flat_out.kv()[mi]).0, flat_out.kv()[mi].1@),
                    ),
                forall|j: int|
                    0 <= j < i ==> flat_out.map_view().dom().contains(
                        (#[trigger] self.task.plain_view()[ks@[j] as int].name)@,
                    ),
            decreases ks@.len() - i,
        {
            match plain_map_get(&self.task.plain, ks[i]) {
                Option::Some(ns) => {
                    let piece = flat_to_simple_json(&ns.contents);
                    let ghost pre = flat_out.kv();
                    flat_out.insert(ns.name.clone(), piece);
                    proof {
                        lemma_assoc_insert_entries(pre, ns.name@, piece);
                    }
                },
                Option::None => {
                    proof {
                        assert(false);
                    }
                },
            }
            i = i + 1;
        }
        proof {
            assert forall|k: int| #[trigger]
                self.task.plain_view().dom().contains(k) implies flat_out.map_view().dom()
                .contains(self.task.plain_view()[k].name@) by {
                let j = choose|j: int| 0 <= j < ks@.len() && ks@[j] as int == k;
                assert(flat_out.map_view().dom().contains(
                    self.task.plain_view()[ks@[j] as int].name@,
                ));
            }
        }
        let mut keyed_out: SortedMap<Json> = SortedMap::new();
        let kks = keyed_map_keys(&self.task.keyed);
        let mut i: usize = 0;
        while i < kks.len()
            invariant
                self.wf(),
                keyed_out.wf(),
                i <= kks@.len(),
                forall|j: int|
                    0 <= j < kks@.len() ==> self.task.keyed_view().dom().contains(
                        #[trigger] kks@[j] as int,
                    ),
                forall|mi: int|
                    0 <= mi < keyed_out.kv().len() ==> self.keyed_entry_matches(
                        ((#[trigger] keyed_out.kv()[mi]).0, keyed_out.kv()[mi].1@),
                    ),
                forall|j: int|
                    0 <= j < i ==> keyed_out.map_view().dom().contains(
                        (#[trigger] self.task.keyed_view()[kks@[j] as int].name)@,
                    ),
            decreases kks@.len() - i,
        {
            match keyed_map_get(&self.task.keyed, kks[i]) {
                Option::Some(ns) => {
                    let piece = ns.contents.to_json(&crate::misc::SerializationFormat::SimpleJson);
                    let ghost pre = keyed_out.kv();
                    keyed_out.insert(ns.name.clone(), piece);
                    proof {
                        lemma_assoc_insert_entries(pre, ns.name@, piece);
                    }
                },
                Option::None => {
                    proof {
                        assert(false);
                    }
                },
            }
            i = i + 1;
        }
        proof {
            assert forall|k: int| #[trigger]
                self.task.keyed_view().dom().contains(k) implies keyed_out.map_view().dom()
                .contains(self.task.keyed_view()[k].name@) by {
                let j = choose|j: int| 0 <= j < kks@.len() && kks@[j] as int == k;
                assert(keyed_out.map_view().dom().contains(
                    self.task.keyed_view()[kks@[j] as int].name@,
                ));
            }
        }
        let flat = Json::Object(flat_out.entries);
        let keyed = Json::Object(keyed_out.entries);
        proof {
            lemma_entries_view_len(flat_out.entries@);
            assert(entries_view(flat_out.entries@) =~= assoc_views(flat_out.kv()));
            let es = entries_view(flat_out.entries@);
            assert forall|mi: int| 0 <= mi < es.len() implies self.flat_entry_matches(
                es[mi],
            ) by {
                assert(es[mi] == (flat_out.kv()[mi].0, flat_out.kv()[mi].1@));
            }
            assert forall|k: int| #[trigger]
                self.task.plain_view().dom().contains(k) implies exists|i: int|
                0 <= i < es.len() && es[i].0 == self.task.plain_view()[k].name@ by {
                lemma_assoc_map_dom(flat_out.kv(), self.task.plain_view()[k].name@);
                let mi = choose|mi: int|
                    0 <= mi < flat_out.kv().len() && flat_out.kv()[mi].0 == self.task.plain_view()[
                        k
                    ].name@;
                assert(es[mi].0 == self.task.plain_view()[k].name@);
            }
            assert(self.serialized_flat_ok(flat@));
            lemma_entries_view_len(keyed_out.entries@);
            assert(entries_view(keyed_out.entries@) =~= assoc_views(keyed_out.kv()));
            let kes = entries_view(keyed_out.entries@);
            assert forall|mi: int| 0 <= mi < kes.len() implies self.keyed_entry_matches(
                kes[mi],
            ) by {
                assert(kes[mi] == (keyed_out.kv()[mi].0, keyed_out.kv()[mi].1@));
            }
            assert forall|k: int| #[trigger]
                self.task.keyed_view().dom().contains(k) implies exists|i: int|
                0 <= i < kes.len() && kes[i].0 == self.task.keyed_view()[k].name@ by {
                lemma_assoc_map_dom(keyed_out.kv(), self.task.keyed_view()[k].name@);
                let mi = choose|mi: int|
                    0 <= mi < keyed_out.kv().len() && keyed_out.kv()[mi].0
                        == self.task.keyed_view()[k].name@;
                assert(kes[mi].0 == self.task.keyed_view()[k].name@);
            }
            assert(self.serialized_keyed_ok(keyed@));
        }
        (flat, keyed)
    }

    /// Registers a flat histogram, returning a fresh key — unless the
    /// histogram has expired at this product version, in which case
    /// nothing is registered and no key comes back.
    pub fn register_flat(&mut self, meta: Metadata, storage: PlainStorage) -> (r: Option<
        Key<Plain>,
    >)
        requires
            old(self).wf(),
            !old(self).task.has_name(meta.key@),
            storage.wf(),
            old(self).keys_flat.counter < usize::MAX,
        ensures
            final(self).wf(),
            final(self).version == old(self).version,
            meta.expired(old(self).version) ==> r is None && *final(self) == *old(self),
            !meta.expired(old(self).version) ==> {
                &&& r matches Option::Some(key)
                &&& key.index == old(self).keys_flat.counter
                &&& final(self).keys_flat.counter == old(self).keys_flat.counter + 1
                &&& final(self).keys_keyed == old(self).keys_keyed
                &&& final(self).task.plain_view() == old(self).task.plain_view().insert(
                    key.index as int,
                    NamedStorage { name: meta.key, contents: storage },
                )
                &&& final(self).task.keyed_view() == old(self).task.keyed_view()
                &&& final(self).task.keys.kv() == assoc_insert(
                    old(self).task.keys.kv(),
                    meta.key@,
                    (),
                )
            },
    {
        let expired = match &meta.expires {
            Option::Some(v) => version_le(v, &self.version),
            Option::None => false,
        };
        if expired {
            return Option::None;
        }
        let key = self.keys_flat.next();
        let _reply = self.task.process(Op::RegisterPlain(key.index, NamedStorage {
            name: meta.key,
            contents: storage,
        }));
        Option::Some(key)
    }

    /// Registers a keyed histogram, returning a fresh key — unless the
    /// histogram has expired at this product version.
    pub fn register_keyed<T>(&mut self, meta: Metadata, storage: KeyedStorage) -> (r: Option<
        Key<Keyed<T>>,
    >)
        requires
            old(self).wf(),
            !old(self).task.has_name(meta.key@),
            storage.wf(),
            old(self).keys_keyed.counter < usize::MAX,
        ensures
            final(self).wf(),
            final(self).version == old(self).version,
            meta.expired(old(self).version) ==> r is None && *final(self) == *old(self),
            !meta.expired(old(self).version) ==> {
                &&& r matches Option::Some(key)
                &&& key.index == old(self).keys_keyed.counter
                &&& final(self).keys_keyed.counter == old(self).keys_keyed.counter + 1
                &&& final(self).keys_flat == old(self).keys_flat
                &&& final(self).task.keyed_view() == old(self).task.keyed_view().insert(
                    key.index as int,
                    NamedStorage { name: meta.key, contents: storage },
                )
                &&& final(self).task.plain_view() == old(self).task.plain_view()
                &&& final(self).task.keys.kv() == assoc_insert(
                    old(self).task.keys.kv(),
                    meta.key@,
                    (),
                )
            },
    {
        let expired = match &meta.expires {
            Option::Some(v) => version_le(v, &self.version),
            Option::None => false,
        };
        if expired {
            return Option::None;
        }
        let key = self.keys_keyed.next::<T>();
        let _reply = self.task.process(Op::RegisterKeyed(key.index, NamedStorage {
            name: meta.key,
            contents: storage,
        }));
        Option::Some(key)
    }
}

/// The connection a histogram of this front end keeps: its slot, if the
/// histogram was accepted (an expired histogram has none), and a local
/// activation switch.
pub struct BackEnd<K> {
    /// The slot, or nothing if the histogram expired at registration.
    pub key: Option<Key<K>>,
    /// `true` unless the histogram has been deactivated by user request.
    pub is_active: bool,
}

impl<K> BackEnd<K> {
    /// Creates a back-end from the registration's outcome.
    pub fn new(feature: &Feature, key: Option<Key<K>>) -> (r: BackEnd<K>)
        ensures
            r.key == key,
            r.is_active == true,
    {
        BackEnd { key, is_active: true }
    }

    /// The key, if this histogram and its feature are both active and the
    /// histogram has not expired.
    pub fn get_key<'a>(&'a self, feature: &Feature) -> (r: Option<&'a Key<K>>)
        ensures
            match r {
                Option::Some(k) => self.is_active && feature.is_active && self.key
                    == Option::Some(*k),
                Option::None => !self.is_active || !feature.is_active || self.key is None,
            },
    {
        if !self.is_active {
            return Option::None;
        }
        if !feature.is_active {
            return Option::None;
        }
        match &self.key {
            Option::None => Option::None,
            Option::Some(k) => Option::Some(k),
        }
    }
}

/// A flag histogram of this front end: unset until the first record while
/// active, set forever after.
pub struct FlagFront<K> {
    pub back_end: BackEnd<K>,
}

/// A flag histogram recording a single value.
pub type FlagSingle = FlagFront<Plain>;

/// A flag histogram recording the presence of a set of runtime keys.
pub type FlagMap<T> = FlagFront<Keyed<T>>;

/// Does this front-end handle aim at a registered flat slot?
pub open spec fn flat_handle_ok<K>(key: Option<Key<K>>, telemetry: &Telemetry) -> bool {
    match key {
        Option::Some(k) => telemetry.task.plain_view().dom().contains(k.index as int),
        Option::None => true,
    }
}

/// Does this front-end handle aim at a registered keyed slot?
pub open spec fn map_handle_ok<K>(key: Option<Key<K>>, telemetry: &Telemetry) -> bool {
    match key {
        Option::Some(k) => telemetry.task.keyed_view().dom().contains(k.index as int),
        Option::None => true,
    }
}

impl FlagSingle {
    /// Creates a flag histogram under a feature; the metadata's key must
    /// be unique to the telemetry instance.
    pub fn new(feature: &Feature, telemetry: &mut Telemetry, meta: Metadata) -> (r: FlagSingle)
        requires
            old(telemetry).wf(),
            !old(telemetry).task.has_name(meta.key@),
            old(telemetry).keys_flat.counter < usize::MAX,
        ensures
            final(telemetry).wf(),
            flat_handle_ok(r.back_end.key, final(telemetry)),
            r.back_end.is_active,
            meta.expired(old(telemetry).version) ==> r.back_end.key is None && *final(telemetry)
                == *old(telemetry),
            !meta.expired(old(telemetry).version) ==> ({
                &&& r.back_end.key matches Option::Some(key)
                &&& final(telemetry).task.plain_view() == old(telemetry).task.plain_view().insert(
                    key.index as int,
                    NamedStorage {
                        name: meta.key,
                        contents: PlainStorage::Flag(FlagStorage { encountered: false }),
                    },
                )
                &&& final(telemetry).task.keyed_view() == old(telemetry).task.keyed_view()
            }),
    {
        let storage = PlainStorage::Flag(FlagStorage { encountered: false });
        let key = telemetry.register_flat(meta, storage);
        FlagFront { back_end: BackEnd::new(feature, key) }
    }

    /// Records the flag, if the telemetry instance and the feature are
    /// both active and the histogram has not expired.
    pub fn record(&self, telemetry: &mut Telemetry, feature: &Feature, value: ())
        requires
            old(telemetry).wf(),
            flat_handle_ok(self.back_end.key, old(telemetry)),
            ({
                let armed = self.back_end.is_active && feature.is_active
                    && self.back_end.key is Some;
                armed ==> old(telemetry).task.plain_view()[
                    self.back_end.key->0.index as int
                ].contents.can_store(0)
            }),
        ensures
            final(telemetry).wf(),
            ({
                let armed = self.back_end.is_active && feature.is_active
                    && self.back_end.key is Some;
                &&& armed ==> recorded_flat(
                    *old(telemetry),
                    *final(telemetry),
                    self.back_end.key->0.index as int,
                    0,
                )
                &&& !armed ==> *final(telemetry) == *old(telemetry)
            }),
    {
        match self.back_end.get_key(feature) {
            Option::Some(k) => {
                let index = k.index;
                let _reply = telemetry.task.process(Op::RecordPlain(index, 0));
                proof {
                    assert(telemetry.task.plain_view().dom() =~= old(telemetry).task.plain_view().dom());
                }
            },
            Option::None => {},
        }
    }
}

impl<K: AsKey> FlagMap<K> {
    /// Creates a keyed flag histogram under a feature; the metadata's key
    /// must be unique to the telemetry instance.
    pub fn new(feature: &Feature, telemetry: &mut Telemetry, meta: Metadata) -> (r: FlagMap<K>)
        requires
            old(telemetry).wf(),
            !old(telemetry).task.has_name(meta.key@),
            old(telemetry).keys_keyed.counter < usize::MAX,
        ensures
            final(telemetry).wf(),
            map_handle_ok(r.back_end.key, final(telemetry)),
            r.back_end.is_active,
            meta.expired(old(telemetry).version) ==> r.back_end.key is None && *final(telemetry)
                == *old(telemetry),
            !meta.expired(old(telemetry).version) ==> ({
                &&& r.back_end.key matches Option::Some(key)
                &&& final(telemetry).task.keyed_view() == old(telemetry).task.keyed_view().insert(
                    key.index as int,
                    final(telemetry).task.keyed_view()[key.index as int],
                )
                &&& final(telemetry).task.keyed_view()[key.index as int].name@ == meta.key@
                &&& final(telemetry).task.keyed_view()[key.index as int].contents matches
                    KeyedStorage::Flag(f)
                &&& f.encountered.kv() == Seq::<(Seq<char>, ())>::empty()
                &&& final(telemetry).task.plain_view() == old(telemetry).task.plain_view()
            }),
    {
        let storage = KeyedStorage::Flag(KeyedFlagStorage { encountered: SortedMap::new() });
        let key = telemetry.register_keyed::<K>(meta, storage);
        proof {
            if !meta.expired(old(telemetry).version) {
                let k = key->0;
                assert(final(telemetry).task.keyed_view() =~= old(telemetry).task.keyed_view().insert(
                    k.index as int,
                    final(telemetry).task.keyed_view()[k.index as int],
                ));
            }
        }
        FlagFront { back_end: BackEnd::new(feature, key) }
    }

    /// Records the flag under a key, if the telemetry instance and the
    /// feature are both active and the histogram has not expired.
    pub fn record(&self, telemetry: &mut Telemetry, feature: &Feature, key: K, value: ())
        requires
            old(telemetry).wf(),
            map_handle_ok(self.back_end.key, old(telemetry)),
            ({
                let armed = self.back_end.is_active && feature.is_active
                    && self.back_end.key is Some;
                armed ==> old(telemetry).task.keyed_view()[
                    self.back_end.key->0.index as int
                ].contents.can_store(key.key_spec(), 0)
            }),
        ensures
            final(telemetry).wf(),
            ({
                let armed = self.back_end.is_active && feature.is_active
                    && self.back_end.key is Some;
                &&& armed ==> recorded_map(
                    *old(telemetry),
                    *final(telemetry),
                    self.back_end.key->0.index as int,
                    key.key_spec(),
                    0,
                )
                &&& !armed ==> *final(telemetry) == *old(telemetry)
            }),
    {
        match self.back_end.get_key(feature) {
            Option::Some(k) => {
                let index = k.index;
                let key_string = key.to_key();
                let _reply = telemetry.task.process(Op::RecordKeyed(index, key_string, 0));
                proof {
                    assert(telemetry.task.keyed_view().dom() =~= old(telemetry).task.keyed_view().dom());
                }
            },
            Option::None => {},
        }
    }
}

/// A linear histogram of this front end: numeric values classified into
/// same-sized buckets within a fixed range.
pub struct LinearFront<K, T> where T: Flatten {
    pub witness: core::marker::PhantomData<T>,
    pub back_end: BackEnd<K>,
}

/// A linear histogram recording single values.
pub type LinearSingle<T> = LinearFront<Plain, T>;

/// A linear histogram recording values under runtime keys.
pub type LinearMap<K, T> = LinearFront<Keyed<K>, T>;

impl<T: Flatten> LinearSingle<T> {
    /// Creates a linear histogram under a feature; the metadata's key must
    /// be unique to the telemetry instance. Values below `min` count into
    /// the first bucket and values above `max` into the last.
    pub fn new(
        feature: &Feature,
        telemetry: &mut Telemetry,
        meta: Metadata,
        min: u32,
        max: u32,
        buckets: usize,
    ) -> (r: LinearSingle<T>)
        requires
            old(telemetry).wf(),
            !old(telemetry).task.has_name(meta.key@),
            old(telemetry).keys_flat.counter < usize::MAX,
            min < max,
            buckets > 0,
            (buckets as int) < max as int - min as int,
        ensures
            final(telemetry).wf(),
            flat_handle_ok(r.back_end.key, final(telemetry)),
            r.back_end.is_active,
            meta.expired(old(telemetry).version) ==> r.back_end.key is None && *final(telemetry)
                == *old(telemetry),
            !meta.expired(old(telemetry).version) ==> ({
                &&& r.back_end.key matches Option::Some(key)
                &&& final(telemetry).task.plain_view() == old(telemetry).task.plain_view().insert(
                    key.index as int,
                    final(telemetry).task.plain_view()[key.index as int],
                )
                &&& final(telemetry).task.plain_view()[key.index as int].name@ == meta.key@
                &&& final(telemetry).task.plain_view()[key.index as int].contents matches
                    PlainStorage::Linear(l)
                &&& l.values@ == crate::misc::zero_seq(buckets as nat)
                &&& l.shape == (LinearBuckets { min, max, buckets })
                &&& final(telemetry).task.keyed_view() == old(telemetry).task.keyed_view()
            }),
    {
        let shape = LinearBuckets::new(min, max, buckets);
        let storage = PlainStorage::Linear(LinearStorage::new(shape));
        let key = telemetry.register_flat(meta, storage);
        proof {
            if !meta.expired(old(telemetry).version) {
                let k = key->0;
                assert(final(telemetry).task.plain_view() =~= old(telemetry).task.plain_view().insert(
                    k.index as int,
                    final(telemetry).task.plain_view()[k.index as int],
                ));
            }
        }
        LinearFront { witness: core::marker::PhantomData, back_end: BackEnd::new(feature, key) }
    }

    /// Records a value, if the telemetry instance and the feature are both
    /// active and the histogram has not expired.
    pub fn record(&self, telemetry: &mut Telemetry, feature: &Feature, value: T)
        requires
            old(telemetry).wf(),
            flat_handle_ok(self.back_end.key, old(telemetry)),
            ({
                let armed = self.back_end.is_active && feature.is_active
                    && self.back_end.key is Some;
                armed ==> old(telemetry).task.plain_view()[
                    self.back_end.key->0.index as int
                ].contents.can_store(value.flatten_spec())
            }),
        ensures
            final(telemetry).wf(),
            ({
                let armed = self.back_end.is_active && feature.is_active
                    && self.back_end.key is Some;
                &&& armed ==> recorded_flat(
                    *old(telemetry),
                    *final(telemetry),
                    self.back_end.key->0.index as int,
                    value.flatten_spec(),
                )
                &&& !armed ==> *final(telemetry) == *old(telemetry)
            }),
    {
        match self.back_end.get_key(feature) {
            Option::Some(k) => {
                let index = k.index;
                let u = value.as_u32();
                let _reply = telemetry.task.process(Op::RecordPlain(index, u));
                proof {
                    assert(telemetry.task.plain_view().dom() =~= old(telemetry).task.plain_view().dom());
                }
            },
            Option::None => {},
        }
    }
}

impl<K: AsKey, T: Flatten> LinearMap<K, T> {
    /// Creates a keyed linear histogram under a feature; the metadata's
    /// key must be unique to the telemetry instance.
    pub fn new(
        feature: &Feature,
        telemetry: &mut Telemetry,
        meta: Metadata,
        min: u32,
        max: u32,
        buckets: usize,
    ) -> (r: LinearMap<K, T>)
        requires
            old(telemetry).wf(),
            !old(telemetry).task.has_name(meta.key@),
            old(telemetry).keys_keyed.counter < usize::MAX,
            min < max,
            buckets > 0,
            (buckets as int) < max as int - min as int,
        ensures
            final(telemetry).wf(),
            map_handle_ok(r.back_end.key, final(telemetry)),
            r.back_end.is_active,
            meta.expired(old(telemetry).version) ==> r.back_end.key is None && *final(telemetry)
                == *old(telemetry),
            !meta.expired(old(telemetry).version) ==> ({
                &&& r.back_end.key matches Option::Some(key)
                &&& final(telemetry).task.keyed_view() == old(telemetry).task.keyed_view().insert(
                    key.index as int,
                    final(telemetry).task.keyed_view()[key.index as int],
                )
                &&& final(telemetry).task.keyed_view()[key.index as int].name@ == meta.key@
                &&& final(telemetry).task.keyed_view()[key.index as int].contents matches
                    KeyedStorage::Linear(l)
                &&& l.values.kv() == Seq::<(Seq<char>, Vec<u32>)>::empty()
                &&& l.shape == (LinearBuckets { min, max, buckets })
                &&& final(telemetry).task.plain_view() == old(telemetry).task.plain_view()
            }),
    {
        let shape = LinearBuckets::new(min, max, buckets);
        let storage = KeyedStorage::Linear(KeyedLinearStorage::new(shape));
        let key = telemetry.register_keyed::<K>(meta, storage);
        proof {
            if !meta.expired(old(telemetry).version) {
                let k = key->0;
                assert(final(telemetry).task.keyed_view() =~= old(telemetry).task.keyed_view().insert(
                    k.index as int,
                    final(telemetry).task.keyed_view()[k.index as int],
                ));
            }
        }
        LinearFront { witness: core::marker::PhantomData, back_end: BackEnd::new(feature, key) }
    }

    /// Records a value under a key, if the telemetry instance and the
    /// feature are both active and the histogram has not expired.
    pub fn record(&self, telemetry: &mut Telemetry, feature: &Feature, key: K, value: T)
        requires
            old(telemetry).wf(),
            map_handle_ok(self.back_end.key, old(telemetry)),
            ({
                let armed = self.back_end.is_active && feature.is_active
                    && self.back_end.key is Some;
                armed ==> old(telemetry).task.keyed_view()[
                    self.back_end.key->0.index as int
                ].contents.can_store(key.key_spec(), value.flatten_spec())
            }),
        ensures
            final(telemetry).wf(),
            ({
                let armed = self.back_end.is_active && feature.is_active
                    && self.back_end.key is Some;
                &&& armed ==> recorded_map(
                    *old(telemetry),
                    *final(telemetry),
                    self.back_end.key->0.index as int,
                    key.key_spec(),
                    value.flatten_spec(),
                )
                &&& !armed ==> *final(telemetry) == *old(telemetry)
            }),
    {
        match self.back_end.get_key(feature) {
            Option::Some(k) => {
                let index = k.index;
                let key_string = key.to_key();
                let u = value.as_u32();
                let _reply = telemetry.task.process(Op::RecordKeyed(index, key_string, u));
                proof {
                    assert(telemetry.task.keyed_view().dom() =~= old(telemetry).task.keyed_view().dom());
                }
            },
            Option::None => {},
        }
    }
}

} // verus!
