//! The collector: the single owner of all histogram storage. It processes
//! an ordered stream of operations — register, record, serialize,
//! terminate — and is the only entity that mutates storage.

use vstd::prelude::*;

use crate::assoc::{
    assoc_insert, assoc_sorted, assoc_views, lemma_assoc_insert_entries,
    lemma_assoc_map_dom, SortedMap,
};
use crate::indexing::Key;
use crate::json::{entries_view, lemma_entries_view_len, Json, JsonModel};
use crate::keyed::{KeyedCountStorage, KeyedEnumStorage, KeyedFlagStorage, KeyedLinearStorage};
use crate::misc::{NamedStorage, SerializationFormat, Subset};
use crate::plain::{CountStorage, EnumStorage, FlagStorage, LinearStorage};
use crate::service::Service;
use crate::vecmap::{
    keyed_map_entries, keyed_map_get, keyed_map_insert, keyed_map_keys, keyed_map_new,
    keyed_map_remove, plain_map_entries, plain_map_get, plain_map_insert, plain_map_keys,
    plain_map_new, plain_map_remove,
};

verus! {

/// Low-level, untyped storage of one plain histogram.
pub trait PlainRawStorage: Sized {
    /// The storage's internal invariant.
    spec fn wf(&self) -> bool;

    /// Can `value` be absorbed without overflowing a counter?
    spec fn can_store(&self, value: u32) -> bool;

    /// How the storage after absorbing `value` relates to the one before.
    spec fn store_rel(&self, post: Self, value: u32) -> bool;

    /// The rendering in each serialization format.
    spec fn render_spec(&self, format: SerializationFormat) -> JsonModel;

    /// Absorbs one recorded value.
    fn store(&mut self, value: u32)
        requires
            old(self).wf(),
            old(self).can_store(value),
        ensures
            old(self).store_rel(*final(self), value),
            final(self).wf(),
    ;

    /// Renders the storage in the given format.
    fn to_json(&self, format: &SerializationFormat) -> (r: Json)
        requires
            self.wf(),
        ensures
            r@ == self.render_spec(*format),
    ;
}

/// Low-level, untyped storage of one keyed histogram: a family of
/// sub-states indexed by a runtime string.
pub trait KeyedRawStorage: Sized {
    /// The storage's internal invariant.
    spec fn wf(&self) -> bool;

    /// Can `value` be absorbed under `key` without overflowing a counter?
    spec fn can_store(&self, key: Seq<char>, value: u32) -> bool;

    /// How the storage after absorbing `value` under `key` relates to the
    /// one before.
    spec fn store_rel(&self, post: Self, key: Seq<char>, value: u32) -> bool;

    /// The rendering in each serialization format.
    spec fn render_spec(&self, format: SerializationFormat) -> JsonModel;

    /// Absorbs one recorded value under the given key.
    fn store(&mut self, key: String, value: u32)
        requires
            old(self).wf(),
            old(self).can_store(key@, value),
        ensures
            old(self).store_rel(*final(self), key@, value),
            final(self).wf(),
    ;

    /// Renders the storage in the given format.
    fn to_json(&self, format: &SerializationFormat) -> (r: Json)
        requires
            self.wf(),
        ensures
            r@ == self.render_spec(*format),
    ;
}

/// The storage of one plain histogram, of whichever kind.
pub enum PlainStorage {
    Flag(FlagStorage),
    Linear(LinearStorage),
    Count(CountStorage),
    Enum(EnumStorage),
}

impl PlainStorage {
    pub open spec fn wf(&self) -> bool {
        match self {
            PlainStorage::Flag(s) => s.wf(),
            PlainStorage::Linear(s) => s.wf(),
            PlainStorage::Count(s) => s.wf(),
            PlainStorage::Enum(s) => s.wf(),
        }
    }

    pub open spec fn can_store(&self, value: u32) -> bool {
        match self {
            PlainStorage::Flag(s) => s.can_store(value),
            PlainStorage::Linear(s) => s.can_store(value),
            PlainStorage::Count(s) => s.can_store(value),
            PlainStorage::Enum(s) => s.can_store(value),
        }
    }

    pub open spec fn store_rel(&self, post: Self, value: u32) -> bool {
        match self {
            PlainStorage::Flag(s) => post matches PlainStorage::Flag(p) && s.store_rel(p, value),
            PlainStorage::Linear(s) => post matches PlainStorage::Linear(p) && s.store_rel(
                p,
                value,
            ),
            PlainStorage::Count(s) => post matches PlainStorage::Count(p) && s.store_rel(p, value),
            PlainStorage::Enum(s) => post matches PlainStorage::Enum(p) && s.store_rel(p, value),
        }
    }

    pub open spec fn render_spec(&self, format: SerializationFormat) -> JsonModel {
        match self {
            PlainStorage::Flag(s) => s.render_spec(format),
            PlainStorage::Linear(s) => s.render_spec(format),
            PlainStorage::Count(s) => s.render_spec(format),
            PlainStorage::Enum(s) => s.render_spec(format),
        }
    }

    /// The storage after absorbing one recorded value.
    pub fn stored(self, value: u32) -> (r: Self)
        requires
            self.wf(),
            self.can_store(value),
        ensures
            self.store_rel(r, value),
            r.wf(),
    {
        match self {
            PlainStorage::Flag(mut s) => {
                s.store(value);
                PlainStorage::Flag(s)
            },
            PlainStorage::Linear(mut s) => {
                s.store(value);
                PlainStorage::Linear(s)
            },
            PlainStorage::Count(mut s) => {
                s.store(value);
                PlainStorage::Count(s)
            },
            PlainStorage::Enum(mut s) => {
                s.store(value);
                PlainStorage::Enum(s)
            },
        }
    }

    /// Renders the storage in the given format.
    pub fn to_json(&self, format: &SerializationFormat) -> (r: Json)
        requires
            self.wf(),
        ensures
            r@ == self.render_spec(*format),
    {
        match self {
            PlainStorage::Flag(s) => s.to_json(format),
            PlainStorage::Linear(s) => s.to_json(format),
            PlainStorage::Count(s) => s.to_json(format),
            PlainStorage::Enum(s) => s.to_json(format),
        }
    }
}

/// The storage of one keyed histogram, of whichever kind.
pub enum KeyedStorage {
    Flag(KeyedFlagStorage),
    Linear(KeyedLinearStorage),
    Count(KeyedCountStorage),
    Enum(KeyedEnumStorage),
}

impl KeyedStorage {
    pub open spec fn wf(&self) -> bool {
        match self {
            KeyedStorage::Flag(s) => s.wf(),
            KeyedStorage::Linear(s) => s.wf(),
            KeyedStorage::Count(s) => s.wf(),
            KeyedStorage::Enum(s) => s.wf(),
        }
    }

    pub open spec fn can_store(&self, key: Seq<char>, value: u32) -> bool {
        match self {
            KeyedStorage::Flag(s) => s.can_store(key, value),
            KeyedStorage::Linear(s) => s.can_store(key, value),
            KeyedStorage::Count(s) => s.can_store(key, value),
            KeyedStorage::Enum(s) => s.can_store(key, value),
        }
    }

    pub open spec fn store_rel(&self, post: Self, key: Seq<char>, value: u32) -> bool {
        match self {
            KeyedStorage::Flag(s) => post matches KeyedStorage::Flag(p) && s.store_rel(
                p,
                key,
                value,
            ),
            KeyedStorage::Linear(s) => post matches KeyedStorage::Linear(p) && s.store_rel(
                p,
                key,
                value,
            ),
            KeyedStorage::Count(s) => post matches KeyedStorage::Count(p) && s.store_rel(
                p,
                key,
                value,
            ),
            KeyedStorage::Enum(s) => post matches KeyedStorage::Enum(p) && s.store_rel(
                p,
                key,
                value,
            ),
        }
    }

    pub open spec fn render_spec(&self, format: SerializationFormat) -> JsonModel {
        match self {
            KeyedStorage::Flag(s) => s.render_spec(format),
            KeyedStorage::Linear(s) => s.render_spec(format),
            KeyedStorage::Count(s) => s.render_spec(format),
            KeyedStorage::Enum(s) => s.render_spec(format),
        }
    }

    /// The storage after absorbing one recorded value under the given key.
    pub fn stored(self, key: String, value: u32) -> (r: Self)
        requires
            self.wf(),
            self.can_store(key@, value),
        ensures
            self.store_rel(r, key@, value),
            r.wf(),
    {
        match self {
            KeyedStorage::Flag(mut s) => {
                s.store(key, value);
                KeyedStorage::Flag(s)
            },
            KeyedStorage::Linear(mut s) => {
                s.store(key, value);
                KeyedStorage::Linear(s)
            },
            KeyedStorage::Count(mut s) => {
                s.store(key, value);
                KeyedStorage::Count(s)
            },
            KeyedStorage::Enum(mut s) => {
                s.store(key, value);
                KeyedStorage::Enum(s)
            },
        }
    }

    /// Renders the storage in the given format.
    pub fn to_json(&self, format: &SerializationFormat) -> (r: Json)
        requires
            self.wf(),
        ensures
            r@ == self.render_spec(*format),
    {
        match self {
            KeyedStorage::Flag(s) => s.to_json(format),
            KeyedStorage::Linear(s) => s.to_json(format),
            KeyedStorage::Count(s) => s.to_json(format),
            KeyedStorage::Enum(s) => s.to_json(format),
        }
    }
}

/// Operations used to communicate with the collector.
pub enum Op {
    /// `RegisterPlain(slot, storage)` stores a plain histogram under slot
    /// `slot`. The slot must be previously unused and the name fresh.
    RegisterPlain(usize, NamedStorage<PlainStorage>),
    /// `RegisterKeyed(slot, storage)` stores a keyed histogram under slot
    /// `slot`. The slot must be previously unused and the name fresh.
    RegisterKeyed(usize, NamedStorage<KeyedStorage>),
    /// `RecordPlain(slot, value)` records `value` in the plain histogram
    /// registered under `slot`, which must exist.
    RecordPlain(usize, u32),
    /// `RecordKeyed(slot, key, value)` records `value` under `key` in the
    /// keyed histogram registered under `slot`, which must exist.
    RecordKeyed(usize, String, u32),
    /// Serializes a subset of the histograms in a given format; the
    /// collector replies with the built snapshot.
    Serialize(Subset, SerializationFormat),
    /// Stops the collector. No operation may follow.
    Terminate,
}

/// Does the subset take the plain histograms in?
pub open spec fn includes_plain(what: Subset) -> bool {
    match what {
        Subset::AllPlain => true,
        Subset::AllKeyed => false,
        Subset::Everything => true,
    }
}

/// Does the subset take the keyed histograms in?
pub open spec fn includes_keyed(what: Subset) -> bool {
    match what {
        Subset::AllPlain => false,
        Subset::AllKeyed => true,
        Subset::Everything => true,
    }
}

/// The collector's state: the plain and keyed histogram storage, the set
/// of registered names, and whether the collector is still running.
pub struct TelemetryTask {
    /// Plain histograms, by slot index.
    pub plain: vec_map::VecMap<NamedStorage<PlainStorage>>,
    /// Keyed histograms, by slot index.
    pub keyed: vec_map::VecMap<NamedStorage<KeyedStorage>>,
    /// The set of all registered histogram names, used for sanity checking.
    pub keys: SortedMap<()>,
    /// Becomes false when the terminate operation arrives.
    pub running: bool,
}

impl TelemetryTask {
    /// The plain histograms, as a map from slot index to named storage.
    pub open spec fn plain_view(&self) -> Map<int, NamedStorage<PlainStorage>> {
        plain_map_entries(self.plain)
    }

    /// The keyed histograms, as a map from slot index to named storage.
    pub open spec fn keyed_view(&self) -> Map<int, NamedStorage<KeyedStorage>> {
        keyed_map_entries(self.keyed)
    }

    /// Is a histogram of this name registered?
    pub open spec fn has_name(&self, name: Seq<char>) -> bool {
        self.keys.map_view().dom().contains(name)
    }

    /// The collector's invariant: every storage is well formed, every
    /// registered name is in the name set, and no two histograms share a
    /// name.
    pub open spec fn wf(&self) -> bool {
        &&& self.keys.wf()
        &&& forall|k: int|
            #[trigger] self.plain_view().dom().contains(k) ==> self.plain_view()[k].contents.wf()
                && self.has_name(self.plain_view()[k].name@)
        &&& forall|k: int|
            #[trigger] self.keyed_view().dom().contains(k) ==> self.keyed_view()[k].contents.wf()
                && self.has_name(self.keyed_view()[k].name@)
        &&& forall|k1: int, k2: int|
            self.plain_view().dom().contains(k1) && self.plain_view().dom().contains(k2) && k1
                != k2 ==> (#[trigger] self.plain_view()[k1].name)@ != (
            #[trigger] self.plain_view()[k2].name)@
        &&& forall|k1: int, k2: int|
            self.keyed_view().dom().contains(k1) && self.keyed_view().dom().contains(k2) && k1
                != k2 ==> (#[trigger] self.keyed_view()[k1].name)@ != (
            #[trigger] self.keyed_view()[k2].name)@
        &&& forall|k1: int, k2: int|
            self.plain_view().dom().contains(k1) && self.keyed_view().dom().contains(k2) ==> (
            #[trigger] self.plain_view()[k1].name)@ != (#[trigger] self.keyed_view()[k2].name)@
    }

    /// Which operations the collector accepts in its current state: none
    /// after termination, registrations only for fresh slots and names,
    /// records only for registered slots and without counter overflow.
    pub open spec fn accepts(&self, op: Op) -> bool {
        &&& self.running
        &&& match op {
            Op::RegisterPlain(k, ns) => !self.plain_view().dom().contains(k as int)
                && !self.has_name(ns.name@) && ns.contents.wf(),
            Op::RegisterKeyed(k, ns) => !self.keyed_view().dom().contains(k as int)
                && !self.has_name(ns.name@) && ns.contents.wf(),
            Op::RecordPlain(k, v) => self.plain_view().dom().contains(k as int)
                && self.plain_view()[k as int].contents.can_store(v),
            Op::RecordKeyed(k, key, v) => self.keyed_view().dom().contains(k as int)
                && self.keyed_view()[k as int].contents.can_store(key@, v),
            Op::Serialize(_, _) => true,
            Op::Terminate => true,
        }
    }

    /// How one processed operation changes the collector's state.
    pub open spec fn step_rel(&self, post: Self, op: Op) -> bool {
        match op {
            Op::RegisterPlain(k, ns) => {
                &&& post.plain_view() == self.plain_view().insert(k as int, ns)
                &&& post.keyed_view() == self.keyed_view()
                &&& post.keys.kv() == assoc_insert(self.keys.kv(), ns.name@, ())
                &&& post.running == self.running
            },
            Op::RegisterKeyed(k, ns) => {
                &&& post.plain_view() == self.plain_view()
                &&& post.keyed_view() == self.keyed_view().insert(k as int, ns)
                &&& post.keys.kv() == assoc_insert(self.keys.kv(), ns.name@, ())
                &&& post.running == self.running
            },
            Op::RecordPlain(k, v) => {
                &&& exists|s2: PlainStorage|
                    #![auto]
                    self.plain_view()[k as int].contents.store_rel(s2, v) && post.plain_view()
                        == self.plain_view().insert(
                        k as int,
                        NamedStorage { name: self.plain_view()[k as int].name, contents: s2 },
                    )
                &&& post.keyed_view() == self.keyed_view()
                &&& post.keys.kv() == self.keys.kv()
                &&& post.running == self.running
            },
            Op::RecordKeyed(k, key, v) => {
                &&& exists|s2: KeyedStorage|
                    #![auto]
                    self.keyed_view()[k as int].contents.store_rel(s2, key@, v)
                        && post.keyed_view() == self.keyed_view().insert(
                        k as int,
                        NamedStorage { name: self.keyed_view()[k as int].name, contents: s2 },
                    )
                &&& post.plain_view() == self.plain_view()
                &&& post.keys.kv() == self.keys.kv()
                &&& post.running == self.running
            },
            Op::Serialize(_, _) => post == *self,
            Op::Terminate => {
                &&& post.plain_view() == self.plain_view()
                &&& post.keyed_view() == self.keyed_view()
                &&& post.keys.kv() == self.keys.kv()
                &&& post.running == false
            },
        }
    }

    /// Is `e` a correct serialized entry: the name of an included histogram
    /// together with that histogram's rendering?
    pub open spec fn entry_matches(
        &self,
        what: Subset,
        format: SerializationFormat,
        e: (Seq<char>, JsonModel),
    ) -> bool {
        ||| (includes_plain(what) && exists|k: int|
            #![auto]
            self.plain_view().dom().contains(k) && self.plain_view()[k].name@ == e.0
                && self.plain_view()[k].contents.render_spec(format) == e.1)
        ||| (includes_keyed(what) && exists|k: int|
            #![auto]
            self.keyed_view().dom().contains(k) && self.keyed_view()[k].name@ == e.0
                && self.keyed_view()[k].contents.render_spec(format) == e.1)
    }

    /// What a serialized snapshot is: an object, sorted by histogram name,
    /// with one correct entry per included histogram and nothing else.
    pub open spec fn serialized_ok(
        &self,
        what: Subset,
        format: SerializationFormat,
        m: JsonModel,
    ) -> bool {
        match m {
            JsonModel::Obj(es) => {
                &&& assoc_sorted(es)
                &&& forall|i: int|
                    0 <= i < es.len() ==> self.entry_matches(what, format, #[trigger] es[i])
                &&& (includes_plain(what) ==> forall|k: int|
                    #[trigger] self.plain_view().dom().contains(k) ==> exists|i: int|
                        0 <= i < es.len() && es[i].0 == self.plain_view()[k].name@)
                &&& (includes_keyed(what) ==> forall|k: int|
                    #[trigger] self.keyed_view().dom().contains(k) ==> exists|i: int|
                        0 <= i < es.len() && es[i].0 == self.keyed_view()[k].name@)
            },
            _ => false,
        }
    }

    /// Well-formedness carries over to a state with the same histograms
    /// and names.
    proof fn lemma_wf_carry(pre: TelemetryTask, post: TelemetryTask)
        requires
            pre.wf(),
            post.plain_view() == pre.plain_view(),
            post.keyed_view() == pre.keyed_view(),
            post.keys == pre.keys,
        ensures
            post.wf(),
    {
        assert forall|k: int| #[trigger]
            post.plain_view().dom().contains(k) implies post.plain_view()[k].contents.wf()
            && post.has_name(post.plain_view()[k].name@) by {
            assert(pre.plain_view().dom().contains(k));
        }
        assert forall|k: int| #[trigger]
            post.keyed_view().dom().contains(k) implies post.keyed_view()[k].contents.wf()
            && post.has_name(post.keyed_view()[k].name@) by {
            assert(pre.keyed_view().dom().contains(k));
        }
        assert forall|k1: int, k2: int|
            post.plain_view().dom().contains(k1) && post.plain_view().dom().contains(k2) && k1
                != k2 implies (#[trigger] post.plain_view()[k1].name)@ != (
        #[trigger] post.plain_view()[k2].name)@ by {
            assert(pre.plain_view().dom().contains(k1));
            assert(pre.plain_view().dom().contains(k2));
        }
        assert forall|k1: int, k2: int|
            post.keyed_view().dom().contains(k1) && post.keyed_view().dom().contains(k2) && k1
                != k2 implies (#[trigger] post.keyed_view()[k1].name)@ != (
        #[trigger] post.keyed_view()[k2].name)@ by {
            assert(pre.keyed_view().dom().contains(k1));
            assert(pre.keyed_view().dom().contains(k2));
        }
        assert forall|k1: int, k2: int|
            post.plain_view().dom().contains(k1) && post.keyed_view().dom().contains(
                k2,
            ) implies (#[trigger] post.plain_view()[k1].name)@ != (
        #[trigger] post.keyed_view()[k2].name)@ by {
            assert(pre.plain_view().dom().contains(k1));
            assert(pre.keyed_view().dom().contains(k2));
        }
    }

    /// Creates a collector with no histograms.
    pub fn new() -> (r: TelemetryTask)
        ensures
            r.wf(),
            r.plain_view() == Map::<int, NamedStorage<PlainStorage>>::empty(),
            r.keyed_view() == Map::<int, NamedStorage<KeyedStorage>>::empty(),
            r.keys.kv() == Seq::<(Seq<char>, ())>::empty(),
            r.running,
    {
        TelemetryTask {
            plain: plain_map_new(),
            keyed: keyed_map_new(),
            keys: SortedMap::new(),
            running: true,
        }
    }

    /// Builds the snapshot of the requested subset in the requested format:
    /// an object mapping each included histogram's name to its rendering,
    /// names in lexicographic order.
    #[verifier::rlimit(50)]
    pub fn serialize(&self, what: Subset, format: SerializationFormat) -> (r: Json)
        requires
            self.wf(),
        ensures
            self.serialized_ok(what, format, r@),
    {
        let mut out: SortedMap<Json> = SortedMap::new();
        let include_plain = match what {
            Subset::AllPlain => true,
            Subset::AllKeyed => false,
            Subset::Everything => true,
        };
        let include_keyed = match what {
            Subset::AllPlain => false,
            Subset::AllKeyed => true,
            Subset::Everything => true,
        };
        if include_plain {
            let ks = plain_map_keys(&self.plain);
            let mut i: usize = 0;
            while i < ks.len()
                invariant
                    self.wf(),
                    includes_plain(what),
                    out.wf(),
                    i <= ks@.len(),
                    forall|j: int|
                        0 <= j < ks@.len() ==> self.plain_view().dom().contains(
                            #[trigger] ks@[j] as int,
                        ),
                    forall|mi: int|
                        0 <= mi < out.kv().len() ==> self.entry_matches(
                            what,
                            format,
                            ((#[trigger] out.kv()[mi]).0, out.kv()[mi].1@),
                        ),
                    forall|j: int|
                        0 <= j < i ==> out.map_view().dom().contains(
                            (#[trigger] self.plain_view()[ks@[j] as int].name)@,
                        ),
                decreases ks@.len() - i,
            {
                match plain_map_get(&self.plain, ks[i]) {
                    Option::Some(ns) => {
                        let piece = ns.contents.to_json(&format);
                        let ghost pre = out.kv();
                        out.insert(ns.name.clone(), piece);
                        proof {
                            lemma_assoc_insert_entries(pre, ns.name@, piece);
                        }
                    },
                    Option::None => {
                        proof {
                            assert(false);
                        }
                    },
                }
                i = i + 1;
            }
            proof {
                assert forall|k: int| #[trigger]
                    self.plain_view().dom().contains(k) implies out.map_view().dom().contains(
                    self.plain_view()[k].name@,
                ) by {
                    let j = choose|j: int| 0 <= j < ks@.len() && ks@[j] as int == k;
                    assert(out.map_view().dom().contains(
                        self.plain_view()[ks@[j] as int].name@,
                    ));
                }
            }
        }
        if include_keyed {
            let ks = keyed_map_keys(&self.keyed);
            let ghost had_plain = includes_plain(what);
            let mut i: usize = 0;
            while i < ks.len()
                invariant
                    self.wf(),
                    includes_keyed(what),
                    out.wf(),
                    i <= ks@.len(),
                    had_plain ==> forall|k: int| #[trigger]
                        self.plain_view().dom().contains(k) ==> out.map_view().dom().contains(
                            self.plain_view()[k].name@,
                        ),
                    forall|j: int|
                        0 <= j < ks@.len() ==> self.keyed_view().dom().contains(
                            #[trigger] ks@[j] as int,
                        ),
                    forall|mi: int|
                        0 <= mi < out.kv().len() ==> self.entry_matches(
                            what,
                            format,
                            ((#[trigger] out.kv()[mi]).0, out.kv()[mi].1@),
                        ),
                    forall|j: int|
                        0 <= j < i ==> out.map_view().dom().contains(
                            (#[trigger] self.keyed_view()[ks@[j] as int].name)@,
                        ),
                decreases ks@.len() - i,
            {
                match keyed_map_get(&self.keyed, ks[i]) {
                    Option::Some(ns) => {
                        let piece = ns.contents.to_json(&format);
                        let ghost pre = out.kv();
                        out.insert(ns.name.clone(), piece);
                        proof {
                            lemma_assoc_insert_entries(pre, ns.name@, piece);
                        }
                    },
                    Option::None => {
                        proof {
                            assert(false);
                        }
                    },
                }
                i = i + 1;
            }
            proof {
                assert forall|k: int| #[trigger]
                    self.keyed_view().dom().contains(k) implies out.map_view().dom().contains(
                    self.keyed_view()[k].name@,
                ) by {
                    let j = choose|j: int| 0 <= j < ks@.len() && ks@[j] as int == k;
                    assert(out.map_view().dom().contains(
                        self.keyed_view()[ks@[j] as int].name@,
                    ));
                }
            }
        }
        let r = Json::Object(out.entries);
        proof {
            lemma_entries_view_len(out.entries@);
            assert(entries_view(out.entries@) =~= assoc_views(out.kv()));
            let es = entries_view(out.entries@);
            assert(assoc_sorted(es));
            assert forall|mi: int| 0 <= mi < es.len() implies self.entry_matches(
                what,
                format,
                es[mi],
            ) by {
                assert(es[mi] == (out.kv()[mi].0, out.kv()[mi].1@));
            }
            if includes_plain(what) {
                assert forall|k: int| #[trigger]
                    self.plain_view().dom().contains(k) implies exists|mi: int|
                    0 <= mi < es.len() && es[mi].0 == self.plain_view()[k].name@ by {
                    assert(out.map_view().dom().contains(self.plain_view()[k].name@));
                    lemma_assoc_map_dom(out.kv(), self.plain_view()[k].name@);
                    let mi = choose|mi: int|
                        0 <= mi < out.kv().len() && out.kv()[mi].0 == self.plain_view()[k].name@;
                    assert(es[mi].0 == self.plain_view()[k].name@);
                }
            }
            if includes_keyed(what) {
                assert forall|k: int| #[trigger]
                    self.keyed_view().dom().contains(k) implies exists|mi: int|
                    0 <= mi < es.len() && es[mi].0 == self.keyed_view()[k].name@ by {
                    assert(out.map_view().dom().contains(self.keyed_view()[k].name@));
                    lemma_assoc_map_dom(out.kv(), self.keyed_view()[k].name@);
                    let mi = choose|mi: int|
                        0 <= mi < out.kv().len() && out.kv()[mi].0 == self.keyed_view()[k].name@;
                    assert(es[mi].0 == self.keyed_view()[k].name@);
                }
            }
            assert(r@ matches JsonModel::Obj(es2) && es2 == es);
            assert(self.serialized_ok(what, format, r@));
        }
        r
    }

    /// Processes one operation and hands back the snapshot where the
    /// operation asked for one.
    pub fn process(&mut self, op: Op) -> (r: Option<Json>)
        requires
            old(self).wf(),
            old(self).accepts(op),
        ensures
            final(self).wf(),
            old(self).step_rel(*final(self), op),
            (match op {
                Op::Serialize(what, format) => r matches Option::Some(j) && old(
                    self,
                ).serialized_ok(what, format, j@),
                _ => r is None,
            }),
    {
        match op {
            Op::RegisterPlain(index, storage) => {
                let name_copy = storage.name.clone();
                self.keys.insert(name_copy, ());
                let _previous = plain_map_insert(&mut self.plain, index, storage);
                proof {
                    assert forall|k: int| #[trigger]
                        self.plain_view().dom().contains(k) implies self.plain_view()[k].contents.wf()
                        && self.has_name(self.plain_view()[k].name@) by {
                        if k != index as int {
                            assert(old(self).plain_view().dom().contains(k));
                            assert(self.plain_view()[k] == old(self).plain_view()[k]);
                        }
                    }
                    assert forall|k1: int, k2: int|
                        self.plain_view().dom().contains(k1) && self.plain_view().dom().contains(
                            k2,
                        ) && k1 != k2 implies (#[trigger] self.plain_view()[k1].name)@ != (
                    #[trigger] self.plain_view()[k2].name)@ by {
                        if k1 != index as int && k2 != index as int {
                            assert(self.plain_view()[k1] == old(self).plain_view()[k1]);
                            assert(self.plain_view()[k2] == old(self).plain_view()[k2]);
                        } else if k1 == index as int {
                            assert(old(self).has_name(old(self).plain_view()[k2].name@));
                        } else {
                            assert(old(self).has_name(old(self).plain_view()[k1].name@));
                        }
                    }
                    assert forall|k1: int, k2: int|
                        self.plain_view().dom().contains(k1) && self.keyed_view().dom().contains(
                            k2,
                        ) implies (#[trigger] self.plain_view()[k1].name)@ != (
                    #[trigger] self.keyed_view()[k2].name)@ by {
                        if k1 == index as int {
                            assert(old(self).has_name(old(self).keyed_view()[k2].name@));
                        }
                    }
                    assert forall|k: int| #[trigger]
                        self.keyed_view().dom().contains(k) implies self.keyed_view()[k].contents.wf()
                        && self.has_name(self.keyed_view()[k].name@) by {
                        assert(old(self).keyed_view().dom().contains(k));
                        assert(self.keyed_view()[k] == old(self).keyed_view()[k]);
                    }
                    assert forall|k1: int, k2: int|
                        self.keyed_view().dom().contains(k1) && self.keyed_view().dom().contains(
                            k2,
                        ) && k1 != k2 implies (#[trigger] self.keyed_view()[k1].name)@ != (
                    #[trigger] self.keyed_view()[k2].name)@ by {
                        assert(old(self).keyed_view().dom().contains(k1));
                        assert(old(self).keyed_view().dom().contains(k2));
                        assert(self.keyed_view()[k1] == old(self).keyed_view()[k1]);
                        assert(self.keyed_view()[k2] == old(self).keyed_view()[k2]);
                    }
                    assert(self.wf());
                }
                Option::None
            },
            Op::RegisterKeyed(index, storage) => {
                let name_copy = storage.name.clone();
                self.keys.insert(name_copy, ());
                let _previous = keyed_map_insert(&mut self.keyed, index, storage);
                proof {
                    assert forall|k: int| #[trigger]
                        self.keyed_view().dom().contains(k) implies self.keyed_view()[k].contents.wf()
                        && self.has_name(self.keyed_view()[k].name@) by {
                        if k != index as int {
                            assert(old(self).keyed_view().dom().contains(k));
                            assert(self.keyed_view()[k] == old(self).keyed_view()[k]);
                        }
                    }
                    assert forall|k1: int, k2: int|
                        self.keyed_view().dom().contains(k1) && self.keyed_view().dom().contains(
                            k2,
                        ) && k1 != k2 implies (#[trigger] self.keyed_view()[k1].name)@ != (
                    #[trigger] self.keyed_view()[k2].name)@ by {
                        if k1 != index as int && k2 != index as int {
                            assert(self.keyed_view()[k1] == old(self).keyed_view()[k1]);
                            assert(self.keyed_view()[k2] == old(self).keyed_view()[k2]);
                        } else if k1 == index as int {
                            assert(old(self).has_name(old(self).keyed_view()[k2].name@));
                        } else {
                            assert(old(self).has_name(old(self).keyed_view()[k1].name@));
                        }
                    }
                    assert forall|k1: int, k2: int|
                        self.plain_view().dom().contains(k1) && self.keyed_view().dom().contains(
                            k2,
                        ) implies (#[trigger] self.plain_view()[k1].name)@ != (
                    #[trigger] self.keyed_view()[k2].name)@ by {
                        if k2 == index as int {
                            assert(old(self).has_name(old(self).plain_view()[k1].name@));
                        }
                    }
                    assert forall|k: int| #[trigger]
                        self.plain_view().dom().contains(k) implies self.plain_view()[k].contents.wf()
                        && self.has_name(self.plain_view()[k].name@) by {
                        assert(old(self).plain_view().dom().contains(k));
                        assert(self.plain_view()[k] == old(self).plain_view()[k]);
                    }
                    assert forall|k1: int, k2: int|
                        self.plain_view().dom().contains(k1) && self.plain_view().dom().contains(
                            k2,
                        ) && k1 != k2 implies (#[trigger] self.plain_view()[k1].name)@ != (
                    #[trigger] self.plain_view()[k2].name)@ by {
                        assert(old(self).plain_view().dom().contains(k1));
                        assert(old(self).plain_view().dom().contains(k2));
                        assert(self.plain_view()[k1] == old(self).plain_view()[k1]);
                        assert(self.plain_view()[k2] == old(self).plain_view()[k2]);
                    }
                    assert(self.wf());
                }
                Option::None
            },
            Op::RecordPlain(index, value) => {
                match plain_map_remove(&mut self.plain, index) {
                    Option::Some(entry) => {
                        let NamedStorage { name, contents } = entry;
                        let new_contents = contents.stored(value);
                        let ghost stored_witness = new_contents;
                        let _previous = plain_map_insert(
                            &mut self.plain,
                            index,
                            NamedStorage { name, contents: new_contents },
                        );
                        proof {
                            assert(old(self).plain_view()[index as int].contents.store_rel(
                                stored_witness,
                                value,
                            ));
                            assert(self.plain_view() =~= old(self).plain_view().insert(
                                index as int,
                                NamedStorage {
                                    name: old(self).plain_view()[index as int].name,
                                    contents: stored_witness,
                                },
                            ));
                            assert forall|k: int|
                                self.plain_view().dom().contains(k) implies #[trigger] self
                                .plain_view()[k].name@ == old(self).plain_view()[k].name@ by {
                                if k != index as int {
                                    assert(self.plain_view()[k] == old(self).plain_view()[k]);
                                }
                            }
                            assert forall|k: int| #[trigger]
                                self.plain_view().dom().contains(k) implies self.plain_view()[k]
                                .contents.wf() && self.has_name(self.plain_view()[k].name@) by {
                                assert(old(self).plain_view().dom().contains(k));
                                if k != index as int {
                                    assert(self.plain_view()[k] == old(self).plain_view()[k]);
                                }
                            }
                            assert forall|k1: int, k2: int|
                                self.plain_view().dom().contains(k1)
                                    && self.plain_view().dom().contains(k2) && k1 != k2 implies (
                            #[trigger] self.plain_view()[k1].name)@ != (
                            #[trigger] self.plain_view()[k2].name)@ by {
                                assert(old(self).plain_view().dom().contains(k1));
                                assert(old(self).plain_view().dom().contains(k2));
                            }
                            assert forall|k1: int, k2: int|
                                self.plain_view().dom().contains(k1)
                                    && self.keyed_view().dom().contains(k2) implies (
                            #[trigger] self.plain_view()[k1].name)@ != (
                            #[trigger] self.keyed_view()[k2].name)@ by {
                                assert(old(self).plain_view().dom().contains(k1));
                                assert(old(self).keyed_view().dom().contains(k2));
                                assert(self.plain_view()[k1].name@ == old(self).plain_view()[k1].name@);
                                assert(old(self).plain_view()[k1].name@ != old(self).keyed_view()[
                                    k2
                                ].name@);
                            }
                            assert forall|k: int| #[trigger]
                                self.keyed_view().dom().contains(k) implies self.keyed_view()[k].contents.wf()
                                && self.has_name(self.keyed_view()[k].name@) by {
                                assert(old(self).keyed_view().dom().contains(k));
                                assert(self.keyed_view()[k] == old(self).keyed_view()[k]);
                            }
                            assert forall|k1: int, k2: int|
                                self.keyed_view().dom().contains(k1) && self.keyed_view().dom().contains(
                                    k2,
                                ) && k1 != k2 implies (#[trigger] self.keyed_view()[k1].name)@ != (
                            #[trigger] self.keyed_view()[k2].name)@ by {
                                assert(old(self).keyed_view().dom().contains(k1));
                                assert(old(self).keyed_view().dom().contains(k2));
                                assert(self.keyed_view()[k1] == old(self).keyed_view()[k1]);
                                assert(self.keyed_view()[k2] == old(self).keyed_view()[k2]);
                            }
                        }
                    },
                    Option::None => {
                        proof {
                            assert(false);
                        }
                    },
                }
                proof { assert(self.wf()); }
                Option::None
            },
            Op::RecordKeyed(index, key, value) => {
                let ghost gkey = key@;
                match keyed_map_remove(&mut self.keyed, index) {
                    Option::Some(entry) => {
                        let NamedStorage { name, contents } = entry;
                        let new_contents = contents.stored(key, value);
                        let ghost stored_witness = new_contents;
                        let _previous = keyed_map_insert(
                            &mut self.keyed,
                            index,
                            NamedStorage { name, contents: new_contents },
                        );
                        proof {
                            assert(old(self).keyed_view()[index as int].contents.store_rel(
                                stored_witness,
                                gkey,
                                value,
                            ));
                            assert(self.keyed_view() =~= old(self).keyed_view().insert(
                                index as int,
                                NamedStorage {
                                    name: old(self).keyed_view()[index as int].name,
                                    contents: stored_witness,
                                },
                            ));
                            assert forall|k: int|
                                self.keyed_view().dom().contains(k) implies #[trigger] self
                                .keyed_view()[k].name@ == old(self).keyed_view()[k].name@ by {
                                if k != index as int {
                                    assert(self.keyed_view()[k] == old(self).keyed_view()[k]);
                                }
                            }
                            assert forall|k: int| #[trigger]
                                self.keyed_view().dom().contains(k) implies self.keyed_view()[k]
                                .contents.wf() && self.has_name(self.keyed_view()[k].name@) by {
                                assert(old(self).keyed_view().dom().contains(k));
                                if k != index as int {
                                    assert(self.keyed_view()[k] == old(self).keyed_view()[k]);
                                }
                            }
                            assert forall|k1: int, k2: int|
                                self.keyed_view().dom().contains(k1)
                                    && self.keyed_view().dom().contains(k2) && k1 != k2 implies (
                            #[trigger] self.keyed_view()[k1].name)@ != (
                            #[trigger] self.keyed_view()[k2].name)@ by {
                                assert(old(self).keyed_view().dom().contains(k1));
                                assert(old(self).keyed_view().dom().contains(k2));
                            }
                            assert forall|k1: int, k2: int|
                                self.plain_view().dom().contains(k1)
                                    && self.keyed_view().dom().contains(k2) implies (
                            #[trigger] self.plain_view()[k1].name)@ != (
                            #[trigger] self.keyed_view()[k2].name)@ by {
                                assert(old(self).keyed_view().dom().contains(k2));
                                assert(old(self).plain_view().dom().contains(k1));
                                assert(self.keyed_view()[k2].name@ == old(self).keyed_view()[k2].name@);
                                assert(old(self).plain_view()[k1].name@ != old(self).keyed_view()[
                                    k2
                                ].name@);
                            }
                            assert forall|k: int| #[trigger]
                                self.plain_view().dom().contains(k) implies self.plain_view()[k].contents.wf()
                                && self.has_name(self.plain_view()[k].name@) by {
                                assert(old(self).plain_view().dom().contains(k));
                                assert(self.plain_view()[k] == old(self).plain_view()[k]);
                            }
                            assert forall|k1: int, k2: int|
                                self.plain_view().dom().contains(k1) && self.plain_view().dom().contains(
                                    k2,
                                ) && k1 != k2 implies (#[trigger] self.plain_view()[k1].name)@ != (
                            #[trigger] self.plain_view()[k2].name)@ by {
                                assert(old(self).plain_view().dom().contains(k1));
                                assert(old(self).plain_view().dom().contains(k2));
                                assert(self.plain_view()[k1] == old(self).plain_view()[k1]);
                                assert(self.plain_view()[k2] == old(self).plain_view()[k2]);
                            }
                        }
                    },
                    Option::None => {
                        proof {
                            assert(false);
                        }
                    },
                }
                proof { assert(self.wf()); }
                Option::None
            },
            Op::Serialize(what, format) => Option::Some(self.serialize(what, format)),
            Op::Terminate => {
                self.running = false;
                proof {
                    Self::lemma_wf_carry(*old(self), *self);
                }
                Option::None
            },
        }
    }
}


/// Could every operation of `ops` be processed in order? Operations after
/// a terminate operation are never reached and need not be acceptable.
pub open spec fn accepts_seq(pre: TelemetryTask, ops: Seq<Op>) -> bool
    decreases ops.len(),
{
    ops.len() == 0 || (pre.accepts(ops[0]) && (ops[0] is Terminate || forall|mid: TelemetryTask|
        #[trigger] pre.step_rel(mid, ops[0]) ==> accepts_seq(mid, ops.drop_first())))
}

/// How a run of the collector relates its start state, the operations it
/// received, its final state, and the snapshots it replied: each
/// operation steps the state, each serialize operation contributes one
/// snapshot of the state it found, and a terminate operation ends the run.
pub open spec fn run_rel(
    pre: TelemetryTask,
    ops: Seq<Op>,
    post: TelemetryTask,
    replies: Seq<Json>,
) -> bool
    decreases ops.len(),
{
    if ops.len() == 0 {
        post == pre && replies.len() == 0
    } else {
        match ops[0] {
            Op::Terminate => pre.step_rel(post, Op::Terminate) && replies.len() == 0,
            Op::Serialize(what, format) => replies.len() >= 1 && pre.serialized_ok(
                what,
                format,
                replies[0]@,
            ) && run_rel(pre, ops.drop_first(), post, replies.drop_first()),
            _ => exists|mid: TelemetryTask|
                #[trigger] pre.step_rel(mid, ops[0]) && run_rel(
                    mid,
                    ops.drop_first(),
                    post,
                    replies,
                ),
        }
    }
}

impl TelemetryTask {
    /// Runs the collector over a batch of operations, as the dedicated
    /// worker would: each operation is processed in order, a terminate
    /// operation ends the run at once, and the snapshots that serialize
    /// operations produced come back in order.
    pub fn run(&mut self, ops: Vec<Op>) -> (r: Vec<Json>)
        requires
            old(self).wf(),
            accepts_seq(*old(self), ops@),
        ensures
            final(self).wf(),
            run_rel(*old(self), ops@, *final(self), r@),
        decreases ops@.len(),
    {
        let ghost all_ops = ops@;
        let mut ops = ops;
        if ops.len() == 0 {
            let r: Vec<Json> = Vec::new();
            return r;
        }
        let op = ops.remove(0);
        let stop = matches!(op, Op::Terminate);
        let ghost gop = op;
        let reply = self.process(op);
        let ghost mid = *self;
        proof {
            assert(old(self).step_rel(mid, gop));
            assert(all_ops[0] == gop);
            assert(ops@ =~= all_ops.drop_first());
        }
        if stop {
            let r: Vec<Json> = Vec::new();
            return r;
        }
        proof {
            assert(accepts_seq(*self, ops@));
        }
        let mut rest = self.run(ops);
        let ghost sub_replies = rest@;
        match reply {
            Option::Some(piece) => {
                let ghost gpiece = piece;
                rest.insert(0, piece);
                proof {
                    assert(rest@ =~= seq![gpiece] + sub_replies);
                    assert(rest@.drop_first() =~= sub_replies);
                    assert(rest@[0] == gpiece);
                }
            },
            Option::None => {},
        }
        proof {
            match gop {
                Op::Serialize(what, format) => {
                    assert(mid == *old(self));
                    assert(run_rel(*old(self), all_ops, *self, rest@));
                },
                _ => {
                    assert(run_rel(*old(self), all_ops, *self, rest@));
                },
            }
        }
        rest
    }
}


/// A collector state after absorbing a whole sequence of plain record
/// operations, one step at a time.
pub open spec fn record_ops_rel(
    pre: TelemetryTask,
    rs: Seq<(usize, u32)>,
    post: TelemetryTask,
) -> bool
    decreases rs.len(),
{
    if rs.len() == 0 {
        post == pre
    } else {
        exists|mid: TelemetryTask|
            #[trigger] pre.step_rel(mid, Op::RecordPlain(rs[0].0, rs[0].1)) && record_ops_rel(
                mid,
                rs.drop_first(),
                post,
            )
    }
}

/// The values of a record sequence aimed at one slot, in order.
pub open spec fn values_for(rs: Seq<(usize, u32)>, slot: int) -> Seq<u32>
    decreases rs.len(),
{
    if rs.len() == 0 {
        Seq::empty()
    } else {
        (if rs[0].0 as int == slot {
            seq![rs[0].1]
        } else {
            Seq::empty()
        }) + values_for(rs.drop_first(), slot)
    }
}

/// Round trip at the collector: after a sequence of record operations on
/// registered slots, every slot holds exactly its starting storage with
/// the values aimed at that slot absorbed in order — no value is lost,
/// duplicated or delivered to another histogram — and nothing else about
/// the collector changes. Together with the exactness of `serialize`,
/// the serialized snapshot reproduces exactly the counts the recorded
/// sequence implies.
pub proof fn lemma_record_round_trip(
    pre: TelemetryTask,
    rs: Seq<(usize, u32)>,
    post: TelemetryTask,
)
    requires
        record_ops_rel(pre, rs, post),
        forall|i: int| 0 <= i < rs.len() ==> pre.plain_view().dom().contains(#[trigger] rs[i].0 as int),
    ensures
        post.plain_view().dom() =~= pre.plain_view().dom(),
        post.keyed_view() == pre.keyed_view(),
        post.keys.kv() == pre.keys.kv(),
        post.running == pre.running,
        forall|k: int|
            #[trigger] pre.plain_view().dom().contains(k) ==> post.plain_view()[k].name
                == pre.plain_view()[k].name && crate::plain::stored_seq(
                pre.plain_view()[k].contents,
                values_for(rs, k),
                post.plain_view()[k].contents,
            ),
    decreases rs.len(),
{
    if rs.len() == 0 {
        assert(post == pre);
        assert forall|k: int| #[trigger]
            pre.plain_view().dom().contains(k) implies post.plain_view()[k].name
            == pre.plain_view()[k].name && crate::plain::stored_seq(
            pre.plain_view()[k].contents,
            values_for(rs, k),
            post.plain_view()[k].contents,
        ) by {}
    } else {
        let slot0 = rs[0].0;
        let v0 = rs[0].1;
        let mid = choose|mid: TelemetryTask|
            #[trigger] pre.step_rel(mid, Op::RecordPlain(slot0, v0)) && record_ops_rel(
                mid,
                rs.drop_first(),
                post,
            );
        let s2 = choose|s2: PlainStorage|
            #![auto]
            pre.plain_view()[slot0 as int].contents.store_rel(s2, v0) && mid.plain_view()
                == pre.plain_view().insert(
                slot0 as int,
                NamedStorage { name: pre.plain_view()[slot0 as int].name, contents: s2 },
            );
        assert(mid.plain_view().dom() =~= pre.plain_view().dom());
        assert forall|i: int| 0 <= i < rs.drop_first().len() implies mid.plain_view().dom()
            .contains(#[trigger] rs.drop_first()[i].0 as int) by {
            assert(rs.drop_first()[i] == rs[i + 1]);
        }
        lemma_record_round_trip(mid, rs.drop_first(), post);
        assert forall|k: int| #[trigger]
            pre.plain_view().dom().contains(k) implies post.plain_view()[k].name
            == pre.plain_view()[k].name && crate::plain::stored_seq(
            pre.plain_view()[k].contents,
            values_for(rs, k),
            post.plain_view()[k].contents,
        ) by {
            if k == slot0 as int {
                assert(mid.plain_view()[k].contents == s2);
                assert(values_for(rs, k) =~= seq![v0] + values_for(rs.drop_first(), k));
                assert(values_for(rs, k)[0] == v0);
                assert(values_for(rs, k).drop_first() =~= values_for(rs.drop_first(), k));
                assert(crate::plain::stored_seq(
                    mid.plain_view()[k].contents,
                    values_for(rs.drop_first(), k),
                    post.plain_view()[k].contents,
                ));
            } else {
                assert(mid.plain_view()[k] == pre.plain_view()[k]);
                assert(values_for(rs, k) =~= values_for(rs.drop_first(), k));
            }
        }
    }
}


/// The serialization contract pins its output: any two snapshots that
/// satisfy `serialized_ok` for one collector state, subset and format are
/// one and the same value.
pub proof fn lemma_serialized_unique(
    t: TelemetryTask,
    what: Subset,
    format: SerializationFormat,
    m1: JsonModel,
    m2: JsonModel,
)
    requires
        t.wf(),
        t.serialized_ok(what, format, m1),
        t.serialized_ok(what, format, m2),
    ensures
        m1 == m2,
{
    let es1 = m1->Obj_0;
    let es2 = m2->Obj_0;
    assert forall|x: Seq<char>|
        crate::assoc::assoc_has_key(es1, x) implies crate::assoc::assoc_has_key(es2, x) by {
        let i = choose|i: int| 0 <= i < es1.len() && es1[i].0 == x;
        assert(t.entry_matches(what, format, es1[i]));
        if includes_plain(what) && exists|k: int|
            #![auto]
            t.plain_view().dom().contains(k) && t.plain_view()[k].name@ == x && t.plain_view()[
                k
            ].contents.render_spec(format) == es1[i].1 {
            let k = choose|k: int|
                #![auto]
                t.plain_view().dom().contains(k) && t.plain_view()[k].name@ == x;
            let j = choose|j: int| 0 <= j < es2.len() && es2[j].0 == t.plain_view()[k].name@;
            assert(es2[j].0 == x);
        } else {
            let k = choose|k: int|
                #![auto]
                t.keyed_view().dom().contains(k) && t.keyed_view()[k].name@ == x;
            let j = choose|j: int| 0 <= j < es2.len() && es2[j].0 == t.keyed_view()[k].name@;
            assert(es2[j].0 == x);
        }
    }
    assert forall|x: Seq<char>|
        crate::assoc::assoc_has_key(es2, x) implies crate::assoc::assoc_has_key(es1, x) by {
        let i = choose|i: int| 0 <= i < es2.len() && es2[i].0 == x;
        assert(t.entry_matches(what, format, es2[i]));
        if includes_plain(what) && exists|k: int|
            #![auto]
            t.plain_view().dom().contains(k) && t.plain_view()[k].name@ == x && t.plain_view()[
                k
            ].contents.render_spec(format) == es2[i].1 {
            let k = choose|k: int|
                #![auto]
                t.plain_view().dom().contains(k) && t.plain_view()[k].name@ == x;
            let j = choose|j: int| 0 <= j < es1.len() && es1[j].0 == t.plain_view()[k].name@;
            assert(es1[j].0 == x);
        } else {
            let k = choose|k: int|
                #![auto]
                t.keyed_view().dom().contains(k) && t.keyed_view()[k].name@ == x;
            let j = choose|j: int| 0 <= j < es1.len() && es1[j].0 == t.keyed_view()[k].name@;
            assert(es1[j].0 == x);
        }
    }
    assert forall|i: int, j: int|
        0 <= i < es1.len() && 0 <= j < es2.len() && (#[trigger] es1[i]).0 == (
        #[trigger] es2[j]).0 implies es1[i].1 == es2[j].1 by {
        assert(t.entry_matches(what, format, es1[i]));
        assert(t.entry_matches(what, format, es2[j]));
        let x = es1[i].0;
        if includes_plain(what) && exists|k: int|
            #![auto]
            t.plain_view().dom().contains(k) && t.plain_view()[k].name@ == x && t.plain_view()[
                k
            ].contents.render_spec(format) == es1[i].1 {
            let k1 = choose|k: int|
                #![auto]
                t.plain_view().dom().contains(k) && t.plain_view()[k].name@ == x
                    && t.plain_view()[k].contents.render_spec(format) == es1[i].1;
            if includes_plain(what) && exists|k: int|
                #![auto]
                t.plain_view().dom().contains(k) && t.plain_view()[k].name@ == x
                    && t.plain_view()[k].contents.render_spec(format) == es2[j].1 {
                let k2 = choose|k: int|
                    #![auto]
                    t.plain_view().dom().contains(k) && t.plain_view()[k].name@ == x
                        && t.plain_view()[k].contents.render_spec(format) == es2[j].1;
                assert(k1 == k2);
            } else {
                let k2 = choose|k: int|
                    #![auto]
                    t.keyed_view().dom().contains(k) && t.keyed_view()[k].name@ == x
                        && t.keyed_view()[k].contents.render_spec(format) == es2[j].1;
                assert(t.plain_view()[k1].name@ != t.keyed_view()[k2].name@);
            }
        } else {
            let k1 = choose|k: int|
                #![auto]
                t.keyed_view().dom().contains(k) && t.keyed_view()[k].name@ == x
                    && t.keyed_view()[k].contents.render_spec(format) == es1[i].1;
            if includes_keyed(what) && exists|k: int|
                #![auto]
                t.keyed_view().dom().contains(k) && t.keyed_view()[k].name@ == x
                    && t.keyed_view()[k].contents.render_spec(format) == es2[j].1 {
                let k2 = choose|k: int|
                    #![auto]
                    t.keyed_view().dom().contains(k) && t.keyed_view()[k].name@ == x
                        && t.keyed_view()[k].contents.render_spec(format) == es2[j].1;
                assert(k1 == k2);
            } else {
                let k2 = choose|k: int|
                    #![auto]
                    t.plain_view().dom().contains(k) && t.plain_view()[k].name@ == x
                        && t.plain_view()[k].contents.render_spec(format) == es2[j].1;
                assert(t.plain_view()[k2].name@ != t.keyed_view()[k1].name@);
            }
        }
    }
    crate::assoc::lemma_sorted_assoc_unique(es1, es2);
    assert(es1 == es2);
}

/// Features shared by all histogram handles: the key used to reach the
/// collector's storage for this histogram.
pub struct BackEnd<K> {
    /// The slot this handle's storage occupies.
    pub key: Key<K>,
}

impl<K> BackEnd<K> {
    /// Creates a back-end attached to a service and a key.
    pub fn new(service: &Service, key: Key<K>) -> (r: BackEnd<K>)
        ensures
            r.key.index == key.index,
    {
        BackEnd { key }
    }

    /// The key, if and only if the service is currently active.
    pub fn get_key<'a>(&'a self, service: &Service) -> (r: Option<&'a Key<K>>)
        ensures
            service.is_active ==> (r matches Option::Some(k) && k.index == self.key.index),
            !service.is_active ==> r is None,
    {
        if service.is_active() {
            Option::Some(&self.key)
        } else {
            Option::None
        }
    }
}

impl<K> Clone for BackEnd<K> {
    fn clone(&self) -> (r: Self)
        ensures
            r.key.index == self.key.index,
    {
        BackEnd { key: self.key.clone() }
    }
}

} // verus!
