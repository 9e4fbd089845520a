//! Keyed histograms: families of measures indexed by a runtime string.
//! Each storage fans out into one sub-state per key, created lazily on
//! first use, and serializes its keys in lexicographic order.

use vstd::prelude::*;

use crate::assoc::{
    assoc_insert, assoc_sorted, assoc_views, lemma_assoc_insert, lemma_assoc_insert_at,
    lemma_assoc_insert_entries, lemma_assoc_views_insert, SortedMap,
};
use crate::json::{
    lemma_entries_view_len, lemma_jsons_view_len, lemma_lex_irreflexive, Json, JsonModel,
};
use crate::misc::{
    copy_u32_vec, counts_to_json_array, num_models, zero_seq, zero_vec, LinearBuckets,
    SerializationFormat,
};
use crate::indexing::{Key, Keyed};
use crate::misc::{Flatten, NamedStorage};
use crate::service::{recorded_keyed, PrivateAccess, Service};
use crate::task::{BackEnd, KeyedRawStorage, KeyedStorage, Op};

verus! {

/// A value that can serve as the runtime key of a keyed histogram.
pub trait AsKey: Sized {
    /// The characters of the key this value stands for.
    spec fn key_spec(&self) -> Seq<char>;

    /// Renders this value as the key string.
    fn to_key(&self) -> (r: String)
        ensures
            r@ == self.key_spec(),
    ;
}

impl AsKey for String {
    open spec fn key_spec(&self) -> Seq<char> {
        self@
    }

    fn to_key(&self) -> (r: String)
        ensures
            r@ == self.key_spec(),
    {
        self.clone()
    }
}

impl<'a> AsKey for &'a str {
    open spec fn key_spec(&self) -> Seq<char> {
        (*self)@
    }

    fn to_key(&self) -> (r: String)
        ensures
            r@ == self.key_spec(),
    {
        (*self).to_owned()
    }
}

/// The flattened form of an optionally produced key and value.
pub open spec fn flatten_pair_opt<K: AsKey, T: Flatten>(o: Option<(K, T)>) -> Option<
    (Seq<char>, u32),
> {
    match o {
        Option::None => Option::None,
        Option::Some((k, v)) => Option::Some((k.key_spec(), v.flatten_spec())),
    }
}

/// What one record attempt through a keyed back-end does: when the service
/// is active and a pair was produced, the collector stored it and the
/// attempt reports success; otherwise nothing changes.
pub open spec fn raw_recorded_keyed(
    pre_s: Service,
    post_s: Service,
    slot: int,
    active: bool,
    o: Option<(Seq<char>, u32)>,
    sent: bool,
) -> bool {
    match o {
        Option::Some(p) => if active {
            recorded_keyed(pre_s, post_s, slot, p.0, p.1) && sent
        } else {
            post_s == pre_s && !sent
        },
        Option::None => post_s == pre_s && !sent,
    }
}

/// A keyed histogram: a family of measures indexed by a runtime key.
/// Recording is a no-op while the service is inactive, and the producer
/// callback is only run when recording will actually happen.
pub trait KeyedHistogram<K: AsKey, T: Flatten>: Sized {
    /// Does this handle point at a registered storage of `service`?
    spec fn valid(&self, service: &Service) -> bool;

    /// Will a record attempt actually reach the collector?
    spec fn armed(&self, service: &Service) -> bool;

    /// Can the value be absorbed under the key without counter overflow?
    spec fn can_record(&self, service: &Service, key: Seq<char>, value: u32) -> bool;

    /// What recording changes, given the key and flattened value the
    /// producer yielded (or nothing).
    spec fn record_rel(
        pre: Self,
        pre_s: Service,
        post: Self,
        post_s: Service,
        produced: Option<(Seq<char>, u32)>,
    ) -> bool;

    /// Records a value under a key. If the service is currently inactive,
    /// this is a no-op.
    fn record(&mut self, service: &mut Service, key: K, value: T)
        requires
            old(self).valid(old(service)),
            old(service).wf(),
            old(self).can_record(old(service), key.key_spec(), value.flatten_spec()),
        ensures
            final(service).wf(),
            Self::record_rel(
                *old(self),
                *old(service),
                *final(self),
                *final(service),
                Option::Some((key.key_spec(), value.flatten_spec())),
            ),
    ;

    /// Records a pair provided by a callback, which is only invoked when
    /// recording will actually happen. If the callback yields nothing, no
    /// value is recorded.
    fn record_cb<F: FnOnce() -> Option<(K, T)>>(&mut self, service: &mut Service, cb: F)
        requires
            old(self).valid(old(service)),
            old(service).wf(),
            call_requires(cb, ()),
            forall|k: K, v: T|
                call_ensures(cb, (), Option::Some((k, v))) ==> old(self).can_record(
                    old(service),
                    k.key_spec(),
                    v.flatten_spec(),
                ),
        ensures
            final(service).wf(),
            exists|o: Option<(K, T)>|
                (old(self).armed(old(service)) ==> call_ensures(cb, (), o)) && Self::record_rel(
                    *old(self),
                    *old(service),
                    *final(self),
                    *final(service),
                    #[trigger] flatten_pair_opt(o),
                ),
    ;
}

impl<K: AsKey> BackEnd<Keyed<K>> {
    /// Instructs the collector to record a value in an already registered
    /// keyed histogram.
    pub fn raw_record(&self, service: &mut Service, k: &Key<Keyed<K>>, key: String, value: u32)
        requires
            old(service).wf(),
            old(service).task.keyed_view().dom().contains(k.index as int),
            old(service).task.keyed_view()[k.index as int].contents.can_store(key@, value),
        ensures
            final(service).wf(),
            recorded_keyed(*old(service), *final(service), k.index as int, key@, value),
    {
        let _reply = service.task.process(Op::RecordKeyed(k.index, key, value));
        proof {
            assert(service.task.keyed_view().dom() =~= old(service).task.keyed_view().dom());
        }
    }

    /// Records the result of a callback in an already registered keyed
    /// histogram, reporting whether a value was sent to the collector.
    pub fn raw_record_cb<T: Flatten, F: FnOnce() -> Option<(K, T)>>(
        &self,
        service: &mut Service,
        cb: F,
    ) -> (r: bool)
        requires
            old(service).wf(),
            old(service).task.keyed_view().dom().contains(self.key.index as int),
            call_requires(cb, ()),
            forall|k: K, v: T|
                call_ensures(cb, (), Option::Some((k, v))) ==> old(service).task.keyed_view()[
                    self.key.index as int
                ].contents.can_store(k.key_spec(), v.flatten_spec()),
        ensures
            final(service).wf(),
            exists|o: Option<(K, T)>|
                (old(service).is_active ==> call_ensures(cb, (), o)) && raw_recorded_keyed(
                    *old(service),
                    *final(service),
                    self.key.index as int,
                    old(service).is_active,
                    #[trigger] flatten_pair_opt(o),
                    r,
                ),
    {
        let active = match self.get_key(service) {
            Option::Some(_) => true,
            Option::None => false,
        };
        if active {
            match cb() {
                Option::Some(pair) => {
                    let (k, v) = pair;
                    let key_string = k.to_key();
                    let u = v.as_u32();
                    let slot = self.key.clone();
                    proof {
                        assert(call_ensures(cb, (), Option::Some((k, v))));
                    }
                    self.raw_record(service, &slot, key_string, u);
                    proof {
                        let o = Option::Some((k, v));
                        assert((old(service).is_active ==> call_ensures(cb, (), o))
                            && raw_recorded_keyed(
                            *old(service),
                            *final(service),
                            self.key.index as int,
                            old(service).is_active,
                            flatten_pair_opt(o),
                            true,
                        ));
                    }
                    true
                },
                Option::None => {
                    proof {
                        let o = Option::<(K, T)>::None;
                        assert((old(service).is_active ==> call_ensures(cb, (), o))
                            && raw_recorded_keyed(
                            *old(service),
                            *final(service),
                            self.key.index as int,
                            old(service).is_active,
                            flatten_pair_opt(o),
                            false,
                        ));
                    }
                    false
                },
            }
        } else {
            proof {
                let o = Option::<(K, T)>::None;
                assert((old(service).is_active ==> call_ensures(cb, (), o)) && raw_recorded_keyed(
                    *old(service),
                    *final(service),
                    self.key.index as int,
                    old(service).is_active,
                    flatten_pair_opt(o),
                    false,
                ));
            }
            false
        }
    }
}

/// Replacing the value of one entry in place is the same as inserting its
/// key anew, seen at the level of views.
proof fn lemma_views_replace<V: View>(s: Seq<(Seq<char>, V)>, i: int, v: V)
    requires
        assoc_sorted(s),
        0 <= i < s.len(),
    ensures
        assoc_views(s.update(i, (s[i].0, v))) =~= assoc_insert(assoc_views(s), s[i].0, v@),
{
    let w = assoc_views(s);
    assert(assoc_sorted(w));
    lemma_lex_irreflexive(s[i].0);
    lemma_assoc_insert_at(w, s[i].0, v@, i);
    assert(assoc_views(s.update(i, (s[i].0, v))) =~= w.update(i, (s[i].0, v@)));
}

/// The same, for entries whose values stand for themselves.
proof fn lemma_plain_replace<V>(s: Seq<(Seq<char>, V)>, i: int, v: V)
    requires
        assoc_sorted(s),
        0 <= i < s.len(),
    ensures
        s.update(i, (s[i].0, v)) =~= assoc_insert(s, s[i].0, v),
{
    lemma_lex_irreflexive(s[i].0);
    lemma_assoc_insert_at(s, s[i].0, v, i);
}

// ---------------------------------------------------------------------------
// Keyed flag storage.
// ---------------------------------------------------------------------------

/// The storage of a keyed flag histogram: the set of keys seen so far,
/// kept sorted. Owned by the collector.
pub struct KeyedFlagStorage {
    pub encountered: SortedMap<()>,
}

impl KeyedFlagStorage {
    /// The rendering in either format: the keys seen so far, sorted, each
    /// appearing once.
    pub open spec fn render_simple(&self) -> JsonModel {
        JsonModel::Arr(
            Seq::new(self.encountered.kv().len(), |i: int| JsonModel::Str(self.encountered.kv()[i].0)),
        )
    }
}

impl KeyedRawStorage for KeyedFlagStorage {
    open spec fn wf(&self) -> bool {
        self.encountered.wf()
    }

    open spec fn can_store(&self, key: Seq<char>, value: u32) -> bool {
        true
    }

    open spec fn store_rel(&self, post: Self, key: Seq<char>, value: u32) -> bool {
        post.encountered.kv() == assoc_insert(self.encountered.kv(), key, ())
    }

    open spec fn render_spec(&self, format: SerializationFormat) -> JsonModel {
        self.render_simple()
    }

    fn store(&mut self, key: String, value: u32) {
        self.encountered.insert(key, ());
    }

    fn to_json(&self, format: &SerializationFormat) -> (r: Json) {
        let mut keys: Vec<Json> = Vec::new();
        let n = self.encountered.len();
        let mut i: usize = 0;
        while i < n
            invariant
                i <= n,
                n == self.encountered.kv().len(),
                keys@.len() == i,
                forall|j: int|
                    0 <= j < i ==> ((#[trigger] keys@[j]) matches Json::Str(s) && s@
                        == self.encountered.kv()[j].0),
            decreases n - i,
        {
            keys.push(Json::Str(self.encountered.entries[i].0.clone()));
            i = i + 1;
        }
        let r = Json::Array(keys);
        proof {
            lemma_jsons_view_len(keys@);
            assert(crate::json::jsons_view(keys@) =~= Seq::new(
                self.encountered.kv().len(),
                |i: int| JsonModel::Str(self.encountered.kv()[i].0),
            ));
        }
        r
    }
}

// ---------------------------------------------------------------------------
// Keyed linear storage.
// ---------------------------------------------------------------------------

/// The storage of a keyed linear histogram: one array of bucket counts per
/// key, all sharing one bucket shape. Owned by the collector.
pub struct KeyedLinearStorage {
    pub values: SortedMap<Vec<u32>>,
    pub shape: LinearBuckets,
}

impl KeyedLinearStorage {
    pub fn new(shape: LinearBuckets) -> (r: KeyedLinearStorage)
        requires
            shape.wf(),
        ensures
            r.shape == shape,
            r.values.kv() == Seq::<(Seq<char>, Vec<u32>)>::empty(),
            r.wf(),
    {
        KeyedLinearStorage { values: SortedMap::new(), shape }
    }

    /// The counts under `key`, or a fresh row of zeros if the key is new.
    pub open spec fn counts_at(&self, key: Seq<char>) -> Seq<u32> {
        if self.values.map_view().dom().contains(key) {
            self.values.map_view()[key]@
        } else {
            zero_seq(self.shape.buckets as nat)
        }
    }

    /// The counts under `key` after absorbing `value`.
    pub open spec fn stored_counts(&self, key: Seq<char>, value: u32) -> Seq<u32> {
        let cur = self.counts_at(key);
        cur.update(self.shape.bucket_of(value), (cur[self.shape.bucket_of(value)] + 1) as u32)
    }

    /// The rendering in either format: an object with one field per key,
    /// sorted, holding that key's bucket counts.
    pub open spec fn render_simple(&self) -> JsonModel {
        JsonModel::Obj(
            Seq::new(
                self.values.kv().len(),
                |i: int|
                    (
                        self.values.kv()[i].0,
                        JsonModel::Arr(num_models(self.values.kv()[i].1@)),
                    ),
            ),
        )
    }
}

impl KeyedRawStorage for KeyedLinearStorage {
    open spec fn wf(&self) -> bool {
        &&& self.values.wf()
        &&& self.shape.wf()
        &&& forall|i: int|
            0 <= i < self.values.kv().len() ==> (#[trigger] self.values.kv()[i].1)@.len()
                == self.shape.buckets
    }

    open spec fn can_store(&self, key: Seq<char>, value: u32) -> bool {
        self.counts_at(key)[self.shape.bucket_of(value)] < u32::MAX
    }

    open spec fn store_rel(&self, post: Self, key: Seq<char>, value: u32) -> bool {
        &&& post.shape == self.shape
        &&& assoc_views(post.values.kv()) == assoc_insert(
            assoc_views(self.values.kv()),
            key,
            self.stored_counts(key, value),
        )
    }

    open spec fn render_spec(&self, format: SerializationFormat) -> JsonModel {
        self.render_simple()
    }

    fn store(&mut self, key: String, value: u32) {
        let index = self.shape.get_bucket(value);
        let ghost gkey = key@;
        match self.values.find(key.as_str()) {
            Option::Some(i) => {
                let mut vec = copy_u32_vec(&self.values.entries[i].1);
                vec[index] = vec[index] + 1;
                let ghost pre = self.values.kv();
                let ghost gv = vec;
                let _old_vec = self.values.replace_at(i, vec);
                proof {
                    lemma_views_replace(pre, i as int, gv);
                    assert(gv@ =~= old(self).stored_counts(gkey, value));
                    assert forall|j: int| 0 <= j < self.values.kv().len() implies (
                    #[trigger] self.values.kv()[j].1)@.len() == self.shape.buckets by {
                        if j != i {
                            assert(self.values.kv()[j] == pre[j]);
                        }
                    }
                }
            },
            Option::None => {
                let mut vec = zero_vec(self.shape.get_bucket_count());
                vec[index] = vec[index] + 1;
                let ghost pre = self.values.kv();
                let ghost gv = vec;
                self.values.insert(key, vec);
                proof {
                    lemma_assoc_views_insert(pre, gkey, gv);
                    assert(gv@ =~= old(self).stored_counts(gkey, value));
                    lemma_assoc_insert_entries(pre, gkey, gv);
                    assert forall|j: int| 0 <= j < self.values.kv().len() implies (
                    #[trigger] self.values.kv()[j].1)@.len() == self.shape.buckets by {
                        assert(self.values.kv()[j] == assoc_insert(pre, gkey, gv)[j]);
                    }
                }
            },
        }
    }

    fn to_json(&self, format: &SerializationFormat) -> (r: Json) {
        let mut entries: Vec<(String, Json)> = Vec::new();
        let n = self.values.len();
        let mut i: usize = 0;
        while i < n
            invariant
                i <= n,
                n == self.values.kv().len(),
                entries@.len() == i,
                forall|j: int|
                    0 <= j < i ==> (#[trigger] entries@[j]).0@ == self.values.kv()[j].0
                        && entries@[j].1@ == JsonModel::Arr(num_models(self.values.kv()[j].1@)),
            decreases n - i,
        {
            let arr = counts_to_json_array(&self.values.entries[i].1);
            entries.push((self.values.entries[i].0.clone(), arr));
            i = i + 1;
        }
        let r = Json::Object(entries);
        proof {
            lemma_entries_view_len(entries@);
            assert(crate::json::entries_view(entries@) =~= Seq::new(
                self.values.kv().len(),
                |i: int|
                    (
                        self.values.kv()[i].0,
                        JsonModel::Arr(num_models(self.values.kv()[i].1@)),
                    ),
            ));
        }
        r
    }
}

// ---------------------------------------------------------------------------
// Keyed count storage.
// ---------------------------------------------------------------------------

/// The storage of a keyed count histogram: one accumulator per key. Owned
/// by the collector.
pub struct KeyedCountStorage {
    pub values: SortedMap<u32>,
}

impl KeyedCountStorage {
    /// The accumulator under `key`, or zero if the key is new.
    pub open spec fn count_at(&self, key: Seq<char>) -> u32 {
        if self.values.map_view().dom().contains(key) {
            self.values.map_view()[key]
        } else {
            0
        }
    }

    /// The rendering in either format: an object with one field per key,
    /// sorted, holding that key's accumulated number.
    pub open spec fn render_simple(&self) -> JsonModel {
        JsonModel::Obj(
            Seq::new(
                self.values.kv().len(),
                |i: int| (self.values.kv()[i].0, JsonModel::Num(self.values.kv()[i].1 as int)),
            ),
        )
    }
}

impl KeyedRawStorage for KeyedCountStorage {
    open spec fn wf(&self) -> bool {
        self.values.wf()
    }

    open spec fn can_store(&self, key: Seq<char>, value: u32) -> bool {
        self.count_at(key) + value <= u32::MAX
    }

    open spec fn store_rel(&self, post: Self, key: Seq<char>, value: u32) -> bool {
        post.values.kv() == assoc_insert(
            self.values.kv(),
            key,
            (self.count_at(key) + value) as u32,
        )
    }

    open spec fn render_spec(&self, format: SerializationFormat) -> JsonModel {
        self.render_simple()
    }

    fn store(&mut self, key: String, value: u32) {
        match self.values.find(key.as_str()) {
            Option::Some(i) => {
                let cur = self.values.entries[i].1;
                let ghost pre = self.values.kv();
                let _old_value = self.values.replace_at(i, cur + value);
                proof {
                    lemma_plain_replace(pre, i as int, ((old(self).count_at(key@) + value) as u32));
                }
            },
            Option::None => {
                self.values.insert(key, value);
            },
        }
    }

    fn to_json(&self, format: &SerializationFormat) -> (r: Json) {
        let mut entries: Vec<(String, Json)> = Vec::new();
        let n = self.values.len();
        let mut i: usize = 0;
        while i < n
            invariant
                i <= n,
                n == self.values.kv().len(),
                entries@.len() == i,
                forall|j: int|
                    0 <= j < i ==> (#[trigger] entries@[j]).0@ == self.values.kv()[j].0
                        && entries@[j].1@ == JsonModel::Num(self.values.kv()[j].1 as int),
            decreases n - i,
        {
            entries.push((self.values.entries[i].0.clone(), Json::I64(self.values.entries[i].1 as i64)));
            i = i + 1;
        }
        let r = Json::Object(entries);
        proof {
            lemma_entries_view_len(entries@);
            assert(crate::json::entries_view(entries@) =~= Seq::new(
                self.values.kv().len(),
                |i: int| (self.values.kv()[i].0, JsonModel::Num(self.values.kv()[i].1 as int)),
            ));
        }
        r
    }
}

// ---------------------------------------------------------------------------
// Keyed enumerated storage.
// ---------------------------------------------------------------------------

/// The storage of a keyed enumerated histogram: one dynamically growing
/// array of label counts per key. Owned by the collector.
pub struct KeyedEnumStorage {
    pub values: SortedMap<Vec<u32>>,
}

impl KeyedEnumStorage {
    /// The label counts under `key`, or an empty row if the key is new.
    pub open spec fn counts_at(&self, key: Seq<char>) -> Seq<u32> {
        if self.values.map_view().dom().contains(key) {
            self.values.map_view()[key]@
        } else {
            Seq::empty()
        }
    }

    /// The rendering in either format: an object with one field per key,
    /// sorted, holding that key's label counts.
    pub open spec fn render_simple(&self) -> JsonModel {
        JsonModel::Obj(
            Seq::new(
                self.values.kv().len(),
                |i: int|
                    (
                        self.values.kv()[i].0,
                        JsonModel::Arr(num_models(self.values.kv()[i].1@)),
                    ),
            ),
        )
    }
}

impl KeyedRawStorage for KeyedEnumStorage {
    open spec fn wf(&self) -> bool {
        &&& self.values.wf()
        &&& forall|i: int|
            0 <= i < self.values.kv().len() ==> (#[trigger] self.values.kv()[i].1)@.len()
                <= u32::MAX as int + 1
    }

    open spec fn can_store(&self, key: Seq<char>, value: u32) -> bool {
        &&& (value as int) < self.counts_at(key).len() ==> self.counts_at(key)[value as int]
            < u32::MAX
        &&& value as int + 1 <= usize::MAX
    }

    open spec fn store_rel(&self, post: Self, key: Seq<char>, value: u32) -> bool {
        assoc_views(post.values.kv()) == assoc_insert(
            assoc_views(self.values.kv()),
            key,
            crate::plain::enum_store_values(self.counts_at(key), value),
        )
    }

    open spec fn render_spec(&self, format: SerializationFormat) -> JsonModel {
        self.render_simple()
    }

    fn store(&mut self, key: String, value: u32) {
        let idx = value as usize;
        let ghost gkey = key@;
        match self.values.find(key.as_str()) {
            Option::Some(i) => {
                let mut vec = copy_u32_vec(&self.values.entries[i].1);
                grow_and_bump(&mut vec, idx);
                let ghost pre = self.values.kv();
                let ghost gv = vec;
                let _old_vec = self.values.replace_at(i, vec);
                proof {
                    lemma_views_replace(pre, i as int, gv);
                    assert forall|j: int| 0 <= j < self.values.kv().len() implies (
                    #[trigger] self.values.kv()[j].1)@.len() <= u32::MAX as int + 1 by {
                        if j != i {
                            assert(self.values.kv()[j] == pre[j]);
                        }
                    }
                }
            },
            Option::None => {
                let mut vec: Vec<u32> = Vec::new();
                grow_and_bump(&mut vec, idx);
                let ghost pre = self.values.kv();
                let ghost gv = vec;
                self.values.insert(key, vec);
                proof {
                    lemma_assoc_views_insert(pre, gkey, gv);
                    lemma_assoc_insert_entries(pre, gkey, gv);
                    assert forall|j: int| 0 <= j < self.values.kv().len() implies (
                    #[trigger] self.values.kv()[j].1)@.len() <= u32::MAX as int + 1 by {
                        assert(self.values.kv()[j] == assoc_insert(pre, gkey, gv)[j]);
                    }
                }
            },
        }
    }

    fn to_json(&self, format: &SerializationFormat) -> (r: Json) {
        let mut entries: Vec<(String, Json)> = Vec::new();
        let n = self.values.len();
        let mut i: usize = 0;
        while i < n
            invariant
                i <= n,
                n == self.values.kv().len(),
                entries@.len() == i,
                forall|j: int|
                    0 <= j < i ==> (#[trigger] entries@[j]).0@ == self.values.kv()[j].0
                        && entries@[j].1@ == JsonModel::Arr(num_models(self.values.kv()[j].1@)),
            decreases n - i,
        {
            let arr = counts_to_json_array(&self.values.entries[i].1);
            entries.push((self.values.entries[i].0.clone(), arr));
            i = i + 1;
        }
        let r = Json::Object(entries);
        proof {
            lemma_entries_view_len(entries@);
            assert(crate::json::entries_view(entries@) =~= Seq::new(
                self.values.kv().len(),
                |i: int|
                    (
                        self.values.kv()[i].0,
                        JsonModel::Arr(num_models(self.values.kv()[i].1@)),
                    ),
            ));
        }
        r
    }
}

/// Grows `vec` with zeros so that label `idx` exists, then raises its count
/// by one.
fn grow_and_bump(vec: &mut Vec<u32>, idx: usize)
    requires
        idx < old(vec)@.len() ==> old(vec)@[idx as int] < u32::MAX,
        idx < usize::MAX,
        idx <= u32::MAX,
    ensures
        final(vec)@ == crate::plain::enum_store_values(old(vec)@, idx as u32),
{
    if idx < vec.len() {
        vec[idx] = vec[idx] + 1;
        proof {
            assert(vec@ =~= crate::plain::enum_store_values(old(vec)@, idx as u32));
        }
    } else {
        while vec.len() < idx
            invariant
                old(vec)@.len() <= vec@.len() <= idx,
                vec@.subrange(0, old(vec)@.len() as int) == old(vec)@,
                forall|j: int| old(vec)@.len() <= j < vec@.len() ==> vec@[j] == 0u32,
            decreases idx - vec@.len(),
        {
            let ghost pre = vec@;
            vec.push(0);
            proof {
                assert(vec@.subrange(0, old(vec)@.len() as int) =~= pre.subrange(
                    0,
                    old(vec)@.len() as int,
                ));
            }
        }
        vec.push(1);
        proof {
            assert(vec@ =~= crate::plain::enum_store_values(old(vec)@, idx as u32));
        }
    }
}

// ---------------------------------------------------------------------------
// Front-end handles.
// ---------------------------------------------------------------------------

/// A keyed histogram that ignores any input.
pub struct KeyedIgnoring<T, U> {
    pub witness: core::marker::PhantomData<(T, U)>,
}

impl<T, U> KeyedIgnoring<T, U> {
    /// Creates a keyed histogram that ignores any input.
    pub fn new() -> (r: KeyedIgnoring<T, U>) {
        KeyedIgnoring { witness: core::marker::PhantomData }
    }
}

impl<K: AsKey, T: Flatten> KeyedHistogram<K, T> for KeyedIgnoring<K, T> {
    open spec fn valid(&self, service: &Service) -> bool {
        true
    }

    open spec fn armed(&self, service: &Service) -> bool {
        false
    }

    open spec fn can_record(&self, service: &Service, key: Seq<char>, value: u32) -> bool {
        true
    }

    open spec fn record_rel(
        pre: Self,
        pre_s: Service,
        post: Self,
        post_s: Service,
        produced: Option<(Seq<char>, u32)>,
    ) -> bool {
        post_s == pre_s
    }

    fn record(&mut self, service: &mut Service, key: K, value: T) {
    }

    fn record_cb<F: FnOnce() -> Option<(K, T)>>(&mut self, service: &mut Service, cb: F) {
        proof {
            assert(Self::record_rel(
                *old(self),
                *old(service),
                *self,
                *service,
                flatten_pair_opt(Option::<(K, T)>::None),
            ));
        }
    }
}

impl<T, U> Clone for KeyedIgnoring<T, U> {
    fn clone(&self) -> (r: Self) {
        KeyedIgnoring { witness: core::marker::PhantomData }
    }
}

/// A keyed flag histogram: each key is unset until first recorded under,
/// set forever after.
pub struct KeyedFlag<T> {
    pub back_end: BackEnd<Keyed<T>>,
}

impl<K: AsKey> KeyedFlag<K> {
    /// Creates a new keyed flag histogram with a given name, which must be
    /// unique to the service.
    pub fn new(service: &mut Service, name: String) -> (r: KeyedFlag<K>)
        requires
            old(service).wf(),
            !old(service).task.has_name(name@),
            old(service).keys_keyed.counter < usize::MAX,
        ensures
            final(service).wf(),
            final(service).is_active == old(service).is_active,
            r.back_end.key.index == old(service).keys_keyed.counter,
            final(service).task.keyed_view() == old(service).task.keyed_view().insert(
                r.back_end.key.index as int,
                final(service).task.keyed_view()[r.back_end.key.index as int],
            ),
            final(service).task.keyed_view()[r.back_end.key.index as int].name@ == name@,
            final(service).task.keyed_view()[r.back_end.key.index as int].contents matches
                KeyedStorage::Flag(f) && f.encountered.kv() == Seq::<(Seq<char>, ())>::empty(),
            final(service).task.plain_view() == old(service).task.plain_view(),
            final(service).task.keys.kv() == crate::assoc::assoc_insert(
                old(service).task.keys.kv(),
                name@,
                (),
            ),
            final(service).keys_keyed.counter == old(service).keys_keyed.counter + 1,
            final(service).keys_plain == old(service).keys_plain,
    {
        let storage = KeyedStorage::Flag(KeyedFlagStorage { encountered: SortedMap::new() });
        let key = PrivateAccess::register_keyed::<K>(service, name, storage);
        proof {
            assert(final(service).task.keyed_view() =~= old(service).task.keyed_view().insert(
                key.index as int,
                final(service).task.keyed_view()[key.index as int],
            ));
        }
        KeyedFlag { back_end: BackEnd::new(service, key) }
    }
}

impl<K: AsKey> KeyedHistogram<K, ()> for KeyedFlag<K> {
    open spec fn valid(&self, service: &Service) -> bool {
        service.task.keyed_view().dom().contains(self.back_end.key.index as int)
    }

    open spec fn armed(&self, service: &Service) -> bool {
        service.is_active
    }

    open spec fn can_record(&self, service: &Service, key: Seq<char>, value: u32) -> bool {
        service.task.keyed_view()[self.back_end.key.index as int].contents.can_store(key, value)
    }

    open spec fn record_rel(
        pre: Self,
        pre_s: Service,
        post: Self,
        post_s: Service,
        produced: Option<(Seq<char>, u32)>,
    ) -> bool {
        match produced {
            Option::Some(p) => if pre.armed(&pre_s) {
                &&& recorded_keyed(pre_s, post_s, pre.back_end.key.index as int, p.0, p.1)
                &&& post.back_end.key.index == pre.back_end.key.index
            } else {
                post == pre && post_s == pre_s
            },
            Option::None => post == pre && post_s == pre_s,
        }
    }

    fn record(&mut self, service: &mut Service, key: K, value: ()) {
        if service.is_active() {
            let key_string = key.to_key();
            let u = value.as_u32();
            let slot = self.back_end.key.clone();
            self.back_end.raw_record(service, &slot, key_string, u);
        }
    }

    fn record_cb<F: FnOnce() -> Option<(K, ())>>(&mut self, service: &mut Service, cb: F) {
        proof {
            assert forall|k: K, v: ()|
                call_ensures(cb, (), Option::Some((k, v))) implies old(service).task.keyed_view()[
                old(self).back_end.key.index as int
            ].contents.can_store(k.key_spec(), v.flatten_spec()) by {
                assert(old(self).can_record(old(service), k.key_spec(), v.flatten_spec()));
            }
        }
        let sent = self.back_end.raw_record_cb(service, cb);
        proof {
            assert forall|o: Option<(K, ())>|
                (old(service).is_active ==> call_ensures(cb, (), o)) && raw_recorded_keyed(
                    *old(service),
                    *service,
                    old(self).back_end.key.index as int,
                    old(service).is_active,
                    #[trigger] flatten_pair_opt(o),
                    sent,
                ) implies (old(self).armed(old(service)) ==> call_ensures(cb, (), o))
                && Self::record_rel(
                *old(self),
                *old(service),
                *self,
                *service,
                flatten_pair_opt(o),
            ) by {}
        }
    }
}

impl<T> Clone for KeyedFlag<T> {
    fn clone(&self) -> (r: Self)
        ensures
            r.back_end.key.index == self.back_end.key.index,
    {
        KeyedFlag { back_end: self.back_end.clone() }
    }
}

/// A keyed linear histogram: one array of same-sized buckets per key.
pub struct KeyedLinear<K, T> where T: Flatten {
    pub witness: core::marker::PhantomData<T>,
    pub back_end: BackEnd<Keyed<K>>,
}

impl<K: AsKey, T: Flatten> KeyedLinear<K, T> {
    /// Creates a new keyed linear histogram with a given name, which must
    /// be unique to the service. Values below `min` count into the first
    /// bucket and values above `max` into the last.
    pub fn new(service: &mut Service, name: String, min: u32, max: u32, buckets: usize) -> (r:
        KeyedLinear<K, T>)
        requires
            old(service).wf(),
            !old(service).task.has_name(name@),
            old(service).keys_keyed.counter < usize::MAX,
            min < max,
            buckets > 0,
            (buckets as int) < max as int - min as int,
        ensures
            final(service).wf(),
            final(service).is_active == old(service).is_active,
            r.back_end.key.index == old(service).keys_keyed.counter,
            final(service).task.keyed_view() == old(service).task.keyed_view().insert(
                r.back_end.key.index as int,
                final(service).task.keyed_view()[r.back_end.key.index as int],
            ),
            final(service).task.keyed_view()[r.back_end.key.index as int].name@ == name@,
            final(service).task.keyed_view()[r.back_end.key.index as int].contents matches
                KeyedStorage::Linear(f) && f.values.kv() == Seq::<(Seq<char>, Vec<u32>)>::empty()
                && f.shape == (LinearBuckets { min, max, buckets }),
            final(service).task.plain_view() == old(service).task.plain_view(),
            final(service).task.keys.kv() == crate::assoc::assoc_insert(
                old(service).task.keys.kv(),
                name@,
                (),
            ),
            final(service).keys_keyed.counter == old(service).keys_keyed.counter + 1,
            final(service).keys_plain == old(service).keys_plain,
    {
        let shape = LinearBuckets::new(min, max, buckets);
        let storage = KeyedStorage::Linear(KeyedLinearStorage::new(shape));
        let key = PrivateAccess::register_keyed::<K>(service, name, storage);
        proof {
            assert(final(service).task.keyed_view() =~= old(service).task.keyed_view().insert(
                key.index as int,
                final(service).task.keyed_view()[key.index as int],
            ));
        }
        KeyedLinear { witness: core::marker::PhantomData, back_end: BackEnd::new(service, key) }
    }
}

impl<K: AsKey, T: Flatten> KeyedHistogram<K, T> for KeyedLinear<K, T> {
    open spec fn valid(&self, service: &Service) -> bool {
        service.task.keyed_view().dom().contains(self.back_end.key.index as int)
    }

    open spec fn armed(&self, service: &Service) -> bool {
        service.is_active
    }

    open spec fn can_record(&self, service: &Service, key: Seq<char>, value: u32) -> bool {
        service.task.keyed_view()[self.back_end.key.index as int].contents.can_store(key, value)
    }

    open spec fn record_rel(
        pre: Self,
        pre_s: Service,
        post: Self,
        post_s: Service,
        produced: Option<(Seq<char>, u32)>,
    ) -> bool {
        match produced {
            Option::Some(p) => if pre.armed(&pre_s) {
                &&& recorded_keyed(pre_s, post_s, pre.back_end.key.index as int, p.0, p.1)
                &&& post.back_end.key.index == pre.back_end.key.index
            } else {
                post == pre && post_s == pre_s
            },
            Option::None => post == pre && post_s == pre_s,
        }
    }

    fn record(&mut self, service: &mut Service, key: K, value: T) {
        if service.is_active() {
            let key_string = key.to_key();
            let u = value.as_u32();
            let slot = self.back_end.key.clone();
            self.back_end.raw_record(service, &slot, key_string, u);
        }
    }

    fn record_cb<F: FnOnce() -> Option<(K, T)>>(&mut self, service: &mut Service, cb: F) {
        proof {
            assert forall|k: K, v: T|
                call_ensures(cb, (), Option::Some((k, v))) implies old(service).task.keyed_view()[
                old(self).back_end.key.index as int
            ].contents.can_store(k.key_spec(), v.flatten_spec()) by {
                assert(old(self).can_record(old(service), k.key_spec(), v.flatten_spec()));
            }
        }
        let sent = self.back_end.raw_record_cb(service, cb);
        proof {
            assert forall|o: Option<(K, T)>|
                (old(service).is_active ==> call_ensures(cb, (), o)) && raw_recorded_keyed(
                    *old(service),
                    *service,
                    old(self).back_end.key.index as int,
                    old(service).is_active,
                    #[trigger] flatten_pair_opt(o),
                    sent,
                ) implies (old(self).armed(old(service)) ==> call_ensures(cb, (), o))
                && Self::record_rel(
                *old(self),
                *old(service),
                *self,
                *service,
                flatten_pair_opt(o),
            ) by {}
        }
    }
}

impl<K, T> Clone for KeyedLinear<K, T> where T: Flatten {
    fn clone(&self) -> (r: Self)
        ensures
            r.back_end.key.index == self.back_end.key.index,
    {
        KeyedLinear { witness: core::marker::PhantomData, back_end: self.back_end.clone() }
    }
}

/// A keyed count histogram: one accumulator per key.
pub struct KeyedCount<K> {
    pub back_end: BackEnd<Keyed<K>>,
}

impl<K: AsKey> KeyedCount<K> {
    /// Creates a new keyed count histogram with a given name, which must
    /// be unique to the service.
    pub fn new(service: &mut Service, name: String) -> (r: KeyedCount<K>)
        requires
            old(service).wf(),
            !old(service).task.has_name(name@),
            old(service).keys_keyed.counter < usize::MAX,
        ensures
            final(service).wf(),
            final(service).is_active == old(service).is_active,
            r.back_end.key.index == old(service).keys_keyed.counter,
            final(service).task.keyed_view() == old(service).task.keyed_view().insert(
                r.back_end.key.index as int,
                final(service).task.keyed_view()[r.back_end.key.index as int],
            ),
            final(service).task.keyed_view()[r.back_end.key.index as int].name@ == name@,
            final(service).task.keyed_view()[r.back_end.key.index as int].contents matches
                KeyedStorage::Count(f) && f.values.kv() == Seq::<(Seq<char>, u32)>::empty(),
            final(service).task.plain_view() == old(service).task.plain_view(),
            final(service).task.keys.kv() == crate::assoc::assoc_insert(
                old(service).task.keys.kv(),
                name@,
                (),
            ),
            final(service).keys_keyed.counter == old(service).keys_keyed.counter + 1,
            final(service).keys_plain == old(service).keys_plain,
    {
        let storage = KeyedStorage::Count(KeyedCountStorage { values: SortedMap::new() });
        let key = PrivateAccess::register_keyed::<K>(service, name, storage);
        proof {
            assert(final(service).task.keyed_view() =~= old(service).task.keyed_view().insert(
                key.index as int,
                final(service).task.keyed_view()[key.index as int],
            ));
        }
        KeyedCount { back_end: BackEnd::new(service, key) }
    }
}

impl<K: AsKey> KeyedHistogram<K, u32> for KeyedCount<K> {
    open spec fn valid(&self, service: &Service) -> bool {
        service.task.keyed_view().dom().contains(self.back_end.key.index as int)
    }

    open spec fn armed(&self, service: &Service) -> bool {
        service.is_active
    }

    open spec fn can_record(&self, service: &Service, key: Seq<char>, value: u32) -> bool {
        service.task.keyed_view()[self.back_end.key.index as int].contents.can_store(key, value)
    }

    open spec fn record_rel(
        pre: Self,
        pre_s: Service,
        post: Self,
        post_s: Service,
        produced: Option<(Seq<char>, u32)>,
    ) -> bool {
        match produced {
            Option::Some(p) => if pre.armed(&pre_s) {
                &&& recorded_keyed(pre_s, post_s, pre.back_end.key.index as int, p.0, p.1)
                &&& post.back_end.key.index == pre.back_end.key.index
            } else {
                post == pre && post_s == pre_s
            },
            Option::None => post == pre && post_s == pre_s,
        }
    }

    fn record(&mut self, service: &mut Service, key: K, value: u32) {
        if service.is_active() {
            let key_string = key.to_key();
            let u = value.as_u32();
            let slot = self.back_end.key.clone();
            self.back_end.raw_record(service, &slot, key_string, u);
        }
    }

    fn record_cb<F: FnOnce() -> Option<(K, u32)>>(&mut self, service: &mut Service, cb: F) {
        proof {
            assert forall|k: K, v: u32|
                call_ensures(cb, (), Option::Some((k, v))) implies old(service).task.keyed_view()[
                old(self).back_end.key.index as int
            ].contents.can_store(k.key_spec(), v.flatten_spec()) by {
                assert(old(self).can_record(old(service), k.key_spec(), v.flatten_spec()));
            }
        }
        let sent = self.back_end.raw_record_cb(service, cb);
        proof {
            assert forall|o: Option<(K, u32)>|
                (old(service).is_active ==> call_ensures(cb, (), o)) && raw_recorded_keyed(
                    *old(service),
                    *service,
                    old(self).back_end.key.index as int,
                    old(service).is_active,
                    #[trigger] flatten_pair_opt(o),
                    sent,
                ) implies (old(self).armed(old(service)) ==> call_ensures(cb, (), o))
                && Self::record_rel(
                *old(self),
                *old(service),
                *self,
                *service,
                flatten_pair_opt(o),
            ) by {}
        }
    }
}

impl<K> Clone for KeyedCount<K> {
    fn clone(&self) -> (r: Self)
        ensures
            r.back_end.key.index == self.back_end.key.index,
    {
        KeyedCount { back_end: self.back_end.clone() }
    }
}

/// A keyed enumerated histogram: one dynamically growing family of label
/// counts per key.
pub struct KeyedEnum<K, T> where T: Flatten {
    pub witness: core::marker::PhantomData<T>,
    pub back_end: BackEnd<Keyed<K>>,
}

impl<K: AsKey, T: Flatten> KeyedEnum<K, T> {
    /// Creates a new keyed enumerated histogram with a given name, which
    /// must be unique to the service.
    pub fn new(service: &mut Service, name: String) -> (r: KeyedEnum<K, T>)
        requires
            old(service).wf(),
            !old(service).task.has_name(name@),
            old(service).keys_keyed.counter < usize::MAX,
        ensures
            final(service).wf(),
            final(service).is_active == old(service).is_active,
            r.back_end.key.index == old(service).keys_keyed.counter,
            final(service).task.keyed_view() == old(service).task.keyed_view().insert(
                r.back_end.key.index as int,
                final(service).task.keyed_view()[r.back_end.key.index as int],
            ),
            final(service).task.keyed_view()[r.back_end.key.index as int].name@ == name@,
            final(service).task.keyed_view()[r.back_end.key.index as int].contents matches
                KeyedStorage::Enum(f) && f.values.kv() == Seq::<(Seq<char>, Vec<u32>)>::empty(),
            final(service).task.plain_view() == old(service).task.plain_view(),
            final(service).task.keys.kv() == crate::assoc::assoc_insert(
                old(service).task.keys.kv(),
                name@,
                (),
            ),
            final(service).keys_keyed.counter == old(service).keys_keyed.counter + 1,
            final(service).keys_plain == old(service).keys_plain,
    {
        let storage = KeyedStorage::Enum(KeyedEnumStorage { values: SortedMap::new() });
        let key = PrivateAccess::register_keyed::<K>(service, name, storage);
        proof {
            assert(final(service).task.keyed_view() =~= old(service).task.keyed_view().insert(
                key.index as int,
                final(service).task.keyed_view()[key.index as int],
            ));
        }
        KeyedEnum { witness: core::marker::PhantomData, back_end: BackEnd::new(service, key) }
    }
}

impl<K: AsKey, T: Flatten> KeyedHistogram<K, T> for KeyedEnum<K, T> {
    open spec fn valid(&self, service: &Service) -> bool {
        service.task.keyed_view().dom().contains(self.back_end.key.index as int)
    }

    open spec fn armed(&self, service: &Service) -> bool {
        service.is_active
    }

    open spec fn can_record(&self, service: &Service, key: Seq<char>, value: u32) -> bool {
        service.task.keyed_view()[self.back_end.key.index as int].contents.can_store(key, value)
    }

    open spec fn record_rel(
        pre: Self,
        pre_s: Service,
        post: Self,
        post_s: Service,
        produced: Option<(Seq<char>, u32)>,
    ) -> bool {
        match produced {
            Option::Some(p) => if pre.armed(&pre_s) {
                &&& recorded_keyed(pre_s, post_s, pre.back_end.key.index as int, p.0, p.1)
                &&& post.back_end.key.index == pre.back_end.key.index
            } else {
                post == pre && post_s == pre_s
            },
            Option::None => post == pre && post_s == pre_s,
        }
    }

    fn record(&mut self, service: &mut Service, key: K, value: T) {
        if service.is_active() {
            let key_string = key.to_key();
            let u = value.as_u32();
            let slot = self.back_end.key.clone();
            self.back_end.raw_record(service, &slot, key_string, u);
        }
    }

    fn record_cb<F: FnOnce() -> Option<(K, T)>>(&mut self, service: &mut Service, cb: F) {
        proof {
            assert forall|k: K, v: T|
                call_ensures(cb, (), Option::Some((k, v))) implies old(service).task.keyed_view()[
                old(self).back_end.key.index as int
            ].contents.can_store(k.key_spec(), v.flatten_spec()) by {
                assert(old(self).can_record(old(service), k.key_spec(), v.flatten_spec()));
            }
        }
        let sent = self.back_end.raw_record_cb(service, cb);
        proof {
            assert forall|o: Option<(K, T)>|
                (old(service).is_active ==> call_ensures(cb, (), o)) && raw_recorded_keyed(
                    *old(service),
                    *service,
                    old(self).back_end.key.index as int,
                    old(service).is_active,
                    #[trigger] flatten_pair_opt(o),
                    sent,
                ) implies (old(self).armed(old(service)) ==> call_ensures(cb, (), o))
                && Self::record_rel(
                *old(self),
                *old(service),
                *self,
                *service,
                flatten_pair_opt(o),
            ) by {}
        }
    }
}

impl<K, T> Clone for KeyedEnum<K, T> where T: Flatten {
    fn clone(&self) -> (r: Self)
        ensures
            r.back_end.key.index == self.back_end.key.index,
    {
        KeyedEnum { witness: core::marker::PhantomData, back_end: self.back_end.clone() }
    }
}


// ---------------------------------------------------------------------------
// Law of keyed serialization.
// ---------------------------------------------------------------------------

/// Keyed serialization key ordering: whatever the order in which subkeys
/// were recorded, the rendering of a keyed storage lists them in strict
/// lexicographic order — as object fields for count, linear and
/// enumerated histograms, as array elements for flag histograms — so each
/// subkey appears exactly once.
pub proof fn lemma_keyed_render_sorted(s: KeyedStorage, format: SerializationFormat)
    requires
        s.wf(),
    ensures
        match s.render_spec(format) {
            JsonModel::Obj(es) => assoc_sorted(es),
            JsonModel::Arr(items) => forall|i: int, j: int|
                0 <= i < j < items.len() ==> crate::json::lex_lt(
                    (#[trigger] items[i])->Str_0,
                    (#[trigger] items[j])->Str_0,
                ),
            _ => false,
        },
{
    match s {
        KeyedStorage::Flag(f) => {
            let items = match f.render_spec(format) {
                JsonModel::Arr(items) => items,
                _ => Seq::empty(),
            };
            assert forall|i: int, j: int| 0 <= i < j < items.len() implies crate::json::lex_lt(
                (#[trigger] items[i])->Str_0,
                (#[trigger] items[j])->Str_0,
            ) by {
                assert(items[i] == JsonModel::Str(f.encountered.kv()[i].0));
                assert(items[j] == JsonModel::Str(f.encountered.kv()[j].0));
            }
        },
        KeyedStorage::Linear(l) => {
            let es = match l.render_spec(format) {
                JsonModel::Obj(es) => es,
                _ => Seq::empty(),
            };
            assert forall|i: int, j: int| 0 <= i < j < es.len() implies crate::json::lex_lt(
                (#[trigger] es[i]).0,
                (#[trigger] es[j]).0,
            ) by {
                assert(es[i].0 == l.values.kv()[i].0);
                assert(es[j].0 == l.values.kv()[j].0);
            }
        },
        KeyedStorage::Count(c) => {
            let es = match c.render_spec(format) {
                JsonModel::Obj(es) => es,
                _ => Seq::empty(),
            };
            assert forall|i: int, j: int| 0 <= i < j < es.len() implies crate::json::lex_lt(
                (#[trigger] es[i]).0,
                (#[trigger] es[j]).0,
            ) by {
                assert(es[i].0 == c.values.kv()[i].0);
                assert(es[j].0 == c.values.kv()[j].0);
            }
        },
        KeyedStorage::Enum(e) => {
            let es = match e.render_spec(format) {
                JsonModel::Obj(es) => es,
                _ => Seq::empty(),
            };
            assert forall|i: int, j: int| 0 <= i < j < es.len() implies crate::json::lex_lt(
                (#[trigger] es[i]).0,
                (#[trigger] es[j]).0,
            ) by {
                assert(es[i].0 == e.values.kv()[i].0);
                assert(es[j].0 == e.values.kv()[j].0);
            }
        },
    }
}


/// A keyed storage after absorbing a whole sequence of key/value pairs,
/// one store at a time.
pub open spec fn keyed_stored_seq(
    pre: KeyedStorage,
    ps: Seq<(Seq<char>, u32)>,
    post: KeyedStorage,
) -> bool
    decreases ps.len(),
{
    if ps.len() == 0 {
        post == pre
    } else {
        exists|m: KeyedStorage|
            #[trigger] pre.store_rel(m, ps[0].0, ps[0].1) && keyed_stored_seq(
                m,
                ps.drop_first(),
                post,
            )
    }
}

/// The sum of the values recorded under one key.
pub open spec fn keyed_sum(ps: Seq<(Seq<char>, u32)>, k: Seq<char>) -> int
    decreases ps.len(),
{
    if ps.len() == 0 {
        0
    } else {
        (if ps[0].0 == k {
            ps[0].1 as int
        } else {
            0int
        }) + keyed_sum(ps.drop_first(), k)
    }
}

pub proof fn lemma_keyed_sum_nonneg(ps: Seq<(Seq<char>, u32)>, k: Seq<char>)
    ensures
        keyed_sum(ps, k) >= 0,
    decreases ps.len(),
{
    if ps.len() > 0 {
        lemma_keyed_sum_nonneg(ps.drop_first(), k);
    }
}

/// Keyed count round trip: a keyed count storage that absorbed a sequence
/// of key/value pairs holds, under every key, exactly the sum of the
/// values recorded under that key on top of what it held before — no
/// value is lost or double-counted — as long as no accumulator overflows.
pub proof fn lemma_keyed_count_round_trip(
    pre: KeyedStorage,
    ps: Seq<(Seq<char>, u32)>,
    post: KeyedStorage,
)
    requires
        pre is Count,
        pre.wf(),
        keyed_stored_seq(pre, ps, post),
        forall|k: Seq<char>|
            (#[trigger] pre->Count_0.count_at(k)) + keyed_sum(ps, k) <= u32::MAX,
    ensures
        post is Count,
        post.wf(),
        forall|k: Seq<char>|
            (#[trigger] post->Count_0.count_at(k)) == pre->Count_0.count_at(k) + keyed_sum(
                ps,
                k,
            ),
    decreases ps.len(),
{
    if ps.len() == 0 {
        assert(post == pre);
        assert forall|k: Seq<char>| (#[trigger] post->Count_0.count_at(k)) == pre
            ->Count_0.count_at(k) + keyed_sum(ps, k) by {}
    } else {
        let m = choose|m: KeyedStorage|
            #[trigger] pre.store_rel(m, ps[0].0, ps[0].1) && keyed_stored_seq(
                m,
                ps.drop_first(),
                post,
            );
        let c = pre->Count_0;
        let cm = m->Count_0;
        let key = ps[0].0;
        let v = ps[0].1;
        lemma_keyed_sum_nonneg(ps.drop_first(), key);
        assert(c.count_at(key) + keyed_sum(ps, key) <= u32::MAX);
        lemma_assoc_insert(c.values.kv(), key, ((c.count_at(key) + v) as u32));
        assert(cm.values.kv() == assoc_insert(c.values.kv(), key, ((c.count_at(key) + v) as u32)));
        assert(m.wf());
        assert forall|k: Seq<char>| true implies (#[trigger] cm.count_at(k)) == (if k == key {
            (c.count_at(key) + v) as u32
        } else {
            c.count_at(k)
        }) by {
            assert(cm.values.map_view() == c.values.map_view().insert(
                key,
                ((c.count_at(key) + v) as u32),
            ));
        }
        assert forall|k: Seq<char>| (#[trigger] cm.count_at(k)) + keyed_sum(
            ps.drop_first(),
            k,
        ) <= u32::MAX by {
            lemma_keyed_sum_nonneg(ps.drop_first(), k);
            assert(c.count_at(k) + keyed_sum(ps, k) <= u32::MAX);
            assert(keyed_sum(ps, k) == (if ps[0].0 == k {
                ps[0].1 as int
            } else {
                0int
            }) + keyed_sum(ps.drop_first(), k));
        }
        lemma_keyed_count_round_trip(m, ps.drop_first(), post);
        assert forall|k: Seq<char>| (#[trigger] post->Count_0.count_at(k)) == pre
            ->Count_0.count_at(k) + keyed_sum(ps, k) by {
            assert(post->Count_0.count_at(k) == cm.count_at(k) + keyed_sum(ps.drop_first(), k));
            assert(keyed_sum(ps, k) == (if ps[0].0 == k {
                ps[0].1 as int
            } else {
                0int
            }) + keyed_sum(ps.drop_first(), k));
        }
    }
}

} // verus!
