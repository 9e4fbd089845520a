//! Plain histograms: measures on a set of entities known at compile time.
//! Each kind pairs a cheap front-end handle with a storage owned by the
//! collector.

use vstd::prelude::*;

use crate::json::{Json, JsonModel};
use crate::misc::{
    copy_u32_vec, counts_to_json_array, histogram_type_tag, moz_json_of, num_models, zero_seq,
    zero_vec, Flatten, HistogramType, LinearBuckets, LinearStats, MozillaIntermediateFormat,
    NamedStorage, SerializationFormat,
};
use crate::indexing::{Key, Plain};
use crate::service::{recorded_plain, PrivateAccess, Service};
use crate::task::{BackEnd, Op, PlainRawStorage, PlainStorage};

verus! {

/// The flattened form of an optionally produced value.
pub open spec fn flatten_opt<T: Flatten>(o: Option<T>) -> Option<u32> {
    match o {
        Option::None => Option::None,
        Option::Some(v) => Option::Some(v.flatten_spec()),
    }
}

/// What one record attempt through a plain back-end does: when the service
/// is active and a value was produced, the collector stored it and the
/// attempt reports success; otherwise nothing changes.
pub open spec fn raw_recorded(
    pre_s: Service,
    post_s: Service,
    slot: int,
    active: bool,
    o: Option<u32>,
    sent: bool,
) -> bool {
    if active && o is Some {
        recorded_plain(pre_s, post_s, slot, o->0) && sent
    } else {
        post_s == pre_s && !sent
    }
}

/// A plain histogram: the handle producers hold. Recording is a no-op
/// while the service is inactive, and the producer callback is only run
/// when recording will actually happen.
pub trait Histogram<T: Flatten>: Sized {
    /// Does this handle point at a registered storage of `service`?
    spec fn valid(&self, service: &Service) -> bool;

    /// Will a record attempt actually reach the collector?
    spec fn armed(&self, service: &Service) -> bool;

    /// Can the flattened value be absorbed without counter overflow?
    spec fn can_record(&self, service: &Service, value: u32) -> bool;

    /// What recording changes, given the flattened value the producer
    /// yielded (or nothing): when the handle was armed and a value came,
    /// the collector stored it; otherwise handle and service stand still.
    spec fn record_rel(
        pre: Self,
        pre_s: Service,
        post: Self,
        post_s: Service,
        produced: Option<u32>,
    ) -> bool;

    /// Records a value in this histogram. If the service is currently
    /// inactive, this is a no-op.
    fn record(&mut self, service: &mut Service, value: T)
        requires
            old(self).valid(old(service)),
            old(service).wf(),
            old(self).can_record(old(service), value.flatten_spec()),
        ensures
            final(service).wf(),
            Self::record_rel(
                *old(self),
                *old(service),
                *final(self),
                *final(service),
                Option::Some(value.flatten_spec()),
            ),
    ;

    /// Records a value provided by a callback, which is only invoked when
    /// recording will actually happen. If the callback yields nothing, no
    /// value is recorded.
    fn record_cb<F: FnOnce() -> Option<T>>(&mut self, service: &mut Service, cb: F)
        requires
            old(self).valid(old(service)),
            old(service).wf(),
            call_requires(cb, ()),
            forall|v: T|
                call_ensures(cb, (), Option::Some(v)) ==> old(self).can_record(
                    old(service),
                    v.flatten_spec(),
                ),
        ensures
            final(service).wf(),
            exists|o: Option<T>|
                (old(self).armed(old(service)) ==> call_ensures(cb, (), o)) && Self::record_rel(
                    *old(self),
                    *old(service),
                    *final(self),
                    *final(service),
                    #[trigger] flatten_opt(o),
                ),
    ;
}

impl BackEnd<Plain> {
    /// Instructs the collector to record a value in an already registered
    /// histogram.
    pub fn raw_record(&self, service: &mut Service, k: &Key<Plain>, value: u32)
        requires
            old(service).wf(),
            old(service).task.plain_view().dom().contains(k.index as int),
            old(service).task.plain_view()[k.index as int].contents.can_store(value),
        ensures
            final(service).wf(),
            recorded_plain(*old(service), *final(service), k.index as int, value),
    {
        let _reply = service.task.process(Op::RecordPlain(k.index, value));
        proof {
            assert(service.task.plain_view().dom() =~= old(service).task.plain_view().dom());
        }
    }

    /// Records the result of a callback in an already registered
    /// histogram, reporting whether a value was sent to the collector.
    pub fn raw_record_cb<T: Flatten, F: FnOnce() -> Option<T>>(
        &self,
        service: &mut Service,
        cb: F,
    ) -> (r: bool)
        requires
            old(service).wf(),
            old(service).task.plain_view().dom().contains(self.key.index as int),
            call_requires(cb, ()),
            forall|v: T|
                call_ensures(cb, (), Option::Some(v)) ==> old(service).task.plain_view()[
                    self.key.index as int
                ].contents.can_store(v.flatten_spec()),
        ensures
            final(service).wf(),
            exists|o: Option<T>|
                (old(service).is_active ==> call_ensures(cb, (), o)) && raw_recorded(
                    *old(service),
                    *final(service),
                    self.key.index as int,
                    old(service).is_active,
                    #[trigger] flatten_opt(o),
                    r,
                ),
    {
        let active = match self.get_key(service) {
            Option::Some(_) => true,
            Option::None => false,
        };
        if active {
            match cb() {
                Option::Some(v) => {
                    let u = v.as_u32();
                    let k = self.key.clone();
                    self.raw_record(service, &k, u);
                    proof {
                        let o = Option::Some(v);
                        assert((old(service).is_active ==> call_ensures(cb, (), o))
                            && raw_recorded(
                            *old(service),
                            *final(service),
                            self.key.index as int,
                            old(service).is_active,
                            flatten_opt(o),
                            true,
                        ));
                    }
                    true
                },
                Option::None => {
                    proof {
                        let o = Option::<T>::None;
                        assert((old(service).is_active ==> call_ensures(cb, (), o))
                            && raw_recorded(
                            *old(service),
                            *final(service),
                            self.key.index as int,
                            old(service).is_active,
                            flatten_opt(o),
                            false,
                        ));
                    }
                    false
                },
            }
        } else {
            proof {
                let o = Option::<T>::None;
                assert((old(service).is_active ==> call_ensures(cb, (), o)) && raw_recorded(
                    *old(service),
                    *final(service),
                    self.key.index as int,
                    old(service).is_active,
                    flatten_opt(o),
                    false,
                ));
            }
            false
        }
    }
}

// ---------------------------------------------------------------------------
// Flag storage.
// ---------------------------------------------------------------------------

/// The storage of a plain flag histogram: `true` once `record` has been
/// called, `false` until then. Owned by the collector.
pub struct FlagStorage {
    pub encountered: bool,
}

impl FlagStorage {
    /// The compact rendering: 1 when set, 0 when unset.
    pub open spec fn render_simple(&self) -> JsonModel {
        JsonModel::Num(
            if self.encountered {
                1
            } else {
                0
            },
        )
    }

    /// The single bucket count of the rich rendering.
    pub open spec fn moz_counts(&self) -> Seq<u32> {
        seq![
            if self.encountered {
                1u32
            } else {
                0u32
            },
        ]
    }

    pub fn to_simple_json(&self) -> (r: Json)
        ensures
            r@ == self.render_simple(),
    {
        Json::I64(
            if self.encountered {
                1
            } else {
                0
            },
        )
    }

    pub fn to_moz_intermediate_format(&self) -> (r: MozillaIntermediateFormat)
        ensures
            r.min == 0,
            r.max == 1,
            r.bucket_count == 1,
            r.histogram_type is Flag,
            r.linear is None,
            r.counts@ == self.moz_counts(),
    {
        let mut vec: Vec<u32> = Vec::new();
        vec.push(
            if self.encountered {
                1
            } else {
                0
            },
        );
        proof {
            assert(vec@ =~= self.moz_counts());
        }
        MozillaIntermediateFormat {
            min: 0,
            max: 1,
            bucket_count: 1,
            counts: vec,
            histogram_type: HistogramType::Flag,
            linear: Option::None,
        }
    }
}

impl PlainRawStorage for FlagStorage {
    open spec fn wf(&self) -> bool {
        true
    }

    open spec fn can_store(&self, value: u32) -> bool {
        true
    }

    open spec fn store_rel(&self, post: Self, value: u32) -> bool {
        post.encountered == true
    }

    open spec fn render_spec(&self, format: SerializationFormat) -> JsonModel {
        match format {
            SerializationFormat::SimpleJson => self.render_simple(),
            SerializationFormat::Mozilla => moz_json_of(
                0,
                1,
                1,
                histogram_type_tag(HistogramType::Flag),
                Option::None,
                self.moz_counts(),
            ),
        }
    }

    fn store(&mut self, value: u32) {
        self.encountered = true;
    }

    fn to_json(&self, format: &SerializationFormat) -> (r: Json) {
        match format {
            SerializationFormat::SimpleJson => self.to_simple_json(),
            SerializationFormat::Mozilla => self.to_moz_intermediate_format().to_json(),
        }
    }
}

// ---------------------------------------------------------------------------
// Linear storage.
// ---------------------------------------------------------------------------

/// The storage of a plain linear histogram: one counter per bucket, plus
/// the running statistics. Owned by the collector.
pub struct LinearStorage {
    pub values: Vec<u32>,
    pub shape: LinearBuckets,
    pub stats: LinearStats,
}

impl LinearStorage {
    /// The compact rendering: the bucket counts in index order.
    pub open spec fn render_simple(&self) -> JsonModel {
        JsonModel::Arr(num_models(self.values@))
    }

    pub fn new(shape: LinearBuckets) -> (r: LinearStorage)
        requires
            shape.wf(),
        ensures
            r.shape == shape,
            r.values@ == zero_seq(shape.buckets as nat),
            r.stats.sum == 0,
            r.stats.sum_squares == 0,
            r.wf(),
    {
        let vec = zero_vec(shape.get_bucket_count());
        LinearStorage { values: vec, shape, stats: LinearStats::new() }
    }

    pub fn to_simple_json(&self) -> (r: Json)
        ensures
            r@ == self.render_simple(),
    {
        counts_to_json_array(&self.values)
    }

    pub fn to_moz_intermediate_format(&self) -> (r: MozillaIntermediateFormat)
        ensures
            r.min == self.shape.min as i64,
            r.max == self.shape.max as i64,
            r.bucket_count == self.shape.buckets as i64,
            r.histogram_type is Linear,
            r.linear == Option::Some(self.stats),
            r.counts@ == self.values@,
    {
        MozillaIntermediateFormat {
            histogram_type: HistogramType::Linear,
            min: self.shape.get_min() as i64,
            max: self.shape.get_max() as i64,
            bucket_count: self.shape.get_bucket_count() as i64,
            linear: Option::Some(self.stats),
            counts: copy_u32_vec(&self.values),
        }
    }
}

impl PlainRawStorage for LinearStorage {
    open spec fn wf(&self) -> bool {
        &&& self.shape.wf()
        &&& self.values@.len() == self.shape.buckets
        &&& self.shape.buckets <= i64::MAX
    }

    open spec fn can_store(&self, value: u32) -> bool {
        &&& self.values@[self.shape.bucket_of(value)] < u32::MAX
        &&& self.stats.can_record(value)
    }

    open spec fn store_rel(&self, post: Self, value: u32) -> bool {
        &&& post.shape == self.shape
        &&& post.stats == self.stats.record_spec(value)
        &&& post.values@ == self.values@.update(
            self.shape.bucket_of(value),
            (self.values@[self.shape.bucket_of(value)] + 1) as u32,
        )
    }

    open spec fn render_spec(&self, format: SerializationFormat) -> JsonModel {
        match format {
            SerializationFormat::SimpleJson => self.render_simple(),
            SerializationFormat::Mozilla => moz_json_of(
                self.shape.min as int,
                self.shape.max as int,
                self.shape.buckets as int,
                histogram_type_tag(HistogramType::Linear),
                Option::Some(self.stats),
                self.values@,
            ),
        }
    }

    fn store(&mut self, value: u32) {
        let index = self.shape.get_bucket(value);
        self.values[index] = self.values[index] + 1;
        self.stats.record(value);
    }

    fn to_json(&self, format: &SerializationFormat) -> (r: Json) {
        match format {
            SerializationFormat::SimpleJson => self.to_simple_json(),
            SerializationFormat::Mozilla => self.to_moz_intermediate_format().to_json(),
        }
    }
}

// ---------------------------------------------------------------------------
// Count storage.
// ---------------------------------------------------------------------------

/// The storage of a plain count histogram: a single accumulator. Owned by
/// the collector.
pub struct CountStorage {
    pub value: u32,
}

impl CountStorage {
    /// The compact rendering: the accumulated number.
    pub open spec fn render_simple(&self) -> JsonModel {
        JsonModel::Num(self.value as int)
    }

    pub fn to_simple_json(&self) -> (r: Json)
        ensures
            r@ == self.render_simple(),
    {
        Json::I64(self.value as i64)
    }

    pub fn to_moz_intermediate_format(&self) -> (r: MozillaIntermediateFormat)
        ensures
            r.min == 0,
            r.max == 2,
            r.bucket_count == 1,
            r.histogram_type is Count,
            r.linear is None,
            r.counts@ == seq![self.value],
    {
        let mut vec: Vec<u32> = Vec::new();
        vec.push(self.value);
        proof {
            assert(vec@ =~= seq![self.value]);
        }
        MozillaIntermediateFormat {
            min: 0,
            max: 2,
            bucket_count: 1,
            counts: vec,
            histogram_type: HistogramType::Count,
            linear: Option::None,
        }
    }
}

impl PlainRawStorage for CountStorage {
    open spec fn wf(&self) -> bool {
        true
    }

    open spec fn can_store(&self, value: u32) -> bool {
        self.value + value <= u32::MAX
    }

    open spec fn store_rel(&self, post: Self, value: u32) -> bool {
        post.value == self.value + value
    }

    open spec fn render_spec(&self, format: SerializationFormat) -> JsonModel {
        match format {
            SerializationFormat::SimpleJson => self.render_simple(),
            SerializationFormat::Mozilla => moz_json_of(
                0,
                2,
                1,
                histogram_type_tag(HistogramType::Count),
                Option::None,
                seq![self.value],
            ),
        }
    }

    fn store(&mut self, value: u32) {
        self.value = self.value + value;
    }

    fn to_json(&self, format: &SerializationFormat) -> (r: Json) {
        match format {
            SerializationFormat::SimpleJson => self.to_simple_json(),
            SerializationFormat::Mozilla => self.to_moz_intermediate_format().to_json(),
        }
    }
}

// ---------------------------------------------------------------------------
// Enumerated storage.
// ---------------------------------------------------------------------------

/// The counts after an enumerated storage absorbs `v`: the array grows on
/// demand, new labels start at zero, and the label's count rises by one.
pub open spec fn enum_store_values(s: Seq<u32>, v: u32) -> Seq<u32> {
    if (v as int) < s.len() {
        s.update(v as int, (s[v as int] + 1) as u32)
    } else {
        Seq::new(
            v as nat + 1,
            |j: int|
                if j < s.len() {
                    s[j]
                } else if j == v as int {
                    1u32
                } else {
                    0u32
                },
        )
    }
}

/// The storage of a plain enumerated histogram: one counter per label,
/// growing on demand. Owned by the collector.
pub struct EnumStorage {
    pub values: Vec<u32>,
    pub stats: LinearStats,
}

impl EnumStorage {
    /// The compact rendering: the label counts in label order.
    pub open spec fn render_simple(&self) -> JsonModel {
        JsonModel::Arr(num_models(self.values@))
    }

    pub fn to_simple_json(&self) -> (r: Json)
        ensures
            r@ == self.render_simple(),
    {
        counts_to_json_array(&self.values)
    }

    pub fn to_moz_intermediate_format(&self) -> (r: MozillaIntermediateFormat)
        requires
            self.wf(),
        ensures
            r.min == 0,
            r.max == self.values@.len(),
            r.bucket_count == self.values@.len(),
            r.histogram_type is Linear,
            r.linear == Option::Some(self.stats),
            r.counts@ == self.values@,
    {
        let n = self.values.len() as i64;
        MozillaIntermediateFormat {
            min: 0,
            max: n,
            bucket_count: n,
            counts: copy_u32_vec(&self.values),
            histogram_type: HistogramType::Linear,
            linear: Option::Some(self.stats),
        }
    }
}

impl PlainRawStorage for EnumStorage {
    open spec fn wf(&self) -> bool {
        self.values@.len() <= u32::MAX as int + 1
    }

    open spec fn can_store(&self, value: u32) -> bool {
        &&& (value as int) < self.values@.len() ==> self.values@[value as int] < u32::MAX
        &&& self.stats.can_record(value)
        &&& value as int + 1 <= usize::MAX
    }

    open spec fn store_rel(&self, post: Self, value: u32) -> bool {
        &&& post.stats == self.stats.record_spec(value)
        &&& post.values@ == enum_store_values(self.values@, value)
    }

    open spec fn render_spec(&self, format: SerializationFormat) -> JsonModel {
        match format {
            SerializationFormat::SimpleJson => self.render_simple(),
            SerializationFormat::Mozilla => moz_json_of(
                0,
                self.values@.len() as int,
                self.values@.len() as int,
                histogram_type_tag(HistogramType::Linear),
                Option::Some(self.stats),
                self.values@,
            ),
        }
    }

    fn store(&mut self, value: u32) {
        let idx = value as usize;
        if idx < self.values.len() {
            self.values[idx] = self.values[idx] + 1;
            proof {
                assert(self.values@ =~= enum_store_values(old(self).values@, value));
            }
        } else {
            while self.values.len() < idx
                invariant
                    old(self).values@.len() <= self.values@.len() <= idx,
                    idx == value as int,
                    self.values@.subrange(0, old(self).values@.len() as int) == old(self).values@,
                    forall|j: int|
                        old(self).values@.len() <= j < self.values@.len() ==> self.values@[j]
                            == 0u32,
                    self.stats == old(self).stats,
                decreases idx - self.values@.len(),
            {
                let ghost pre = self.values@;
                self.values.push(0);
                proof {
                    assert(self.values@.subrange(0, old(self).values@.len() as int) =~= pre
                        .subrange(0, old(self).values@.len() as int));
                }
            }
            self.values.push(1);
            proof {
                assert(self.values@ =~= enum_store_values(old(self).values@, value));
            }
        }
        self.stats.record(value);
    }

    fn to_json(&self, format: &SerializationFormat) -> (r: Json) {
        match format {
            SerializationFormat::SimpleJson => self.to_simple_json(),
            SerializationFormat::Mozilla => self.to_moz_intermediate_format().to_json(),
        }
    }
}

// ---------------------------------------------------------------------------
// Front-end handles.
// ---------------------------------------------------------------------------

/// A histogram that ignores any input. Useful for histograms that can be
/// deactivated at compile time or during startup.
pub struct Ignoring<T> {
    pub witness: core::marker::PhantomData<T>,
}

impl<T> Ignoring<T> {
    /// Creates a histogram that ignores any input.
    pub fn new() -> (r: Ignoring<T>) {
        Ignoring { witness: core::marker::PhantomData }
    }
}

impl<T: Flatten> Histogram<T> for Ignoring<T> {
    open spec fn valid(&self, service: &Service) -> bool {
        true
    }

    open spec fn armed(&self, service: &Service) -> bool {
        false
    }

    open spec fn can_record(&self, service: &Service, value: u32) -> bool {
        true
    }

    open spec fn record_rel(
        pre: Self,
        pre_s: Service,
        post: Self,
        post_s: Service,
        produced: Option<u32>,
    ) -> bool {
        post_s == pre_s
    }

    fn record(&mut self, service: &mut Service, value: T) {
    }

    fn record_cb<F: FnOnce() -> Option<T>>(&mut self, service: &mut Service, cb: F) {
        proof {
            assert(Self::record_rel(
                *old(self),
                *old(service),
                *self,
                *service,
                flatten_opt(Option::<T>::None),
            ));
        }
    }
}

impl<T> Clone for Ignoring<T> {
    fn clone(&self) -> (r: Self) {
        Ignoring { witness: core::marker::PhantomData }
    }
}

/// A flag histogram: unset until the first `record`, set forever after.
/// The handle caches the set state so that a flag that has already fired
/// skips all work on later records; the cache is handle-local and the
/// collector's copy is the authoritative one.
pub struct Flag {
    pub back_end: BackEnd<Plain>,
    /// A cache used to avoid spamming the collector once the flag is set.
    pub cache: bool,
}

impl Flag {
    /// Creates a new flag histogram with a given name, which must be
    /// unique to the service.
    pub fn new(service: &mut Service, name: String) -> (r: Flag)
        requires
            old(service).wf(),
            !old(service).task.has_name(name@),
            old(service).keys_plain.counter < usize::MAX,
        ensures
            final(service).wf(),
            final(service).is_active == old(service).is_active,
            r.back_end.key.index == old(service).keys_plain.counter,
            r.cache == false,
            final(service).task.plain_view() == old(service).task.plain_view().insert(
                r.back_end.key.index as int,
                NamedStorage {
                    name,
                    contents: PlainStorage::Flag(FlagStorage { encountered: false }),
                },
            ),
            final(service).task.keyed_view() == old(service).task.keyed_view(),
            final(service).task.keys.kv() == crate::assoc::assoc_insert(
                old(service).task.keys.kv(),
                name@,
                (),
            ),
            final(service).keys_plain.counter == old(service).keys_plain.counter + 1,
            final(service).keys_keyed == old(service).keys_keyed,
    {
        let storage = PlainStorage::Flag(FlagStorage { encountered: false });
        let key = PrivateAccess::register_plain(service, name, storage);
        Flag { back_end: BackEnd::new(service, key), cache: false }
    }
}

impl Histogram<()> for Flag {
    open spec fn valid(&self, service: &Service) -> bool {
        service.task.plain_view().dom().contains(self.back_end.key.index as int)
    }

    open spec fn armed(&self, service: &Service) -> bool {
        service.is_active && !self.cache
    }

    open spec fn can_record(&self, service: &Service, value: u32) -> bool {
        service.task.plain_view()[self.back_end.key.index as int].contents.can_store(value)
    }

    open spec fn record_rel(
        pre: Self,
        pre_s: Service,
        post: Self,
        post_s: Service,
        produced: Option<u32>,
    ) -> bool {
        if pre.armed(&pre_s) && produced is Some {
            &&& recorded_plain(pre_s, post_s, pre.back_end.key.index as int, produced->0)
            &&& post.back_end.key.index == pre.back_end.key.index
            &&& post.cache == true
        } else {
            post == pre && post_s == pre_s
        }
    }

    fn record(&mut self, service: &mut Service, value: ()) {
        if self.cache {
            return ;
        }
        if service.is_active() {
            let u = value.as_u32();
            let k = self.back_end.key.clone();
            self.back_end.raw_record(service, &k, u);
            self.cache = true;
        }
    }

    fn record_cb<F: FnOnce() -> Option<()>>(&mut self, service: &mut Service, cb: F) {
        if self.cache {
            proof {
                assert((old(self).armed(old(service)) ==> call_ensures(cb, (), Option::<()>::None))
                    && Self::record_rel(
                    *old(self),
                    *old(service),
                    *self,
                    *service,
                    flatten_opt(Option::<()>::None),
                ));
            }
            return ;
        }
        let sent = self.back_end.raw_record_cb(service, cb);
        if sent {
            self.cache = true;
        }
        proof {
            assert forall|o: Option<()>|
                (old(service).is_active ==> call_ensures(cb, (), o)) && raw_recorded(
                    *old(service),
                    *service,
                    old(self).back_end.key.index as int,
                    old(service).is_active,
                    #[trigger] flatten_opt(o),
                    sent,
                ) implies (old(self).armed(old(service)) ==> call_ensures(cb, (), o))
                && Self::record_rel(
                *old(self),
                *old(service),
                *self,
                *service,
                flatten_opt(o),
            ) by {}
        }
    }
}

impl Clone for Flag {
    fn clone(&self) -> (r: Self)
        ensures
            r.back_end.key.index == self.back_end.key.index,
            r.cache == self.cache,
    {
        Flag { back_end: self.back_end.clone(), cache: self.cache }
    }
}

/// A linear histogram: numeric values classified into same-sized buckets
/// within a fixed range.
pub struct Linear<T> where T: Flatten {
    pub witness: core::marker::PhantomData<T>,
    pub back_end: BackEnd<Plain>,
}

impl<T> Linear<T> where T: Flatten {
    /// Creates a new linear histogram with a given name, which must be
    /// unique to the service. Values below `min` count into the first
    /// bucket and values above `max` into the last.
    pub fn new(service: &mut Service, name: String, min: u32, max: u32, buckets: usize) -> (r:
        Linear<T>)
        requires
            old(service).wf(),
            !old(service).task.has_name(name@),
            old(service).keys_plain.counter < usize::MAX,
            min < max,
            buckets > 0,
            (buckets as int) < max as int - min as int,
        ensures
            final(service).wf(),
            final(service).is_active == old(service).is_active,
            r.back_end.key.index == old(service).keys_plain.counter,
            final(service).task.plain_view() == old(service).task.plain_view().insert(
                r.back_end.key.index as int,
                NamedStorage {
                    name,
                    contents: PlainStorage::Linear(
                        LinearStorage {
                            values: final(service).task.plain_view()[
                                r.back_end.key.index as int
                            ].contents->Linear_0.values,
                            shape: LinearBuckets { min, max, buckets },
                            stats: LinearStats { sum: 0, sum_squares: 0 },
                        },
                    ),
                },
            ),
            final(service).task.plain_view()[r.back_end.key.index as int].contents->Linear_0
                .values@ == zero_seq(buckets as nat),
            final(service).task.keyed_view() == old(service).task.keyed_view(),
            final(service).task.keys.kv() == crate::assoc::assoc_insert(
                old(service).task.keys.kv(),
                name@,
                (),
            ),
            final(service).keys_plain.counter == old(service).keys_plain.counter + 1,
            final(service).keys_keyed == old(service).keys_keyed,
    {
        let shape = LinearBuckets::new(min, max, buckets);
        let storage = PlainStorage::Linear(LinearStorage::new(shape));
        let key = PrivateAccess::register_plain(service, name, storage);
        Linear { witness: core::marker::PhantomData, back_end: BackEnd::new(service, key) }
    }
}

impl<T: Flatten> Histogram<T> for Linear<T> {
    open spec fn valid(&self, service: &Service) -> bool {
        service.task.plain_view().dom().contains(self.back_end.key.index as int)
    }

    open spec fn armed(&self, service: &Service) -> bool {
        service.is_active
    }

    open spec fn can_record(&self, service: &Service, value: u32) -> bool {
        service.task.plain_view()[self.back_end.key.index as int].contents.can_store(value)
    }

    open spec fn record_rel(
        pre: Self,
        pre_s: Service,
        post: Self,
        post_s: Service,
        produced: Option<u32>,
    ) -> bool {
        if pre.armed(&pre_s) && produced is Some {
            &&& recorded_plain(pre_s, post_s, pre.back_end.key.index as int, produced->0)
            &&& post.back_end.key.index == pre.back_end.key.index
        } else {
            post == pre && post_s == pre_s
        }
    }

    fn record(&mut self, service: &mut Service, value: T) {
        if service.is_active() {
            let u = value.as_u32();
            let k = self.back_end.key.clone();
            self.back_end.raw_record(service, &k, u);
        }
    }

    fn record_cb<F: FnOnce() -> Option<T>>(&mut self, service: &mut Service, cb: F) {
        let sent = self.back_end.raw_record_cb(service, cb);
        proof {
            assert forall|o: Option<T>|
                (old(service).is_active ==> call_ensures(cb, (), o)) && raw_recorded(
                    *old(service),
                    *service,
                    old(self).back_end.key.index as int,
                    old(service).is_active,
                    #[trigger] flatten_opt(o),
                    sent,
                ) implies (old(self).armed(old(service)) ==> call_ensures(cb, (), o))
                && Self::record_rel(
                *old(self),
                *old(service),
                *self,
                *service,
                flatten_opt(o),
            ) by {}
        }
    }
}

impl<T> Clone for Linear<T> where T: Flatten {
    fn clone(&self) -> (r: Self)
        ensures
            r.back_end.key.index == self.back_end.key.index,
    {
        Linear { witness: core::marker::PhantomData, back_end: self.back_end.clone() }
    }
}

/// A count histogram: accumulates the numbers passed to `record`.
pub struct Count {
    pub back_end: BackEnd<Plain>,
}

impl Count {
    /// Creates a new count histogram with a given name, which must be
    /// unique to the service.
    pub fn new(service: &mut Service, name: String) -> (r: Count)
        requires
            old(service).wf(),
            !old(service).task.has_name(name@),
            old(service).keys_plain.counter < usize::MAX,
        ensures
            final(service).wf(),
            final(service).is_active == old(service).is_active,
            r.back_end.key.index == old(service).keys_plain.counter,
            final(service).task.plain_view() == old(service).task.plain_view().insert(
                r.back_end.key.index as int,
                NamedStorage { name, contents: PlainStorage::Count(CountStorage { value: 0 }) },
            ),
            final(service).task.keyed_view() == old(service).task.keyed_view(),
            final(service).task.keys.kv() == crate::assoc::assoc_insert(
                old(service).task.keys.kv(),
                name@,
                (),
            ),
            final(service).keys_plain.counter == old(service).keys_plain.counter + 1,
            final(service).keys_keyed == old(service).keys_keyed,
    {
        let storage = PlainStorage::Count(CountStorage { value: 0 });
        let key = PrivateAccess::register_plain(service, name, storage);
        Count { back_end: BackEnd::new(service, key) }
    }
}

impl Histogram<u32> for Count {
    open spec fn valid(&self, service: &Service) -> bool {
        service.task.plain_view().dom().contains(self.back_end.key.index as int)
    }

    open spec fn armed(&self, service: &Service) -> bool {
        service.is_active
    }

    open spec fn can_record(&self, service: &Service, value: u32) -> bool {
        service.task.plain_view()[self.back_end.key.index as int].contents.can_store(value)
    }

    open spec fn record_rel(
        pre: Self,
        pre_s: Service,
        post: Self,
        post_s: Service,
        produced: Option<u32>,
    ) -> bool {
        if pre.armed(&pre_s) && produced is Some {
            &&& recorded_plain(pre_s, post_s, pre.back_end.key.index as int, produced->0)
            &&& post.back_end.key.index == pre.back_end.key.index
        } else {
            post == pre && post_s == pre_s
        }
    }

    fn record(&mut self, service: &mut Service, value: u32) {
        if service.is_active() {
            let u = value.as_u32();
            let k = self.back_end.key.clone();
            self.back_end.raw_record(service, &k, u);
        }
    }

    fn record_cb<F: FnOnce() -> Option<u32>>(&mut self, service: &mut Service, cb: F) {
        let sent = self.back_end.raw_record_cb(service, cb);
        proof {
            assert forall|o: Option<u32>|
                (old(service).is_active ==> call_ensures(cb, (), o)) && raw_recorded(
                    *old(service),
                    *service,
                    old(self).back_end.key.index as int,
                    old(service).is_active,
                    #[trigger] flatten_opt(o),
                    sent,
                ) implies (old(self).armed(old(service)) ==> call_ensures(cb, (), o))
                && Self::record_rel(
                *old(self),
                *old(service),
                *self,
                *service,
                flatten_opt(o),
            ) by {}
        }
    }
}

impl Clone for Count {
    fn clone(&self) -> (r: Self)
        ensures
            r.back_end.key.index == self.back_end.key.index,
    {
        Count { back_end: self.back_end.clone() }
    }
}

/// An enumerated histogram: one counter per label, labels numbered from
/// zero, the family growing on demand.
pub struct Enum<K> where K: Flatten {
    pub witness: core::marker::PhantomData<K>,
    pub back_end: BackEnd<Plain>,
}

impl<K> Enum<K> where K: Flatten {
    /// Creates a new enumerated histogram with a given name, which must be
    /// unique to the service.
    pub fn new(service: &mut Service, name: String) -> (r: Enum<K>)
        requires
            old(service).wf(),
            !old(service).task.has_name(name@),
            old(service).keys_plain.counter < usize::MAX,
        ensures
            final(service).wf(),
            final(service).is_active == old(service).is_active,
            r.back_end.key.index == old(service).keys_plain.counter,
            final(service).task.plain_view() == old(service).task.plain_view().insert(
                r.back_end.key.index as int,
                NamedStorage {
                    name,
                    contents: PlainStorage::Enum(
                        EnumStorage {
                            values: final(service).task.plain_view()[
                                r.back_end.key.index as int
                            ].contents->Enum_0.values,
                            stats: LinearStats { sum: 0, sum_squares: 0 },
                        },
                    ),
                },
            ),
            final(service).task.plain_view()[r.back_end.key.index as int].contents->Enum_0.values@
                == Seq::<u32>::empty(),
            final(service).task.keyed_view() == old(service).task.keyed_view(),
            final(service).task.keys.kv() == crate::assoc::assoc_insert(
                old(service).task.keys.kv(),
                name@,
                (),
            ),
            final(service).keys_plain.counter == old(service).keys_plain.counter + 1,
            final(service).keys_keyed == old(service).keys_keyed,
    {
        let values: Vec<u32> = Vec::new();
        let storage = PlainStorage::Enum(EnumStorage { values, stats: LinearStats::new() });
        let key = PrivateAccess::register_plain(service, name, storage);
        Enum { witness: core::marker::PhantomData, back_end: BackEnd::new(service, key) }
    }
}

impl<K: Flatten> Histogram<K> for Enum<K> {
    open spec fn valid(&self, service: &Service) -> bool {
        service.task.plain_view().dom().contains(self.back_end.key.index as int)
    }

    open spec fn armed(&self, service: &Service) -> bool {
        service.is_active
    }

    open spec fn can_record(&self, service: &Service, value: u32) -> bool {
        service.task.plain_view()[self.back_end.key.index as int].contents.can_store(value)
    }

    open spec fn record_rel(
        pre: Self,
        pre_s: Service,
        post: Self,
        post_s: Service,
        produced: Option<u32>,
    ) -> bool {
        if pre.armed(&pre_s) && produced is Some {
            &&& recorded_plain(pre_s, post_s, pre.back_end.key.index as int, produced->0)
            &&& post.back_end.key.index == pre.back_end.key.index
        } else {
            post == pre && post_s == pre_s
        }
    }

    fn record(&mut self, service: &mut Service, value: K) {
        if service.is_active() {
            let u = value.as_u32();
            let k = self.back_end.key.clone();
            self.back_end.raw_record(service, &k, u);
        }
    }

    fn record_cb<F: FnOnce() -> Option<K>>(&mut self, service: &mut Service, cb: F) {
        let sent = self.back_end.raw_record_cb(service, cb);
        proof {
            assert forall|o: Option<K>|
                (old(service).is_active ==> call_ensures(cb, (), o)) && raw_recorded(
                    *old(service),
                    *service,
                    old(self).back_end.key.index as int,
                    old(service).is_active,
                    #[trigger] flatten_opt(o),
                    sent,
                ) implies (old(self).armed(old(service)) ==> call_ensures(cb, (), o))
                && Self::record_rel(
                *old(self),
                *old(service),
                *self,
                *service,
                flatten_opt(o),
            ) by {}
        }
    }
}

impl<K> Clone for Enum<K> where K: Flatten {
    fn clone(&self) -> (r: Self)
        ensures
            r.back_end.key.index == self.back_end.key.index,
    {
        Enum { witness: core::marker::PhantomData, back_end: self.back_end.clone() }
    }
}


// ---------------------------------------------------------------------------
// Laws of the plain storages.
// ---------------------------------------------------------------------------

/// A storage after absorbing a whole sequence of recorded values, one
/// store at a time.
pub open spec fn stored_seq(pre: PlainStorage, vs: Seq<u32>, post: PlainStorage) -> bool
    decreases vs.len(),
{
    if vs.len() == 0 {
        post == pre
    } else {
        exists|m: PlainStorage|
            #[trigger] pre.store_rel(m, vs[0]) && stored_seq(m, vs.drop_first(), post)
    }
}

/// The sum of a sequence of recorded values.
pub open spec fn sum_of(vs: Seq<u32>) -> int
    decreases vs.len(),
{
    if vs.len() == 0 {
        0
    } else {
        vs[0] + sum_of(vs.drop_first())
    }
}

/// How many values of a sequence fall into one bucket.
pub open spec fn bucket_tally(shape: LinearBuckets, vs: Seq<u32>, b: int) -> int
    decreases vs.len(),
{
    if vs.len() == 0 {
        0
    } else {
        (if shape.bucket_of(vs[0]) == b {
            1int
        } else {
            0int
        }) + bucket_tally(shape, vs.drop_first(), b)
    }
}

/// Flag idempotence: recording into a flag storage any number of times at
/// least once leaves one and the same storage — the set flag — whatever
/// the values were, so its serialized output equals that of recording
/// exactly once.
pub proof fn lemma_flag_idempotent(pre: PlainStorage, vs: Seq<u32>, post: PlainStorage)
    requires
        pre is Flag,
        vs.len() >= 1,
        stored_seq(pre, vs, post),
    ensures
        post == PlainStorage::Flag(FlagStorage { encountered: true }),
    decreases vs.len(),
{
    let m = choose|m: PlainStorage|
        #[trigger] pre.store_rel(m, vs[0]) && stored_seq(m, vs.drop_first(), post);
    if vs.len() == 1 {
        assert(post == m);
    } else {
        lemma_flag_idempotent(m, vs.drop_first(), post);
    }
}

/// Count round trip: a count storage that absorbed a sequence of values
/// holds exactly their sum on top of what it held before — no value is
/// lost or double-counted — and that sum never overflowed.
pub proof fn lemma_count_round_trip(pre: PlainStorage, vs: Seq<u32>, post: PlainStorage)
    requires
        pre is Count,
        stored_seq(pre, vs, post),
    ensures
        pre->Count_0.value + sum_of(vs) <= u32::MAX,
        post == PlainStorage::Count(
            CountStorage { value: (pre->Count_0.value + sum_of(vs)) as u32 },
        ),
    decreases vs.len(),
{
    if vs.len() == 0 {
        assert(post == pre);
    } else {
        let m = choose|m: PlainStorage|
            #[trigger] pre.store_rel(m, vs[0]) && stored_seq(m, vs.drop_first(), post);
        lemma_count_round_trip(m, vs.drop_first(), post);
    }
}

pub proof fn lemma_sum_of_nonneg(vs: Seq<u32>)
    ensures
        sum_of(vs) >= 0,
    decreases vs.len(),
{
    if vs.len() > 0 {
        lemma_sum_of_nonneg(vs.drop_first());
    }
}

pub proof fn lemma_bucket_tally_nonneg(shape: LinearBuckets, vs: Seq<u32>, b: int)
    ensures
        bucket_tally(shape, vs, b) >= 0,
    decreases vs.len(),
{
    if vs.len() > 0 {
        lemma_bucket_tally_nonneg(shape, vs.drop_first(), b);
    }
}

/// Linear round trip: a linear storage that absorbed a sequence of values
/// keeps its shape, raises each bucket by exactly the number of values
/// that fall into it, and accumulates the exact sum of the values — as
/// long as no counter overflows.
pub proof fn lemma_linear_round_trip(pre: PlainStorage, vs: Seq<u32>, post: PlainStorage)
    requires
        pre is Linear,
        pre.wf(),
        stored_seq(pre, vs, post),
        forall|b: int|
            0 <= b < pre->Linear_0.values@.len() ==> (#[trigger] pre->Linear_0.values@[b])
                + bucket_tally(pre->Linear_0.shape, vs, b) <= u32::MAX,
        pre->Linear_0.stats.sum + sum_of(vs) <= u64::MAX,
    ensures
        post is Linear,
        post->Linear_0.shape == pre->Linear_0.shape,
        post->Linear_0.values@.len() == pre->Linear_0.values@.len(),
        forall|b: int|
            0 <= b < pre->Linear_0.values@.len() ==> (#[trigger] post->Linear_0.values@[b])
                == pre->Linear_0.values@[b] + bucket_tally(pre->Linear_0.shape, vs, b),
        post->Linear_0.stats.sum == pre->Linear_0.stats.sum + sum_of(vs),
    decreases vs.len(),
{
    if vs.len() == 0 {
        assert(post == pre);
    } else {
        let m = choose|m: PlainStorage|
            #[trigger] pre.store_rel(m, vs[0]) && stored_seq(m, vs.drop_first(), post);
        let l = pre->Linear_0;
        let lm = m->Linear_0;
        crate::misc::lemma_bucket_bounds(l.shape, vs[0]);
        assert(l.store_rel(lm, vs[0]));
        assert(m.wf()) by {
            assert(lm.values@.len() == l.values@.len());
        }
        lemma_sum_of_nonneg(vs.drop_first());
        assert forall|b: int|
            0 <= b < lm.values@.len() implies (#[trigger] lm.values@[b]) + bucket_tally(
            lm.shape,
            vs.drop_first(),
            b,
        ) <= u32::MAX by {
            lemma_bucket_tally_nonneg(l.shape, vs.drop_first(), b);
            assert(l.values@[b] + bucket_tally(l.shape, vs, b) <= u32::MAX);
            assert(bucket_tally(l.shape, vs, b) == (if l.shape.bucket_of(vs[0]) == b {
                1int
            } else {
                0int
            }) + bucket_tally(l.shape, vs.drop_first(), b));
            assert(lm.values@[b] == l.values@.update(
                l.shape.bucket_of(vs[0]),
                (l.values@[l.shape.bucket_of(vs[0])] + 1) as u32,
            )[b]);
        }
        lemma_linear_round_trip(m, vs.drop_first(), post);
        let l2 = post->Linear_0;
        assert forall|b: int|
            0 <= b < l.values@.len() implies (#[trigger] l2.values@[b]) == l.values@[b]
            + bucket_tally(l.shape, vs, b) by {
            lemma_bucket_tally_nonneg(l.shape, vs.drop_first(), b);
            assert(l.values@[b] + bucket_tally(l.shape, vs, b) <= u32::MAX);
            assert(lm.values@[b] == l.values@.update(
                l.shape.bucket_of(vs[0]),
                (l.values@[l.shape.bucket_of(vs[0])] + 1) as u32,
            )[b]);
            assert(post->Linear_0.values@[b] == m->Linear_0.values@[b] + bucket_tally(
                m->Linear_0.shape,
                vs.drop_first(),
                b,
            ));
            assert(lm.shape == l.shape);
            assert(bucket_tally(l.shape, vs, b) == (if l.shape.bucket_of(vs[0]) == b {
                1int
            } else {
                0int
            }) + bucket_tally(l.shape, vs.drop_first(), b));
        }
    }
}

} // verus!
