//! Single (aka "regular") histograms for the feature-scoped front end:
//! measures on a set of entities known at compile time, recorded only
//! while their feature and the telemetry instance allow it.

use vstd::prelude::*;

use crate::indexing::Plain;
use crate::misc::{Flatten, LinearBuckets, NamedStorage};
use crate::plain::{flatten_opt, FlagStorage, LinearStorage};
use crate::task::{Op, PlainStorage};
use crate::telemetry::{flat_handle_ok, recorded_flat, BackEnd, Feature, Metadata, Telemetry};

verus! {

/// A single histogram of the feature-scoped front end. Recording is a
/// no-op unless the telemetry instance, the feature and the handle are
/// all active and the histogram has not expired; the producer callback is
/// only run when recording will actually happen.
pub trait Histogram<T: Flatten>: Sized {
    /// Does this handle point at a registered storage of `telemetry`?
    spec fn valid(&self, telemetry: &Telemetry) -> bool;

    /// Will a record attempt under this feature reach the collector?
    spec fn armed(&self, feature: &Feature) -> bool;

    /// Can the flattened value be absorbed without counter overflow?
    spec fn can_record(&self, telemetry: &Telemetry, value: u32) -> bool;

    /// What recording changes, given the feature it ran under and the
    /// flattened value the producer yielded (or nothing).
    spec fn record_rel(
        pre: Self,
        pre_t: Telemetry,
        post: Self,
        post_t: Telemetry,
        feature: Feature,
        produced: Option<u32>,
    ) -> bool;

    /// Records a value in this histogram.
    fn record(&mut self, telemetry: &mut Telemetry, feature: &Feature, value: T)
        requires
            old(self).valid(old(telemetry)),
            old(telemetry).wf(),
            old(self).can_record(old(telemetry), value.flatten_spec()),
        ensures
            final(telemetry).wf(),
            Self::record_rel(
                *old(self),
                *old(telemetry),
                *final(self),
                *final(telemetry),
                *feature,
                Option::Some(value.flatten_spec()),
            ),
    ;

    /// Records a value provided by a callback, which is only invoked when
    /// recording will actually happen. If the callback yields nothing, no
    /// value is recorded.
    fn record_cb<F: FnOnce() -> Option<T>>(
        &mut self,
        telemetry: &mut Telemetry,
        feature: &Feature,
        cb: F,
    )
        requires
            old(self).valid(old(telemetry)),
            old(telemetry).wf(),
            call_requires(cb, ()),
            forall|v: T|
                call_ensures(cb, (), Option::Some(v)) ==> old(self).can_record(
                    old(telemetry),
                    v.flatten_spec(),
                ),
        ensures
            final(telemetry).wf(),
            exists|o: Option<T>|
                (old(self).armed(feature) ==> call_ensures(cb, (), o)) && Self::record_rel(
                    *old(self),
                    *old(telemetry),
                    *final(self),
                    *final(telemetry),
                    *feature,
                    #[trigger] flatten_opt(o),
                ),
    ;
}

/// A histogram that ignores any input.
pub struct Ignoring<T> {
    pub witness: core::marker::PhantomData<T>,
}

impl<T> Ignoring<T> {
    /// Creates a histogram that ignores any input.
    pub fn new() -> (r: Ignoring<T>) {
        Ignoring { witness: core::marker::PhantomData }
    }
}

impl<T: Flatten> Histogram<T> for Ignoring<T> {
    open spec fn valid(&self, telemetry: &Telemetry) -> bool {
        true
    }

    open spec fn armed(&self, feature: &Feature) -> bool {
        false
    }

    open spec fn can_record(&self, telemetry: &Telemetry, value: u32) -> bool {
        true
    }

    open spec fn record_rel(
        pre: Self,
        pre_t: Telemetry,
        post: Self,
        post_t: Telemetry,
        feature: Feature,
        produced: Option<u32>,
    ) -> bool {
        post_t == pre_t
    }

    fn record(&mut self, telemetry: &mut Telemetry, feature: &Feature, value: T) {
    }

    fn record_cb<F: FnOnce() -> Option<T>>(
        &mut self,
        telemetry: &mut Telemetry,
        feature: &Feature,
        cb: F,
    ) {
        proof {
            assert(Self::record_rel(
                *old(self),
                *old(telemetry),
                *self,
                *telemetry,
                *feature,
                flatten_opt(Option::<T>::None),
            ));
        }
    }
}

impl<T> Clone for Ignoring<T> {
    fn clone(&self) -> (r: Self) {
        Ignoring { witness: core::marker::PhantomData }
    }
}

/// A flag histogram: unset until the first record while active, set
/// forever after. The handle caches the set state; the cache is
/// handle-local and the collector's copy is the authoritative one.
pub struct Flag {
    pub back_end: BackEnd<Plain>,
    /// A cache used to avoid spamming the collector once the flag is set.
    pub cache: bool,
}

impl Flag {
    /// Creates a flag histogram under a feature; `name` must be unique to
    /// the telemetry instance.
    pub fn new(feature: &Feature, telemetry: &mut Telemetry, name: String) -> (r: Flag)
        requires
            old(telemetry).wf(),
            !old(telemetry).task.has_name(name@),
            old(telemetry).keys_flat.counter < usize::MAX,
        ensures
            final(telemetry).wf(),
            flat_handle_ok(r.back_end.key, final(telemetry)),
            r.back_end.is_active,
            r.back_end.key is Some,
            r.cache == false,
            final(telemetry).task.plain_view() == old(telemetry).task.plain_view().insert(
                r.back_end.key->0.index as int,
                NamedStorage {
                    name,
                    contents: PlainStorage::Flag(FlagStorage { encountered: false }),
                },
            ),
            final(telemetry).task.keyed_view() == old(telemetry).task.keyed_view(),
    {
        let storage = PlainStorage::Flag(FlagStorage { encountered: false });
        let key = telemetry.register_flat(Metadata { key: name, expires: Option::None }, storage);
        Flag { back_end: BackEnd::new(feature, key), cache: false }
    }
}

impl Histogram<()> for Flag {
    open spec fn valid(&self, telemetry: &Telemetry) -> bool {
        flat_handle_ok(self.back_end.key, telemetry)
    }

    open spec fn armed(&self, feature: &Feature) -> bool {
        self.back_end.is_active && feature.is_active && self.back_end.key is Some && !self.cache
    }

    open spec fn can_record(&self, telemetry: &Telemetry, value: u32) -> bool {
        self.back_end.key matches Option::Some(k) ==> telemetry.task.plain_view()[
            k.index as int
        ].contents.can_store(value)
    }

    open spec fn record_rel(
        pre: Self,
        pre_t: Telemetry,
        post: Self,
        post_t: Telemetry,
        feature: Feature,
        produced: Option<u32>,
    ) -> bool {
        match produced {
            Option::Some(u) => match pre.back_end.key {
                Option::Some(k) => if pre.back_end.is_active && feature.is_active && !pre.cache {
                    &&& recorded_flat(pre_t, post_t, k.index as int, u)
                    &&& post.back_end == pre.back_end
                    &&& post.cache == true
                } else {
                    post == pre && post_t == pre_t
                },
                Option::None => post == pre && post_t == pre_t,
            },
            Option::None => post == pre && post_t == pre_t,
        }
    }

    fn record(&mut self, telemetry: &mut Telemetry, feature: &Feature, value: ()) {
        if self.cache {
            return ;
        }
        match self.back_end.get_key(feature) {
            Option::Some(k) => {
                let index = k.index;
                let _reply = telemetry.task.process(Op::RecordPlain(index, 0));
                self.cache = true;
                proof {
                    assert(telemetry.task.plain_view().dom() =~= old(
                        telemetry,
                    ).task.plain_view().dom());
                }
            },
            Option::None => {},
        }
    }

    fn record_cb<F: FnOnce() -> Option<()>>(
        &mut self,
        telemetry: &mut Telemetry,
        feature: &Feature,
        cb: F,
    ) {
        if self.cache {
            proof {
                assert((old(self).armed(feature) ==> call_ensures(cb, (), Option::<()>::None))
                    && Self::record_rel(
                    *old(self),
                    *old(telemetry),
                    *self,
                    *telemetry,
                    *feature,
                    flatten_opt(Option::<()>::None),
                ));
            }
            return ;
        }
        match self.back_end.get_key(feature) {
            Option::Some(k) => {
                let index = k.index;
                match cb() {
                    Option::Some(v) => {
                        let u = v.as_u32();
                        let _reply = telemetry.task.process(Op::RecordPlain(index, u));
                        self.cache = true;
                        proof {
                            assert(telemetry.task.plain_view().dom() =~= old(
                                telemetry,
                            ).task.plain_view().dom());
                            let o = Option::Some(v);
                            assert((old(self).armed(feature) ==> call_ensures(cb, (), o))
                                && Self::record_rel(
                                *old(self),
                                *old(telemetry),
                                *self,
                                *telemetry,
                                *feature,
                                flatten_opt(o),
                            ));
                        }
                    },
                    Option::None => {
                        proof {
                            let o = Option::<()>::None;
                            assert((old(self).armed(feature) ==> call_ensures(cb, (), o))
                                && Self::record_rel(
                                *old(self),
                                *old(telemetry),
                                *self,
                                *telemetry,
                                *feature,
                                flatten_opt(o),
                            ));
                        }
                    },
                }
            },
            Option::None => {
                proof {
                    assert((old(self).armed(feature) ==> call_ensures(cb, (), Option::<()>::None))
                        && Self::record_rel(
                        *old(self),
                        *old(telemetry),
                        *self,
                        *telemetry,
                        *feature,
                        flatten_opt(Option::<()>::None),
                    ));
                }
            },
        }
    }
}

impl Clone for Flag {
    fn clone(&self) -> (r: Self)
        ensures
            (r.back_end.key is Some) == (self.back_end.key is Some),
            r.back_end.key matches Option::Some(k) ==> k.index == self.back_end.key->0.index,
            r.back_end.is_active == self.back_end.is_active,
            r.cache == self.cache,
    {
        let key = match &self.back_end.key {
            Option::Some(k) => Option::Some(k.clone()),
            Option::None => Option::None,
        };
        Flag {
            back_end: BackEnd { key, is_active: self.back_end.is_active },
            cache: self.cache,
        }
    }
}

/// A linear histogram: numeric values classified into same-sized buckets
/// within a fixed range.
pub struct Linear<T> where T: Flatten {
    pub witness: core::marker::PhantomData<T>,
    pub back_end: BackEnd<Plain>,
}

impl<T> Linear<T> where T: Flatten {
    /// Creates a linear histogram under a feature; `name` must be unique
    /// to the telemetry instance. Values below `min` count into the first
    /// bucket and values above `max` into the last.
    pub fn new(
        feature: &Feature,
        telemetry: &mut Telemetry,
        name: String,
        min: u32,
        max: u32,
        buckets: usize,
    ) -> (r: Linear<T>)
        requires
            old(telemetry).wf(),
            !old(telemetry).task.has_name(name@),
            old(telemetry).keys_flat.counter < usize::MAX,
            min < max,
            buckets > 0,
            (buckets as int) < max as int - min as int,
        ensures
            final(telemetry).wf(),
            flat_handle_ok(r.back_end.key, final(telemetry)),
            r.back_end.is_active,
            r.back_end.key is Some,
            final(telemetry).task.plain_view() == old(telemetry).task.plain_view().insert(
                r.back_end.key->0.index as int,
                final(telemetry).task.plain_view()[r.back_end.key->0.index as int],
            ),
            final(telemetry).task.plain_view()[r.back_end.key->0.index as int].name@ == name@,
            final(telemetry).task.plain_view()[r.back_end.key->0.index as int].contents matches
                PlainStorage::Linear(l) && l.values@ == crate::misc::zero_seq(buckets as nat)
                && l.shape == (LinearBuckets { min, max, buckets }),
            final(telemetry).task.keyed_view() == old(telemetry).task.keyed_view(),
    {
        let shape = LinearBuckets::new(min, max, buckets);
        let storage = PlainStorage::Linear(LinearStorage::new(shape));
        let key = telemetry.register_flat(Metadata { key: name, expires: Option::None }, storage);
        proof {
            let k = key->0;
            assert(final(telemetry).task.plain_view() =~= old(telemetry).task.plain_view().insert(
                k.index as int,
                final(telemetry).task.plain_view()[k.index as int],
            ));
        }
        Linear { witness: core::marker::PhantomData, back_end: BackEnd::new(feature, key) }
    }
}

impl<T: Flatten> Histogram<T> for Linear<T> {
    open spec fn valid(&self, telemetry: &Telemetry) -> bool {
        flat_handle_ok(self.back_end.key, telemetry)
    }

    open spec fn armed(&self, feature: &Feature) -> bool {
        self.back_end.is_active && feature.is_active && self.back_end.key is Some
    }

    open spec fn can_record(&self, telemetry: &Telemetry, value: u32) -> bool {
        self.back_end.key matches Option::Some(k) ==> telemetry.task.plain_view()[
            k.index as int
        ].contents.can_store(value)
    }

    open spec fn record_rel(
        pre: Self,
        pre_t: Telemetry,
        post: Self,
        post_t: Telemetry,
        feature: Feature,
        produced: Option<u32>,
    ) -> bool {
        match produced {
            Option::Some(u) => match pre.back_end.key {
                Option::Some(k) => if pre.back_end.is_active && feature.is_active {
                    &&& recorded_flat(pre_t, post_t, k.index as int, u)
                    &&& post == pre
                } else {
                    post == pre && post_t == pre_t
                },
                Option::None => post == pre && post_t == pre_t,
            },
            Option::None => post == pre && post_t == pre_t,
        }
    }

    fn record(&mut self, telemetry: &mut Telemetry, feature: &Feature, value: T) {
        match self.back_end.get_key(feature) {
            Option::Some(k) => {
                let index = k.index;
                let u = value.as_u32();
                let _reply = telemetry.task.process(Op::RecordPlain(index, u));
                proof {
                    assert(telemetry.task.plain_view().dom() =~= old(
                        telemetry,
                    ).task.plain_view().dom());
                }
            },
            Option::None => {},
        }
    }

    fn record_cb<F: FnOnce() -> Option<T>>(
        &mut self,
        telemetry: &mut Telemetry,
        feature: &Feature,
        cb: F,
    ) {
        match self.back_end.get_key(feature) {
            Option::Some(k) => {
                let index = k.index;
                match cb() {
                    Option::Some(v) => {
                        let u = v.as_u32();
                        let _reply = telemetry.task.process(Op::RecordPlain(index, u));
                        proof {
                            assert(telemetry.task.plain_view().dom() =~= old(
                                telemetry,
                            ).task.plain_view().dom());
                            let o = Option::Some(v);
                            assert((old(self).armed(feature) ==> call_ensures(cb, (), o))
                                && Self::record_rel(
                                *old(self),
                                *old(telemetry),
                                *self,
                                *telemetry,
                                *feature,
                                flatten_opt(o),
                            ));
                        }
                    },
                    Option::None => {
                        proof {
                            let o = Option::<T>::None;
                            assert((old(self).armed(feature) ==> call_ensures(cb, (), o))
                                && Self::record_rel(
                                *old(self),
                                *old(telemetry),
                                *self,
                                *telemetry,
                                *feature,
                                flatten_opt(o),
                            ));
                        }
                    },
                }
            },
            Option::None => {
                proof {
                    assert((old(self).armed(feature) ==> call_ensures(cb, (), Option::<T>::None))
                        && Self::record_rel(
                        *old(self),
                        *old(telemetry),
                        *self,
                        *telemetry,
                        *feature,
                        flatten_opt(Option::<T>::None),
                    ));
                }
            },
        }
    }
}

impl<T> Clone for Linear<T> where T: Flatten {
    fn clone(&self) -> (r: Self)
        ensures
            (r.back_end.key is Some) == (self.back_end.key is Some),
            r.back_end.key matches Option::Some(k) ==> k.index == self.back_end.key->0.index,
            r.back_end.is_active == self.back_end.is_active,
    {
        let key = match &self.back_end.key {
            Option::Some(k) => Option::Some(k.clone()),
            Option::None => Option::None,
        };
        Linear { witness: core::marker::PhantomData, back_end: BackEnd { key, is_active: self.back_end.is_active } }
    }
}

} // verus!
