//! Shared pieces: the recordable-value trait, bucket and statistics
//! arithmetic for linear histograms, the serialization formats, and the
//! rich, server-compatible rendering of a bucketed counter.

use vstd::prelude::*;

use crate::assoc::{assoc_insert, assoc_views, lemma_assoc_views_insert, SortedMap};
use crate::json::{dec_str, entries_view, json_view, jsons_view, Json, JsonModel};

verus! {

use vstd::arithmetic::div_mod::{lemma_div_is_ordered, lemma_div_pos_is_pos,
    lemma_multiply_divide_lt};
use vstd::arithmetic::mul::{lemma_mul_inequality, lemma_mul_is_commutative,
    lemma_mul_strict_inequality, lemma_mul_upper_bound};

/// A storage with a name attached. The name doubles as the key under which
/// the storage is serialized, so it must be unique within one service.
pub struct NamedStorage<T> {
    /// The name of the storage. Also used as a key, must be unique.
    pub name: String,
    /// The histogram data itself.
    pub contents: T,
}

/// A subset of the histograms to serialize.
#[derive(Clone, Copy)]
pub enum Subset {
    /// Serialize all plain histograms.
    AllPlain,
    /// Serialize all keyed histograms.
    AllKeyed,
    /// Serialize everything.
    Everything,
}

/// A subformat of JSON to use for serialization.
#[derive(Clone, Copy)]
pub enum SerializationFormat {
    /// A simple and concise JSON-based format: flags as 0/1, counts as
    /// numbers, linear and enumerated histograms as arrays of numbers,
    /// keyed histograms as objects with their keys sorted.
    SimpleJson,
    /// A verbose JSON-based format compatible with an existing telemetry
    /// server: declared range, bucket count, a histogram type tag, a sparse
    /// map of the non-zero buckets, and the accumulated sum and sum of
    /// squares.
    Mozilla,
}

/// A value that can be represented as a `u32`.
pub trait Flatten: Sized {
    /// The number this value stands for.
    spec fn flatten_spec(&self) -> u32;

    /// Flattens this value to the number it stands for.
    fn as_u32(&self) -> (r: u32)
        ensures
            r == self.flatten_spec(),
    ;
}

impl Flatten for u32 {
    open spec fn flatten_spec(&self) -> u32 {
        *self
    }

    fn as_u32(&self) -> (r: u32)
        ensures
            r == self.flatten_spec(),
    {
        *self
    }
}

impl Flatten for () {
    open spec fn flatten_spec(&self) -> u32 {
        0
    }

    fn as_u32(&self) -> (r: u32)
        ensures
            r == self.flatten_spec(),
    {
        0
    }
}

impl Flatten for bool {
    open spec fn flatten_spec(&self) -> u32 {
        if *self {
            1
        } else {
            0
        }
    }

    fn as_u32(&self) -> (r: u32)
        ensures
            r == self.flatten_spec(),
    {
        if *self {
            1
        } else {
            0
        }
    }
}

// ---------------------------------------------------------------------------
// Buckets of a fixed-range linear histogram.
// ---------------------------------------------------------------------------

/// The shape of the buckets shared by plain and keyed linear histograms.
pub struct LinearBuckets {
    pub min: u32,
    pub max: u32,
    pub buckets: usize,
}

impl LinearBuckets {
    /// The shape invariant: a non-empty range with at least one bucket and
    /// fewer buckets than integers in the range.
    pub open spec fn wf(&self) -> bool {
        &&& self.min < self.max
        &&& 0 < self.buckets
        &&& (self.buckets as int) < self.max as int - self.min as int
    }

    /// Which bucket a value falls into: everything at or below `min` in
    /// bucket 0, everything at or above `max` in the last bucket, and the
    /// rest spread evenly.
    pub open spec fn bucket_of(&self, value: u32) -> int {
        if value <= self.min {
            0
        } else if value >= self.max {
            self.buckets as int - 1
        } else {
            ((value as int - self.min as int) * self.buckets as int) / (self.max as int
                - self.min as int)
        }
    }

    pub fn new(min: u32, max: u32, buckets: usize) -> (r: LinearBuckets)
        requires
            min < max,
            buckets > 0,
            (buckets as int) < max as int - min as int,
        ensures
            r == (LinearBuckets { min, max, buckets }),
            r.wf(),
    {
        LinearBuckets { min, max, buckets }
    }

    pub fn get_bucket(&self, value: u32) -> (r: usize)
        requires
            self.wf(),
        ensures
            r == self.bucket_of(value),
            r < self.buckets,
    {
        if value <= self.min {
            0
        } else if value >= self.max {
            self.buckets - 1
        } else {
            proof {
                lemma_mul_upper_bound(
                    value as int - self.min as int,
                    u32::MAX as int,
                    self.buckets as int,
                    u32::MAX as int,
                );
                lemma_mul_strict_inequality(
                    value as int - self.min as int,
                    self.max as int - self.min as int,
                    self.buckets as int,
                );
                lemma_mul_is_commutative(
                    self.max as int - self.min as int,
                    self.buckets as int,
                );
                lemma_multiply_divide_lt(
                    (value as int - self.min as int) * self.buckets as int,
                    self.max as int - self.min as int,
                    self.buckets as int,
                );
            }
            let num: u64 = ((value - self.min) as u64) * (self.buckets as u64);
            let den: u64 = (self.max - self.min) as u64;
            (num / den) as usize
        }
    }

    pub fn get_min(&self) -> (r: u32)
        ensures
            r == self.min,
    {
        self.min
    }

    pub fn get_max(&self) -> (r: u32)
        ensures
            r == self.max,
    {
        self.max
    }

    pub fn get_bucket_count(&self) -> (r: usize)
        ensures
            r == self.buckets,
    {
        self.buckets
    }
}

/// The boundary values land in the outermost buckets, and every bucket
/// index is within range.
pub proof fn lemma_bucket_bounds(b: LinearBuckets, value: u32)
    requires
        b.wf(),
    ensures
        0 <= b.bucket_of(value) < b.buckets,
        b.bucket_of(b.min) == 0,
        b.bucket_of(b.max) == b.buckets as int - 1,
{
    if b.min < value < b.max {
        lemma_div_pos_is_pos(
            (value as int - b.min as int) * b.buckets as int,
            b.max as int - b.min as int,
        );
        lemma_mul_strict_inequality(
            value as int - b.min as int,
            b.max as int - b.min as int,
            b.buckets as int,
        );
        lemma_mul_is_commutative(b.max as int - b.min as int, b.buckets as int);
        lemma_multiply_divide_lt(
            (value as int - b.min as int) * b.buckets as int,
            b.max as int - b.min as int,
            b.buckets as int,
        );
        assert((value as int - b.min as int) * b.buckets as int >= 0) by {
            lemma_mul_upper_bound(0, value as int - b.min as int, 0, b.buckets as int);
        }
    }
}

/// The bucket index never falls as the value grows.
pub proof fn lemma_bucket_monotonic(b: LinearBuckets, v1: u32, v2: u32)
    requires
        b.wf(),
        v1 <= v2,
    ensures
        b.bucket_of(v1) <= b.bucket_of(v2),
{
    lemma_bucket_bounds(b, v1);
    lemma_bucket_bounds(b, v2);
    if b.min < v1 < b.max && b.min < v2 < b.max {
        lemma_mul_inequality(
            v1 as int - b.min as int,
            v2 as int - b.min as int,
            b.buckets as int,
        );
        lemma_div_is_ordered(
            (v1 as int - b.min as int) * b.buckets as int,
            (v2 as int - b.min as int) * b.buckets as int,
            b.max as int - b.min as int,
        );
    }
}

// ---------------------------------------------------------------------------
// Running statistics of a linear histogram.
// ---------------------------------------------------------------------------

/// The running sum and sum of squares of every value recorded into a
/// linear histogram.
#[derive(Clone, Copy)]
pub struct LinearStats {
    pub sum: u64,
    pub sum_squares: u64,
}

impl LinearStats {
    /// Can `value` still be absorbed without overflowing an accumulator?
    pub open spec fn can_record(&self, value: u32) -> bool {
        &&& self.sum + value <= u64::MAX
        &&& self.sum_squares + value * value <= u64::MAX
    }

    /// The statistics after absorbing `value`.
    pub open spec fn record_spec(&self, value: u32) -> LinearStats {
        LinearStats {
            sum: (self.sum + value) as u64,
            sum_squares: (self.sum_squares + value * value) as u64,
        }
    }

    pub fn new() -> (r: Self)
        ensures
            r.sum == 0,
            r.sum_squares == 0,
    {
        LinearStats { sum: 0, sum_squares: 0 }
    }

    pub fn record(&mut self, value: u32)
        requires
            old(self).can_record(value),
        ensures
            *final(self) == old(self).record_spec(value),
    {
        proof {
            lemma_mul_upper_bound(value as int, u32::MAX as int, value as int, u32::MAX as int);
        }
        self.sum_squares = self.sum_squares + (value as u64) * (value as u64);
        self.sum = self.sum + value as u64;
    }
}

/// The small integer tag that the rich format uses for each histogram kind.
pub enum HistogramType {
    Linear,
    Boolean,
    Flag,
    Count,
    Custom,
}

/// The tag's numeric value.
pub open spec fn histogram_type_tag(t: HistogramType) -> int {
    match t {
        HistogramType::Linear => 1,
        HistogramType::Boolean => 2,
        HistogramType::Flag => 3,
        HistogramType::Count => 4,
        HistogramType::Custom => 5,
    }
}

// ---------------------------------------------------------------------------
// The rich, server-compatible rendering.
// ---------------------------------------------------------------------------

/// The index of the first non-zero count at or after `i`, or the length if
/// there is none.
pub open spec fn first_nz(s: Seq<u32>, i: int) -> int
    recommends
        0 <= i <= s.len(),
    decreases s.len() - i,
{
    if i < 0 || i >= s.len() {
        s.len() as int
    } else if s[i] != 0 {
        i
    } else {
        first_nz(s, i + 1)
    }
}

/// The index of the last non-zero count, or -1 if there is none.
pub open spec fn last_nz(s: Seq<u32>) -> int
    decreases s,
{
    if s.len() == 0 {
        -1
    } else if s.last() != 0 {
        s.len() - 1
    } else {
        last_nz(s.drop_last())
    }
}

/// Where the sparse `values` window starts: one bucket before the first
/// non-zero count, where that fits.
pub open spec fn window_start(s: Seq<u32>) -> int {
    if first_nz(s, 0) > 0 {
        first_nz(s, 0) - 1
    } else {
        0
    }
}

/// Where the sparse `values` window stops (inclusive): one bucket after the
/// last non-zero count, where that fits.
pub open spec fn window_stop(s: Seq<u32>) -> int {
    if last_nz(s) + 1 < s.len() {
        last_nz(s) + 1
    } else {
        s.len() - 1
    }
}

/// The entries of the sparse `values` object after the counts of the
/// window `[start, i)` have been added, keyed by the decimal numeral of the
/// bucket index and sorted as strings.
pub open spec fn values_fold(s: Seq<u32>, start: int, i: int) -> Seq<(Seq<char>, JsonModel)>
    decreases i - start,
{
    if i <= start {
        Seq::empty()
    } else {
        assoc_insert(values_fold(s, start, i - 1), dec_str(i - 1), JsonModel::Num(s[i - 1] as int))
    }
}

/// The entries of the sparse `values` object: the counts of the window,
/// or nothing when every count is zero.
pub open spec fn moz_values(s: Seq<u32>) -> Seq<(Seq<char>, JsonModel)> {
    if first_nz(s, 0) == s.len() {
        Seq::empty()
    } else {
        values_fold(s, window_start(s), window_stop(s) + 1)
    }
}

/// An intermediate form of one histogram, ready to be packed into the rich
/// format: the declared range and bucket count, the type tag, the running
/// statistics where the histogram keeps them, and the bucket counts.
pub struct MozillaIntermediateFormat {
    pub min: i64,
    pub max: i64,
    pub bucket_count: i64,
    pub histogram_type: HistogramType,
    pub linear: Option<LinearStats>,
    pub counts: Vec<u32>,
}

/// The rich rendering of one histogram, keys in their sorted order:
/// `bucket_count`, `histogram_type`, `range`, the statistics fields where
/// present, and the sparse `values` object.
pub open spec fn moz_json_of(
    min: int,
    max: int,
    bucket_count: int,
    tag: int,
    linear: Option<LinearStats>,
    counts: Seq<u32>,
) -> JsonModel {
    let head = seq![
        ("bucket_count"@, JsonModel::Num(bucket_count)),
        ("histogram_type"@, JsonModel::Num(tag)),
        ("range"@, JsonModel::Arr(seq![JsonModel::Num(min), JsonModel::Num(max)])),
    ];
    let tail = seq![("values"@, JsonModel::Obj(moz_values(counts)))];
    match linear {
        Option::Some(st) => JsonModel::Obj(
            head + seq![
                ("sum"@, JsonModel::Num((st.sum as i64) as int)),
                ("sum_squares_hi"@, JsonModel::Num(st.sum_squares as int / 0x1_0000_0000)),
                ("sum_squares_lo"@, JsonModel::Num(st.sum_squares as int % 0x1_0000_0000)),
            ] + tail,
        ),
        Option::None => JsonModel::Obj(head + tail),
    }
}

/// The sequence of numbers that a sequence of counts renders to.
pub open spec fn num_models(s: Seq<u32>) -> Seq<JsonModel> {
    Seq::new(s.len(), |i: int| JsonModel::Num(s[i] as int))
}

/// Renders bucket counts as a JSON array of numbers.
pub fn counts_to_json_array(v: &Vec<u32>) -> (r: Json)
    ensures
        r@ == JsonModel::Arr(num_models(v@)),
{
    let mut items: Vec<Json> = Vec::new();
    let mut i: usize = 0;
    while i < v.len()
        invariant
            i <= v@.len(),
            items@.len() == i,
            forall|j: int| 0 <= j < i ==> items@[j] == Json::I64(v@[j] as i64),
        decreases v@.len() - i,
    {
        items.push(Json::I64(v[i] as i64));
        i = i + 1;
    }
    let r = Json::Array(items);
    proof {
        crate::json::lemma_jsons_view_len(items@);
        assert(jsons_view(items@) =~= num_models(v@));
    }
    r
}

/// A sequence of `n` zero counts.
pub open spec fn zero_seq(n: nat) -> Seq<u32> {
    Seq::new(n, |i: int| 0u32)
}

/// A vector of `n` zero counts.
pub fn zero_vec(n: usize) -> (r: Vec<u32>)
    ensures
        r@ == zero_seq(n as nat),
{
    let mut r: Vec<u32> = Vec::new();
    let mut i: usize = 0;
    while i < n
        invariant
            i <= n,
            r@.len() == i,
            forall|j: int| 0 <= j < i ==> r@[j] == 0u32,
        decreases n - i,
    {
        r.push(0);
        i = i + 1;
    }
    proof {
        assert(r@ =~= zero_seq(n as nat));
    }
    r
}

/// A copy of a vector of counts.
pub fn copy_u32_vec(v: &Vec<u32>) -> (r: Vec<u32>)
    ensures
        r@ == v@,
{
    let mut r: Vec<u32> = Vec::new();
    let mut i: usize = 0;
    while i < v.len()
        invariant
            i <= v@.len(),
            r@ == v@.subrange(0, i as int),
        decreases v@.len() - i,
    {
        r.push(v[i]);
        proof {
            assert(r@ =~= v@.subrange(0, i + 1));
        }
        i = i + 1;
    }
    proof {
        assert(v@.subrange(0, v@.len() as int) =~= v@);
    }
    r
}

impl MozillaIntermediateFormat {
    /// Packs this histogram into the rich format, reproducing the layout of
    /// an existing telemetry server: a sparse `values` object holding the
    /// window of counts from one bucket before the first non-zero count to
    /// one bucket after the last, clipped to the bounds, and the 64-bit sum
    /// of squares split into two 32-bit halves.
    pub fn to_json(&self) -> (r: Json)
        ensures
            r@ == moz_json_of(
                self.min as int,
                self.max as int,
                self.bucket_count as int,
                histogram_type_tag(self.histogram_type),
                self.linear,
                self.counts@,
            ),
    {
        let mut values: SortedMap<Json> = SortedMap::new();
        let n = self.counts.len();
        // Index of the first non-zero count.
        let mut first: usize = 0;
        while first < n && self.counts[first] == 0
            invariant
                first <= n,
                n == self.counts@.len(),
                first_nz(self.counts@, 0) == first_nz(self.counts@, first as int),
            decreases n - first,
        {
            first = first + 1;
        }
        if first < n {
            // Index of the last non-zero count.
            let mut bound: usize = n;
            proof {
                assert(self.counts@.subrange(0, n as int) =~= self.counts@);
            }
            while bound > first + 1 && self.counts[bound - 1] == 0
                invariant
                    first < bound <= n,
                    n == self.counts@.len(),
                    first_nz(self.counts@, 0) == first as int,
                    self.counts@[first as int] != 0,
                    last_nz(self.counts@) == last_nz(self.counts@.subrange(0, bound as int)),
                decreases bound,
            {
                proof {
                    let s = self.counts@;
                    assert(s.subrange(0, bound as int).drop_last() =~= s.subrange(
                        0,
                        bound as int - 1,
                    ));
                }
                bound = bound - 1;
            }
            proof {
                let s = self.counts@;
                assert(s.subrange(0, bound as int).last() == s[bound as int - 1]);
                if bound == first + 1 && s[bound as int - 1] == 0 {
                    assert(s[first as int] != 0);
                }
                assert(last_nz(s) == bound - 1);
            }
            let last: usize = bound - 1;
            let start: usize = if first > 0 {
                first - 1
            } else {
                0
            };
            let stop: usize = if last + 1 < n {
                last + 1
            } else {
                n - 1
            };
            assert(start == window_start(self.counts@));
            assert(stop == window_stop(self.counts@));
            let mut i: usize = start;
            proof {
                assert(values.kv() =~= Seq::<(Seq<char>, Json)>::empty());
                assert(assoc_views(values.kv()) =~= values_fold(
                    self.counts@,
                    start as int,
                    start as int,
                ));
            }
            while i <= stop
                invariant
                    start <= i <= stop + 1,
                    stop < n,
                    n == self.counts@.len(),
                    values.wf(),
                    assoc_views(values.kv()) == values_fold(
                        self.counts@,
                        start as int,
                        i as int,
                    ),
                decreases stop + 1 - i,
            {
                let key = crate::json::usize_to_dec(i);
                let ghost pre = values.kv();
                values.insert(key, Json::I64(self.counts[i] as i64));
                proof {
                    lemma_assoc_views_insert::<Json>(
                        pre,
                        dec_str(i as int),
                        Json::I64(self.counts@[i as int] as i64),
                    );
                }
                i = i + 1;
            }
            proof {
                assert(moz_values(self.counts@) == values_fold(
                    self.counts@,
                    start as int,
                    stop as int + 1,
                ));
                crate::json::lemma_entries_view_len(values.entries@);
                assert(entries_view(values.entries@) =~= assoc_views(values.kv()));
            }
            self.assemble(Json::Object(values.entries))
        } else {
            proof {
                assert(values.kv() =~= Seq::<(Seq<char>, Json)>::empty());
                assert(assoc_views(values.kv()) =~= Seq::<(Seq<char>, JsonModel)>::empty());
                assert(moz_values(self.counts@) =~= Seq::<(Seq<char>, JsonModel)>::empty());
                crate::json::lemma_entries_view_len(values.entries@);
                assert(entries_view(values.entries@) =~= assoc_views(values.kv()));
            }
            self.assemble(Json::Object(values.entries))
        }
    }

    /// Builds the rich object around the finished `values` object.
    fn assemble(&self, values: Json) -> (r: Json)
        requires
            values@ == JsonModel::Obj(moz_values(self.counts@)),
        ensures
            r@ == moz_json_of(
                self.min as int,
                self.max as int,
                self.bucket_count as int,
                histogram_type_tag(self.histogram_type),
                self.linear,
                self.counts@,
            ),
    {
        let mut entries: Vec<(String, Json)> = Vec::new();
        entries.push((String::from_str("bucket_count"), Json::I64(self.bucket_count)));
        let tag: i64 = match self.histogram_type {
            HistogramType::Linear => 1,
            HistogramType::Boolean => 2,
            HistogramType::Flag => 3,
            HistogramType::Count => 4,
            HistogramType::Custom => 5,
        };
        entries.push((String::from_str("histogram_type"), Json::I64(tag)));
        let mut range: Vec<Json> = Vec::new();
        range.push(Json::I64(self.min));
        range.push(Json::I64(self.max));
        let ghost range_view = range@;
        proof {
            crate::json::lemma_jsons_view_len(range_view);
            assert(jsons_view(range_view) =~= seq![
                JsonModel::Num(self.min as int),
                JsonModel::Num(self.max as int),
            ]);
        }
        entries.push((String::from_str("range"), Json::Array(range)));
        match &self.linear {
            Option::Some(st) => {
                let sum: i64 = #[verifier::truncate] (st.sum as i64);
                entries.push((String::from_str("sum"), Json::I64(sum)));
                let hi: u64 = st.sum_squares / 0x1_0000_0000;
                let lo: u64 = st.sum_squares % 0x1_0000_0000;
                entries.push((String::from_str("sum_squares_hi"), Json::I64(hi as i64)));
                entries.push((String::from_str("sum_squares_lo"), Json::I64(lo as i64)));
            },
            Option::None => {},
        }
        entries.push((String::from_str("values"), values));
        let r = Json::Object(entries);
        proof {
            crate::json::lemma_entries_view_len(entries@);
            let es = entries_view(entries@);
            let spec_es = match moz_json_of(
                self.min as int,
                self.max as int,
                self.bucket_count as int,
                histogram_type_tag(self.histogram_type),
                self.linear,
                self.counts@,
            ) {
                JsonModel::Obj(es2) => es2,
                _ => Seq::empty(),
            };
            assert(es.len() == spec_es.len());
            assert forall|i: int| 0 <= i < es.len() implies es[i] == spec_es[i] by {
                assert(es[i] == (entries@[i].0@, json_view(entries@[i].1)));
            }
            assert(es =~= spec_es);
        }
        r
    }
}

} // verus!
