//! Scenario and edge-case coverage: the concrete serializations the
//! library promises, the bucket boundary behavior, key ordering, flag
//! idempotence, expiry, the rich format, and the text rendering itself.

use telemetry::json::{u64_to_dec, Json};
use telemetry::keyed::{KeyedCount, KeyedHistogram};
use telemetry::misc::LinearBuckets;
use telemetry::plain::{Count, Enum, Flag, Histogram, Linear};
use telemetry::telemetry::{Feature, FlagSingle, Metadata, Telemetry};
use telemetry::{SerializationFormat, Service, Subset};

#[test]
fn count_and_flag_scenario() {
    let mut telemetry = Service::new(true);
    let mut flag = Flag::new(&mut telemetry, "FLAG".to_string());
    let mut count = Count::new(&mut telemetry, "COUNT".to_string());

    flag.record(&mut telemetry, ());
    count.record(&mut telemetry, 2);
    count.record(&mut telemetry, 3);

    let plain = telemetry.to_json(Subset::AllPlain, SerializationFormat::SimpleJson);
    assert_eq!(plain.to_string(), "{\"COUNT\":5,\"FLAG\":1}");
}

#[test]
fn bucket_boundaries() {
    let shape = LinearBuckets::new(0, 100, 10);
    assert_eq!(shape.get_min(), 0);
    assert_eq!(shape.get_max(), 100);
    assert_eq!(shape.get_bucket_count(), 10);
    assert_eq!(shape.get_bucket(0), 0);
    assert_eq!(shape.get_bucket(100), 9);
    assert_eq!(shape.get_bucket(120), 9);
    assert_eq!(shape.get_bucket(25), 2);
    assert_eq!(shape.get_bucket(99), 9);
    // The bucket index never falls as the value grows.
    let mut previous = 0;
    let mut v: u32 = 0;
    while v <= 100 {
        let b = shape.get_bucket(v);
        assert!(b >= previous);
        previous = b;
        v += 1;
    }
}

#[test]
fn flag_idempotence() {
    let mut once = Service::new(true);
    let mut f1 = Flag::new(&mut once, "F".to_string());
    f1.record(&mut once, ());

    let mut thrice = Service::new(true);
    let mut f2 = Flag::new(&mut thrice, "F".to_string());
    f2.record(&mut thrice, ());
    f2.record(&mut thrice, ());
    f2.record(&mut thrice, ());

    let a = once.to_json(Subset::AllPlain, SerializationFormat::SimpleJson);
    let b = thrice.to_json(Subset::AllPlain, SerializationFormat::SimpleJson);
    assert_eq!(a, b);
    assert_eq!(a.to_string(), "{\"F\":1}");
}

#[test]
fn keyed_output_is_sorted() {
    let mut telemetry = Service::new(true);
    let mut counts: KeyedCount<String> = KeyedCount::new(&mut telemetry, "K".to_string());
    counts.record(&mut telemetry, "b".to_string(), 2);
    counts.record(&mut telemetry, "a".to_string(), 1);
    counts.record(&mut telemetry, "c".to_string(), 3);
    counts.record(&mut telemetry, "a".to_string(), 10);

    let keyed = telemetry.to_json(Subset::AllKeyed, SerializationFormat::SimpleJson);
    assert_eq!(keyed.to_string(), "{\"K\":{\"a\":11,\"b\":2,\"c\":3}}");
}

#[test]
fn everything_subset_merges_both_namespaces() {
    let mut telemetry = Service::new(true);
    let mut count = Count::new(&mut telemetry, "zeta".to_string());
    let mut keyed: KeyedCount<String> = KeyedCount::new(&mut telemetry, "alpha".to_string());
    count.record(&mut telemetry, 4);
    keyed.record(&mut telemetry, "k".to_string(), 7);

    let all = telemetry.to_json(Subset::Everything, SerializationFormat::SimpleJson);
    assert_eq!(all.to_string(), "{\"alpha\":{\"k\":7},\"zeta\":4}");
}

#[test]
fn enum_grows_on_demand() {
    let mut telemetry = Service::new(true);
    let mut labels: Enum<u32> = Enum::new(&mut telemetry, "E".to_string());
    labels.record(&mut telemetry, 2);

    let plain = telemetry.to_json(Subset::AllPlain, SerializationFormat::SimpleJson);
    assert_eq!(plain.to_string(), "{\"E\":[0,0,1]}");
}

#[test]
fn rich_format_linear() {
    let mut telemetry = Service::new(true);
    let mut linear: Linear<u32> = Linear::new(&mut telemetry, "L".to_string(), 0, 100, 10);
    linear.record(&mut telemetry, 25);

    let rich = telemetry.to_json(Subset::AllPlain, SerializationFormat::Mozilla);
    let hist = rich.get("L").expect("no histogram");
    assert_eq!(
        hist.to_string(),
        "{\"bucket_count\":10,\"histogram_type\":1,\"range\":[0,100],\"sum\":25,\
         \"sum_squares_hi\":0,\"sum_squares_lo\":625,\"values\":{\"1\":0,\"2\":1,\"3\":0}}"
    );
}

#[test]
fn rich_format_flag() {
    let mut telemetry = Service::new(true);
    let mut flag = Flag::new(&mut telemetry, "F".to_string());
    flag.record(&mut telemetry, ());

    let rich = telemetry.to_json(Subset::AllPlain, SerializationFormat::Mozilla);
    let hist = rich.get("F").expect("no histogram");
    assert_eq!(
        hist.to_string(),
        "{\"bucket_count\":1,\"histogram_type\":3,\"range\":[0,1],\"values\":{\"0\":1}}"
    );
}

#[test]
fn rich_format_empty_linear_has_no_values() {
    let mut telemetry = Service::new(true);
    let _linear: Linear<u32> = Linear::new(&mut telemetry, "L".to_string(), 0, 100, 10);

    let rich = telemetry.to_json(Subset::AllPlain, SerializationFormat::Mozilla);
    let hist = rich.get("L").expect("no histogram");
    assert_eq!(
        hist.to_string(),
        "{\"bucket_count\":10,\"histogram_type\":1,\"range\":[0,100],\"sum\":0,\
         \"sum_squares_hi\":0,\"sum_squares_lo\":0,\"values\":{}}"
    );
}

#[test]
fn expired_histogram_registers_nothing() {
    let mut telemetry = Telemetry::new([2, 0, 0, 0]);
    let mut feature = Feature::new(&telemetry);
    feature.is_active = true;

    let expired = FlagSingle::new(
        &feature,
        &mut telemetry,
        Metadata { key: "old flag".to_string(), expires: Some([1, 0, 0, 0]) },
    );
    expired.record(&mut telemetry, &feature, ());

    let alive = FlagSingle::new(
        &feature,
        &mut telemetry,
        Metadata { key: "new flag".to_string(), expires: Some([3, 0, 0, 0]) },
    );
    alive.record(&mut telemetry, &feature, ());

    let (flat, _keyed) = telemetry.serialize(telemetry::telemetry::SerializationFormat::Simple);
    assert_eq!(flat.to_string(), "{\"new flag\":true}");
}

#[test]
fn registered_names_are_tracked() {
    let mut telemetry = Service::new(false);
    assert!(!telemetry.has_name("COUNT"));
    let _count = Count::new(&mut telemetry, "COUNT".to_string());
    assert!(telemetry.has_name("COUNT"));
    assert!(!telemetry.has_name("OTHER"));
}

#[test]
fn inactive_service_records_nothing() {
    let mut telemetry = Service::new(false);
    let mut count = Count::new(&mut telemetry, "C".to_string());
    count.record(&mut telemetry, 10);
    let plain = telemetry.to_json(Subset::AllPlain, SerializationFormat::SimpleJson);
    assert_eq!(plain.to_string(), "{\"C\":0}");

    telemetry.set_active(true);
    assert!(telemetry.is_active());
    count.record(&mut telemetry, 10);
    let plain = telemetry.to_json(Subset::AllPlain, SerializationFormat::SimpleJson);
    assert_eq!(plain.to_string(), "{\"C\":10}");
}

#[test]
fn text_rendering_escapes_and_signs() {
    let quoted = Json::Str("a\"b\\c\nd".to_string());
    assert_eq!(quoted.to_string(), "\"a\\\"b\\\\c\\nd\"");

    let control = Json::Str("\u{1}".to_string());
    assert_eq!(control.to_string(), "\"\\u0001\"");

    assert_eq!(Json::I64(-42).to_string(), "-42");
    assert_eq!(Json::I64(i64::MIN).to_string(), "-9223372036854775808");
    assert_eq!(Json::I64(i64::MAX).to_string(), "9223372036854775807");
    assert_eq!(Json::Boolean(true).to_string(), "true");
    assert_eq!(Json::Array(vec![]).to_string(), "[]");
}

#[test]
fn decimal_rendering() {
    assert_eq!(u64_to_dec(0), "0");
    assert_eq!(u64_to_dec(7), "7");
    assert_eq!(u64_to_dec(10), "10");
    assert_eq!(u64_to_dec(90210), "90210");
    assert_eq!(u64_to_dec(u64::MAX), "18446744073709551615");
}

#[test]
fn rich_format_count() {
    let mut telemetry = Service::new(true);
    let mut count = Count::new(&mut telemetry, "C".to_string());
    count.record(&mut telemetry, 41);
    count.record(&mut telemetry, 1);

    let rich = telemetry.to_json(Subset::AllPlain, SerializationFormat::Mozilla);
    let hist = rich.get("C").expect("no histogram");
    assert_eq!(
        hist.to_string(),
        "{\"bucket_count\":1,\"histogram_type\":4,\"range\":[0,2],\"values\":{\"0\":42}}"
    );
}
