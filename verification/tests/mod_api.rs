//! The feature-scoped front end, exercised end to end: features start
//! inactive, records while inactive are dropped, and serialization splits
//! flat from keyed histograms.

use telemetry::json::Json;
use telemetry::telemetry::{
    Feature, FlagMap, FlagSingle, LinearMap, LinearSingle, Metadata, SerializationFormat,
    Telemetry,
};

#[test]
fn mod_create_flags() {
    let mut telemetry = Telemetry::new([0, 0, 0, 0]);
    let mut feature = Feature::new(&telemetry);
    let flag_single = FlagSingle::new(
        &feature,
        &mut telemetry,
        Metadata { key: "Test linear single".to_string(), expires: None },
    );
    let flag_map: FlagMap<String> = FlagMap::new(
        &feature,
        &mut telemetry,
        Metadata { key: "Test flag map".to_string(), expires: None },
    );

    flag_single.record(&mut telemetry, &feature, ());
    flag_map.record(&mut telemetry, &feature, "key".to_string(), ());

    feature.is_active = true;
    flag_single.record(&mut telemetry, &feature, ());
    flag_map.record(&mut telemetry, &feature, "key".to_string(), ());
}

#[test]
fn mod_create_linears() {
    let mut telemetry = Telemetry::new([0, 0, 0, 0]);
    let mut feature = Feature::new(&telemetry);
    let linear_single: LinearSingle<u32> = LinearSingle::new(
        &feature,
        &mut telemetry,
        Metadata { key: "Test linear single".to_string(), expires: None },
        0,
        100,
        10,
    );
    let linear_map: LinearMap<String, u32> = LinearMap::new(
        &feature,
        &mut telemetry,
        Metadata { key: "Test linear map".to_string(), expires: None },
        0,
        100,
        10,
    );

    linear_single.record(&mut telemetry, &feature, 0);
    linear_map.record(&mut telemetry, &feature, "key".to_string(), 0);

    feature.is_active = true;
    linear_single.record(&mut telemetry, &feature, 0);
    linear_map.record(&mut telemetry, &feature, "key".to_string(), 0);
}

#[test]
fn mod_test_serialize_simple() {
    let mut telemetry = Telemetry::new([0, 0, 0, 0]);
    let mut feature = Feature::new(&telemetry);

    feature.is_active = true;

    // A single flag that will remain untouched.
    let flag_single_1_name = "Test linear single 1".to_string();
    let flag_single_1 = FlagSingle::new(
        &feature,
        &mut telemetry,
        Metadata { key: flag_single_1_name.clone(), expires: None },
    );
    let _ = flag_single_1;

    // A single flag that will be recorded once.
    let flag_single_2_name = "Test linear single 2".to_string();
    let flag_single_2 = FlagSingle::new(
        &feature,
        &mut telemetry,
        Metadata { key: flag_single_2_name.clone(), expires: None },
    );
    flag_single_2.record(&mut telemetry, &feature, ());

    // A map flag.
    let flag_map_name = "Test flag map".to_string();
    let flag_map: FlagMap<String> = FlagMap::new(
        &feature,
        &mut telemetry,
        Metadata { key: flag_map_name.clone(), expires: None },
    );
    let key1 = "key 1".to_string();
    let key2 = "key 2".to_string();
    flag_map.record(&mut telemetry, &feature, key1.clone(), ());
    flag_map.record(&mut telemetry, &feature, key2.clone(), ());

    // Serialize and check the results.
    let (flat, keyed) = telemetry.serialize(SerializationFormat::Simple);

    // Compare the flat histograms.
    let all_flag_single = vec![
        (flag_single_1_name.clone(), Json::Boolean(false)),
        (flag_single_2_name.clone(), Json::Boolean(true)),
    ];
    assert_eq!(flat, Json::Object(all_flag_single));

    // Compare the keyed histograms: the keys appear in lexicographic
    // order, each once.
    let all_flag_map = vec![(
        flag_map_name.clone(),
        Json::Array(vec![Json::Str(key1.clone()), Json::Str(key2.clone())]),
    )];
    assert_eq!(keyed, Json::Object(all_flag_map));
}
