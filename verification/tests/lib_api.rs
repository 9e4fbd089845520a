//! The service-based front end, exercised end to end: registration,
//! recording, activation, and compact serialization.

use telemetry::json::Json;
use telemetry::keyed::{KeyedCount, KeyedEnum, KeyedFlag, KeyedHistogram, KeyedLinear};
use telemetry::plain::{Count, Enum, Flag, Histogram, Linear};
use telemetry::{Flatten, SerializationFormat, Service, Subset};

fn get_all_serialized(telemetry: &Service) -> (Json, Json) {
    let plain = telemetry.to_json(Subset::AllPlain, SerializationFormat::SimpleJson);
    let keyed = telemetry.to_json(Subset::AllKeyed, SerializationFormat::SimpleJson);
    (plain, keyed)
}

#[test]
fn lib_create_flags() {
    let mut telemetry = Service::new(false);
    let mut flag_plain = Flag::new(&mut telemetry, "Test linear plain".to_string());
    let mut flag_map = KeyedFlag::new(&mut telemetry, "Test flag map".to_string());

    flag_plain.record(&mut telemetry, ());
    flag_map.record(&mut telemetry, "key".to_string(), ());

    telemetry.set_active(true);
    flag_plain.record(&mut telemetry, ());
    flag_map.record(&mut telemetry, "key".to_string(), ());
}

#[test]
fn lib_create_linears() {
    let mut telemetry = Service::new(false);
    let mut linear_plain: Linear<u32> =
        Linear::new(&mut telemetry, "Test linear plain".to_string(), 0, 100, 10);
    let mut linear_map: KeyedLinear<String, u32> =
        KeyedLinear::new(&mut telemetry, "Test linear map".to_string(), 0, 100, 10);

    linear_plain.record(&mut telemetry, 0);
    linear_map.record(&mut telemetry, "key".to_string(), 0);

    telemetry.set_active(true);
    linear_plain.record(&mut telemetry, 0);
    linear_map.record(&mut telemetry, "key".to_string(), 0);
}

enum TestEnum {
    Case1,
    Case2,
    Case3(String),
}

impl Flatten for TestEnum {
    // The specification-level item of the trait; never called at run time.
    fn flatten_spec(&self) -> u32 {
        self.as_u32()
    }

    fn as_u32(&self) -> u32 {
        match self {
            &TestEnum::Case1 => 0,
            &TestEnum::Case2 => 1,
            &TestEnum::Case3(_) => 2,
        }
    }
}

#[test]
fn lib_test_serialize_simple() {
    let mut telemetry = Service::new(false);

    telemetry.set_active(true);

    // Test flags.

    // A plain flag that will remain untouched.
    let flag_plain_1_name = "Test flag plain 1".to_string();
    let flag_plain_1 = Flag::new(&mut telemetry, flag_plain_1_name.clone());
    let _ = flag_plain_1;

    // A plain flag that will be recorded once.
    let flag_plain_2_name = "Test flag plain 2".to_string();
    let mut flag_plain_2 = Flag::new(&mut telemetry, flag_plain_2_name.clone());
    flag_plain_2.record(&mut telemetry, ());

    // A map flag.
    let flag_map_name = "Test flag map".to_string();
    let mut flag_map = KeyedFlag::new(&mut telemetry, flag_map_name.clone());
    let key1 = "key 1".to_string();
    let key2 = "key 2".to_string();
    flag_map.record(&mut telemetry, key1.clone(), ());
    flag_map.record(&mut telemetry, key2.clone(), ());

    // Serialize and check the results.
    let (plain, keyed) = get_all_serialized(&telemetry);

    // Compare the plain stuff; only our histograms appear.
    let all_flag_plain = vec![
        (flag_plain_1_name.clone(), Json::I64(0)),
        (flag_plain_2_name.clone(), Json::I64(1)),
    ];
    assert_eq!(plain, Json::Object(all_flag_plain));

    // Compare the map stuff; only our histograms appear.
    let all_flag_map = vec![(
        flag_map_name.clone(),
        Json::Array(vec![Json::Str(key1.clone()), Json::Str(key2.clone())]),
    )];
    assert_eq!(keyed, Json::Object(all_flag_map));

    // Test linears.

    // Add a plain linear histogram and fill it.
    let mut linear_plain_1: Linear<u32> =
        Linear::new(&mut telemetry, "Test linear plain".to_string(), 0, 100, 10);
    linear_plain_1.record(&mut telemetry, 100);
    linear_plain_1.record(&mut telemetry, 99);
    linear_plain_1.record(&mut telemetry, 98);
    linear_plain_1.record(&mut telemetry, 25);

    // Add a keyed linear.
    let mut linear_keyed_1: KeyedLinear<String, u32> =
        KeyedLinear::new(&mut telemetry, "Test linear dynamic".to_string(), 0, 100, 10);
    linear_keyed_1.record(&mut telemetry, "Key 1".to_string(), 120);
    linear_keyed_1.record(&mut telemetry, "Key 1".to_string(), 98);
    linear_keyed_1.record(&mut telemetry, "Key 2".to_string(), 35);
    linear_keyed_1.record(&mut telemetry, "Key 2".to_string(), 55);

    // Compare stuff.
    let (plain, keyed) = get_all_serialized(&telemetry);
    if let Json::Object(_) = plain {
        if let Some(&Json::Array(ref array)) = plain.get("Test linear plain") {
            let expect: Vec<Json> = vec![0, 0, 1, 0, 0, 0, 0, 0, 0, 3]
                .iter()
                .cloned()
                .map(Json::I64)
                .collect();
            assert_eq!(*array, expect);
        } else {
            panic!("No record for the histogram");
        }
    } else {
        panic!("Not a Json object");
    }

    if let Json::Object(_) = keyed {
        if let Some(hist) = keyed.get("Test linear dynamic") {
            if let Json::Object(entries) = hist {
                assert_eq!(entries.len(), 2);
            } else {
                panic!("Not a Json object");
            }
            if let Some(&Json::Array(ref array)) = hist.get("Key 1") {
                let expect: Vec<Json> = vec![0, 0, 0, 0, 0, 0, 0, 0, 0, 2]
                    .iter()
                    .cloned()
                    .map(Json::I64)
                    .collect();
                assert_eq!(*array, expect);
            } else {
                panic!("No key 1");
            }
            if let Some(&Json::Array(ref array)) = hist.get("Key 2") {
                let expect: Vec<Json> = vec![0, 0, 0, 1, 0, 1, 0, 0, 0, 0]
                    .iter()
                    .cloned()
                    .map(Json::I64)
                    .collect();
                assert_eq!(*array, expect);
            } else {
                panic!("No key 2");
            }
        } else {
            panic!("No record for the histogram");
        }
    } else {
        panic!("Not a Json object");
    }

    // Test count.
    let mut count_1 = Count::new(&mut telemetry, "Count 1".to_string());
    count_1.record(&mut telemetry, 5);
    count_1.record(&mut telemetry, 3);
    count_1.record(&mut telemetry, 7);

    let mut keyed_count_1: KeyedCount<String> =
        KeyedCount::new(&mut telemetry, "Keyed count 1".to_string());
    keyed_count_1.record(&mut telemetry, "Key A".to_string(), 31);
    keyed_count_1.record(&mut telemetry, "Key B".to_string(), 100);
    keyed_count_1.record(&mut telemetry, "Key A".to_string(), 61);
    keyed_count_1.record(&mut telemetry, "Key C".to_string(), 1);

    let (plain, keyed) = get_all_serialized(&telemetry);
    if let Json::Object(_) = plain {
        if let Some(&Json::I64(ref num)) = plain.get("Count 1") {
            assert_eq!(*num, 15);
        } else {
            panic!("No record for the histogram or not a num");
        }
    } else {
        panic!("Not a Json object");
    }

    if let Json::Object(_) = keyed {
        if let Some(hist) = keyed.get("Keyed count 1") {
            let json = hist.to_string();
            assert_eq!(json, "{\"Key A\":92,\"Key B\":100,\"Key C\":1}");
        } else {
            panic!("No record for the histogram or not an object");
        }
    } else {
        panic!("Not a Json object");
    }

    // Test enumerations.
    let mut enum_1: Enum<TestEnum> = Enum::new(&mut telemetry, "Enum 1".to_string());
    enum_1.record(&mut telemetry, TestEnum::Case2);
    enum_1.record(&mut telemetry, TestEnum::Case2);
    enum_1.record(&mut telemetry, TestEnum::Case3("foobar".to_string()));

    let mut keyed_enum_1: KeyedEnum<String, TestEnum> =
        KeyedEnum::new(&mut telemetry, "Keyed enum 1".to_string());
    keyed_enum_1.record(&mut telemetry, "Key 2".to_string(), TestEnum::Case1);
    keyed_enum_1.record(&mut telemetry, "Key 1".to_string(), TestEnum::Case1);
    keyed_enum_1.record(&mut telemetry, "Key 1".to_string(), TestEnum::Case2);
    keyed_enum_1.record(&mut telemetry, "Key 1".to_string(), TestEnum::Case2);

    let (plain, keyed) = get_all_serialized(&telemetry);
    if let Json::Object(_) = plain {
        if let Some(hist) = plain.get("Enum 1") {
            let json = hist.to_string();
            assert_eq!(json, "[0,2,1]");
        } else {
            panic!("No record for the histogram");
        }
    } else {
        panic!("Not a Json object");
    }

    if let Json::Object(_) = keyed {
        if let Some(hist) = keyed.get("Keyed enum 1") {
            let json = hist.to_string();
            assert_eq!(json, "{\"Key 1\":[1,2],\"Key 2\":[1]}");
        } else {
            panic!("No record for the histogram");
        }
    } else {
        panic!("Not a Json object");
    }
}
