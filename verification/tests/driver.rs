//! The collector driven directly, as a worker loop would drive it: batches
//! of operations, the terminate operation, the callback-based record path,
//! and the feature-scoped single histograms.

use telemetry::json::Json;
use telemetry::misc::NamedStorage;
use telemetry::plain::{Count, CountStorage, FlagStorage, Histogram};
use telemetry::single;
use telemetry::task::{Op, PlainStorage, TelemetryTask};
use telemetry::telemetry::{Feature, Telemetry};
use telemetry::{SerializationFormat, Service, Subset};

#[test]
fn collector_batch_run() {
    let mut task = TelemetryTask::new();
    let ops = vec![
        Op::RegisterPlain(
            0,
            NamedStorage {
                name: "COUNT".to_string(),
                contents: PlainStorage::Count(CountStorage { value: 0 }),
            },
        ),
        Op::RegisterPlain(
            1,
            NamedStorage {
                name: "FLAG".to_string(),
                contents: PlainStorage::Flag(FlagStorage { encountered: false }),
            },
        ),
        Op::RecordPlain(0, 2),
        Op::RecordPlain(0, 3),
        Op::RecordPlain(1, 0),
        Op::Serialize(Subset::AllPlain, SerializationFormat::SimpleJson),
        Op::Terminate,
        // Nothing after the terminate operation is processed.
        Op::RecordPlain(0, 100),
    ];
    let replies = task.run(ops);
    assert_eq!(replies.len(), 1);
    assert_eq!(replies[0].to_string(), "{\"COUNT\":5,\"FLAG\":1}");
}

#[test]
fn record_via_callback() {
    let mut telemetry = Service::new(true);
    let mut count = Count::new(&mut telemetry, "C".to_string());

    count.record_cb(&mut telemetry, || Some(7));
    count.record_cb(&mut telemetry, || None);

    let plain = telemetry.to_json(Subset::AllPlain, SerializationFormat::SimpleJson);
    assert_eq!(plain.to_string(), "{\"C\":7}");
}

#[test]
fn callback_is_lazy_while_inactive() {
    let mut telemetry = Service::new(false);
    let mut count = Count::new(&mut telemetry, "C".to_string());

    // The producer must not run while the service is inactive.
    count.record_cb(&mut telemetry, || -> Option<u32> {
        panic!("the producer ran while the service was inactive")
    });

    let plain = telemetry.to_json(Subset::AllPlain, SerializationFormat::SimpleJson);
    assert_eq!(plain.to_string(), "{\"C\":0}");
}

#[test]
fn single_front_end() {
    let mut telemetry = Telemetry::new([1, 0, 0, 0]);
    let mut feature = Feature::new(&telemetry);

    let mut flag = single::Flag::new(&feature, &mut telemetry, "F".to_string());
    let mut speed: single::Linear<u32> =
        single::Linear::new(&feature, &mut telemetry, "SPEED".to_string(), 0, 100, 10);
    let mut ignored: single::Ignoring<u32> = single::Ignoring::new();

    // The feature starts inactive: nothing is recorded.
    single::Histogram::record(&mut flag, &mut telemetry, &feature, ());
    single::Histogram::record(&mut speed, &mut telemetry, &feature, 42);

    feature.is_active = true;
    single::Histogram::record(&mut flag, &mut telemetry, &feature, ());
    single::Histogram::record(&mut speed, &mut telemetry, &feature, 42);
    single::Histogram::record_cb(&mut speed, &mut telemetry, &feature, || Some(55));
    single::Histogram::record(&mut ignored, &mut telemetry, &feature, 1);

    let (flat, _keyed) = telemetry.serialize(telemetry::telemetry::SerializationFormat::Simple);
    if let Some(hist) = flat.get("SPEED") {
        assert_eq!(hist.to_string(), "[0,0,0,0,1,1,0,0,0,0]");
    } else {
        panic!("No record for the histogram");
    }
    if let Some(hist) = flat.get("F") {
        assert_eq!(hist.to_string(), "true");
    } else {
        panic!("No record for the histogram");
    }

    // A second record of a set flag does not change the serialization.
    single::Histogram::record(&mut flag, &mut telemetry, &feature, ());
    let (flat, _keyed) = telemetry.serialize(telemetry::telemetry::SerializationFormat::Simple);
    assert_eq!(flat.get("F").map(|h| h.to_string()), Some("true".to_string()));
}
