use fantoch::exp_data::{extract_latency, latency_precision, LatencyPrecision, Testbed};
use std::time::Duration;

#[test]
fn milliseconds_on_aws() {
    assert_eq!(latency_precision(Testbed::Aws, false), LatencyPrecision::Millis);
}

#[test]
fn milliseconds_with_injected_latency() {
    assert_eq!(latency_precision(Testbed::Baremetal, true), LatencyPrecision::Millis);
    assert_eq!(latency_precision(Testbed::Local, true), LatencyPrecision::Millis);
}

#[test]
fn microseconds_otherwise() {
    assert_eq!(latency_precision(Testbed::Baremetal, false), LatencyPrecision::Micros);
    assert_eq!(latency_precision(Testbed::Local, false), LatencyPrecision::Micros);
}

#[test]
fn latencies_in_the_chosen_unit() {
    let durations = [
        Duration::from_micros(1500),
        Duration::from_nanos(999),
        Duration::from_secs(3) + Duration::from_nanos(2_000_999),
        Duration::from_millis(42),
    ];
    let nanos: Vec<u128> = durations.iter().map(|d| d.as_nanos()).collect();
    let micros: Vec<u64> = durations.iter().map(|d| d.as_micros() as u64).collect();
    let millis: Vec<u64> = durations.iter().map(|d| d.as_millis() as u64).collect();
    assert_eq!(extract_latency(LatencyPrecision::Micros, &nanos), micros);
    assert_eq!(extract_latency(LatencyPrecision::Millis, &nanos), millis);
    assert_eq!(extract_latency(LatencyPrecision::Micros, &nanos), vec![1500, 0, 3_002_000, 42_000]);
    assert_eq!(extract_latency(LatencyPrecision::Millis, &nanos), vec![1, 0, 3002, 42]);
}

#[test]
fn no_latencies() {
    assert!(extract_latency(LatencyPrecision::Millis, &Vec::new()).is_empty());
}
