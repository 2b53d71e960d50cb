use vstd::prelude::*;

verus! {

/// Where an experiment ran.
#[derive(Debug, Clone, Copy, PartialEq, Eq, Hash, Structural)]
pub enum Testbed {
    Aws,
    Baremetal,
    Local,
}

/// The unit in which client latencies are recorded.
#[derive(Debug, Clone, Copy, PartialEq, Eq, Hash, Structural)]
pub enum LatencyPrecision {
    Micros,
    Millis,
}

/// The precision of an experiment's latencies: milliseconds on AWS, or when
/// latency was injected between the machines; microseconds otherwise.
pub open spec fn latency_precision_spec(testbed: Testbed, latency_injected: bool) -> LatencyPrecision {
    match testbed {
        Testbed::Aws => LatencyPrecision::Millis,
        _ => if latency_injected {
            LatencyPrecision::Millis
        } else {
            LatencyPrecision::Micros
        },
    }
}

/// We should use milliseconds if: AWS or (baremetal + injected latency).
/// No latency is ever injected on AWS.
pub fn latency_precision(testbed: Testbed, latency_injected: bool) -> (p: LatencyPrecision)
    requires
        testbed == Testbed::Aws ==> !latency_injected,
    ensures
        p == latency_precision_spec(testbed, latency_injected),
{
    match testbed {
        Testbed::Aws => {
            // no latency was injected
            LatencyPrecision::Millis
        },
        Testbed::Baremetal | Testbed::Local => {
            // use ms if latency was injected, otherwise micros
            if latency_injected {
                LatencyPrecision::Millis
            } else {
                LatencyPrecision::Micros
            }
        },
    }
}

/// A latency of `nanos` nanoseconds in whole units of `precision`, kept in 64 bits.
pub open spec fn latency_in(precision: LatencyPrecision, nanos: u128) -> u64 {
    match precision {
        LatencyPrecision::Micros => (nanos / 1000) as u64,
        LatencyPrecision::Millis => (nanos / 1_000_000) as u64,
    }
}

/// The latencies, given in nanoseconds, in whole units of `precision`, kept in 64 bits.
pub fn extract_latency(precision: LatencyPrecision, latency_nanos: &Vec<u128>) -> (latencies: Vec<u64>)
    ensures
        latencies.len() == latency_nanos.len(),
        forall|i: int|
            0 <= i < latencies.len() ==> latencies@[i] == latency_in(precision, #[trigger] latency_nanos@[i]),
{
    let mut latencies: Vec<u64> = Vec::new();
    let mut i: usize = 0;
    while i < latency_nanos.len()
        invariant
            i <= latency_nanos.len(),
            latencies.len() == i,
            forall|j: int|
                0 <= j < i ==> latencies@[j] == latency_in(precision, #[trigger] latency_nanos@[j]),
        decreases latency_nanos.len() - i,
    {
        let nanos = latency_nanos[i];
        let latency = match precision {
            LatencyPrecision::Micros => nanos / 1000,
            LatencyPrecision::Millis => nanos / 1_000_000,
        };
        latencies.push(latency as u64);
        i = i + 1;
    }
    latencies
}

} // verus!
