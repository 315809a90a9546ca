use lab1::timing::{cycles_label, instant_now, time_call};

#[test]
fn time_call_returns_the_value() {
    let t = time_call(|| 6 * 7, || 0u64);
    assert_eq!(t.value, 42);
}

#[test]
fn time_call_counts_counter_difference() {
    let ticks = std::cell::Cell::new(100u64);
    let t = time_call(
        || "done",
        || {
            let v = ticks.get();
            ticks.set(v + 25);
            v
        },
    );
    assert_eq!(t.value, "done");
    assert_eq!(t.cycles, 25);
}

#[test]
fn time_call_saturates_when_counter_goes_back() {
    let ticks = std::cell::Cell::new(500u64);
    let t = time_call(
        || (),
        || {
            let v = ticks.get();
            ticks.set(v - 300);
            v
        },
    );
    assert_eq!(t.cycles, 0);
}

#[test]
fn time_call_measures_wall_time() {
    let start = instant_now();
    let t = time_call(|| (0..1000u64).sum::<u64>(), || 0u64);
    assert_eq!(t.value, 499500);
    assert!(t.elapsed <= start.elapsed());
}

#[test]
fn cycles_label_names_the_unit() {
    assert_eq!(cycles_label(true), "rdtsc cycles");
    assert_eq!(cycles_label(false), "ns");
}
