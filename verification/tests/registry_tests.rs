use zap_stream_core::filter::Filter;
use zap_stream_core::registry::SubscriptionRegistry;

#[test]
fn release_surrenders_the_store_id_once() {
    let mut reg = SubscriptionRegistry::new();
    let h = reg.register("home-page", vec![Filter::new().kinds(vec![30311])], 41);
    assert_eq!(reg.release(h), Some(41));
}

#[test]
fn registration_defers_filters_for_the_coalescer() {
    let mut reg = SubscriptionRegistry::new();
    let h = reg.register("home-page", vec![Filter::new().kinds(vec![30311]).limit(100)], 1);
    assert_eq!(reg.coalescer.deferred.len(), 1);
    let traces = reg.coalescer.flush();
    assert_eq!(traces.len(), 1);
    assert_eq!(traces[0].filters[0].kinds, Some(vec![30311]));
    assert_eq!(traces[0].filters[0].limit, Some(100));
    reg.release(h);
}

#[test]
fn teardown_returns_each_owed_id_once() {
    let mut reg = SubscriptionRegistry::new();
    let h1 = reg.register("a", vec![Filter::new()], 5);
    let h2 = reg.register("b", vec![Filter::new()], 7);
    assert_eq!(reg.release(h1), Some(5));
    // Teardown surrenders what is still owed: only the second slot.
    assert_eq!(reg.drain_all(), vec![7]);
    // A handle that outlives the teardown releases nothing: its slot was
    // already surrendered, so no double unsubscribe can happen.
    assert_eq!(reg.release(h2), None);
}

#[test]
fn resubscribing_the_same_name_keeps_slots_independent() {
    let mut reg = SubscriptionRegistry::new();
    let h1 = reg.register("home-page", vec![Filter::new()], 10);
    let h2 = reg.register("home-page", vec![Filter::new()], 11);
    assert_eq!(reg.release(h2), Some(11));
    assert_eq!(reg.release(h1), Some(10));
}

#[test]
fn profile_demand_is_queued_once_per_key() {
    let mut reg = SubscriptionRegistry::new();
    let pk = [3u8; 32];
    assert!(reg.demand_profile(&pk));
    assert!(!reg.demand_profile(&pk));
    assert_eq!(reg.coalescer.deferred.len(), 1);
    assert_eq!(reg.coalescer.deferred[0].id, "profile");
    let f = &reg.coalescer.deferred[0].filters[0];
    assert_eq!(f.kinds, Some(vec![0]));
    assert_eq!(f.authors, Some(vec![pk]));
}
