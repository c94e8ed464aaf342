use zap_stream_core::coalescer::{Query, QueryCoalescer};
use zap_stream_core::filter::Filter;

fn home_filter() -> Filter {
    Filter::new().kinds(vec![30311]).limit(100)
}

fn profile_filter(author: [u8; 32]) -> Filter {
    Filter::new().kinds(vec![0]).authors(vec![author])
}

#[test]
fn dedup_equal_filters_queue_once() {
    let mut q = Query::new("home-page");
    q.add(vec![home_filter()]);
    q.add(vec![home_filter()]);
    assert_eq!(q.queue.len(), 1);
}

#[test]
fn dedup_within_one_batch() {
    let mut q = Query::new("home-page");
    q.add(vec![home_filter(), home_filter()]);
    assert_eq!(q.queue.len(), 1);
}

#[test]
fn distinct_filters_both_queue() {
    let mut q = Query::new("home-page");
    q.add(vec![home_filter(), Filter::new().kinds(vec![1311])]);
    assert_eq!(q.queue.len(), 2);
}

#[test]
fn coalesce_profile_lookups_into_one_filter() {
    let a = [1u8; 32];
    let b = [2u8; 32];
    let mut q = Query::new("profile");
    q.add(vec![profile_filter(a), profile_filter(b)]);
    let t = q.next(11, [9u8; 16]).expect("batch");
    assert_eq!(t.filters.len(), 1);
    assert_eq!(t.filters[0].kinds, Some(vec![0]));
    let authors = t.filters[0].authors.clone().expect("authors");
    assert_eq!(authors.len(), 2);
    assert!(authors.contains(&a));
    assert!(authors.contains(&b));
    assert!(t.filters[0].tags.is_none());
    assert!(t.filters[0].limit.is_none());
    assert_eq!(t.queued, 11);
    assert!(t.sent.is_none());
    assert!(t.eose.is_none());
}

#[test]
fn coalesce_dedups_shared_author() {
    let a = [5u8; 32];
    let mut q = Query::new("profile");
    q.add(vec![profile_filter(a)]);
    // The same author arrives again through another queue call before the
    // flush; the filters are equal, so the pending set keeps one.
    q.add(vec![profile_filter(a)]);
    let t = q.next(1, [0u8; 16]).expect("batch");
    assert_eq!(t.filters.len(), 1);
    assert_eq!(t.filters[0].authors, Some(vec![a]));
}

#[test]
fn non_metadata_batch_is_not_merged() {
    let mut q = Query::new("home-page");
    q.add(vec![home_filter()]);
    let t = q.next(42, [3u8; 16]).expect("batch");
    assert_eq!(t.filters.len(), 1);
    assert_eq!(t.filters[0].kinds, Some(vec![30311]));
    assert_eq!(t.filters[0].limit, Some(100));
    assert!(t.filters[0].authors.is_none());
    assert!(t.filters[0].tags.is_none());
}

#[test]
fn next_on_empty_pending_is_none() {
    let mut q = Query::new("idle");
    assert!(q.next(0, [0u8; 16]).is_none());
}

#[test]
fn dispatched_filter_is_not_resent() {
    let mut q = Query::new("home-page");
    q.add(vec![home_filter()]);
    let first = q.next(1, [1u8; 16]);
    assert!(first.is_some());
    // The same filter queued again is covered by the dispatched trace.
    q.add(vec![home_filter()]);
    assert_eq!(q.queue.len(), 0);
    assert!(q.next(2, [2u8; 16]).is_none());
}

#[test]
fn failed_dispatch_frees_the_filter_for_requeue() {
    let mut q = Query::new("home-page");
    q.add(vec![home_filter()]);
    let t = q.next(1, [1u8; 16]).expect("batch");
    q.record_failed(&t.id);
    assert_eq!(q.traces.len(), 0);
    q.add(vec![home_filter()]);
    assert_eq!(q.queue.len(), 1);
    assert!(q.next(2, [2u8; 16]).is_some());
}

#[test]
fn record_sent_stamps_the_trace() {
    let mut q = Query::new("home-page");
    q.add(vec![home_filter()]);
    let t = q.next(1, [8u8; 16]).expect("batch");
    assert!(q.record_sent(&t.id, 99));
    assert_eq!(q.traces[0].sent, Some(99));
    // A second report changes nothing: the trace is sent already.
    assert!(!q.record_sent(&t.id, 100));
    assert_eq!(q.traces[0].sent, Some(99));
}

#[test]
fn coalescer_flush_drains_deferrals_per_name() {
    let mut c = QueryCoalescer::new();
    c.queue_query("home-page", vec![home_filter()]);
    c.queue_query("chat", vec![Filter::new().kinds(vec![1311]).limit(200)]);
    assert_eq!(c.deferred.len(), 2);
    let traces = c.flush();
    assert_eq!(c.deferred.len(), 0);
    assert_eq!(c.queries.len(), 2);
    assert_eq!(traces.len(), 2);
    for t in &traces {
        assert!(t.sent.is_none());
    }
    // A second flush with nothing queued dispatches nothing.
    assert_eq!(c.flush().len(), 0);
}

#[test]
fn coalescer_query_merges_immediately() {
    let mut c = QueryCoalescer::new();
    c.query("home-page", vec![home_filter()]);
    c.query("home-page", vec![home_filter()]);
    assert_eq!(c.deferred.len(), 0);
    assert_eq!(c.queries.len(), 1);
    assert_eq!(c.queries[0].queue.len(), 1);
}

#[test]
fn coalescer_record_sent_finds_the_query() {
    let mut c = QueryCoalescer::new();
    c.query("home-page", vec![home_filter()]);
    let traces = c.flush();
    assert_eq!(traces.len(), 1);
    assert!(c.record_sent(&traces[0].id, 123));
    assert!(!c.record_sent(&traces[0].id, 124));
    let unknown = [0xabu8; 16];
    c.record_failed(&unknown);
    assert_eq!(c.queries[0].traces.len(), 1);
}

#[test]
fn flush_merges_profile_lookups_queued_separately() {
    let a = [0x0au8; 32];
    let b = [0x0bu8; 32];
    let mut c = QueryCoalescer::new();
    c.queue_query("profile", vec![profile_filter(a)]);
    c.queue_query("profile", vec![profile_filter(b)]);
    let traces = c.flush();
    assert_eq!(traces.len(), 1);
    assert_eq!(traces[0].filters.len(), 1);
    assert_eq!(traces[0].filters[0].kinds, Some(vec![0]));
    let authors = traces[0].filters[0].authors.clone().expect("authors");
    assert_eq!(authors.len(), 2);
    assert!(authors.contains(&a));
    assert!(authors.contains(&b));
}
