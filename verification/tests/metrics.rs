use aether::metrics::{http_response, Metrics};

fn line<'a>(text: &'a str, start: &str) -> &'a str {
    text.lines().find(|l| l.starts_with(start)).unwrap_or("")
}

#[test]
fn a_query_counts_into_every_bucket_that_is_wide_enough() {
    let mut m = Metrics::new();
    m.record_query(7, true);
    m.record_query(10, true);
    m.record_query(99_999, false);
    m.record_aggregate(true);
    m.record_aggregate(false);
    let text = m.render(2, 3);
    assert_eq!(line(&text, "aether_queries_total"), "aether_queries_total 3");
    assert_eq!(line(&text, "aether_query_errors_total"), "aether_query_errors_total 1");
    assert_eq!(line(&text, "aether_aggregates_total"), "aether_aggregates_total 2");
    assert_eq!(line(&text, "aether_aggregate_errors_total"), "aether_aggregate_errors_total 1");
    assert_eq!(line(&text, "aether_query_latency_ms_bucket{le=\"5\"}"), "aether_query_latency_ms_bucket{le=\"5\"} 0");
    assert_eq!(line(&text, "aether_query_latency_ms_bucket{le=\"10\"}"), "aether_query_latency_ms_bucket{le=\"10\"} 2");
    assert_eq!(line(&text, "aether_query_latency_ms_bucket{le=\"+Inf\"}"), "aether_query_latency_ms_bucket{le=\"+Inf\"} 3");
    assert_eq!(line(&text, "aether_query_latency_ms_sum"), "aether_query_latency_ms_sum 100016");
    assert_eq!(line(&text, "aether_query_latency_ms_count"), "aether_query_latency_ms_count 3");
    assert_eq!(line(&text, "aether_cluster_leaders"), "aether_cluster_leaders 2");
    assert_eq!(line(&text, "aether_cluster_shards"), "aether_cluster_shards 3");
}

#[test]
fn every_metric_is_described_before_its_value() {
    let text = Metrics::default().render(0, 1);
    assert!(text.starts_with(
        "# HELP aether_queries_total Search queries handled by the coordinator.\n# TYPE aether_queries_total counter\naether_queries_total 0\n"
    ));
    assert!(text.contains("# TYPE aether_query_latency_ms histogram\n"));
    assert!(text.contains("# TYPE aether_cluster_leaders gauge\n"));
}

#[test]
fn buckets_are_cumulative() {
    let mut m = Metrics::new();
    for ms in [1u128, 3, 30, 300, 3000, 30_000] {
        m.record_query(ms, true);
    }
    let text = m.render(0, 0);
    let counts: Vec<u64> = text
        .lines()
        .filter(|l| l.starts_with("aether_query_latency_ms_bucket"))
        .map(|l| l.rsplit(' ').next().unwrap().parse().unwrap())
        .collect();
    assert!(counts.windows(2).all(|w| w[0] <= w[1]));
    assert_eq!(counts.last(), Some(&6));
}

#[test]
fn the_response_length_counts_bytes() {
    assert_eq!(
        http_response("é\n"),
        "HTTP/1.1 200 OK\r\nContent-Type: text/plain; version=0.0.4\r\nContent-Length: 3\r\nConnection: close\r\n\r\né\n"
    );
}

#[test]
fn the_default_counts_from_zero() {
    let mut m = Metrics::default();
    assert_eq!(m.render(1, 1), Metrics::new().render(1, 1));
    m.record_query(3, true);
    assert_eq!(line(&m.render(0, 0), "aether_queries_total"), "aether_queries_total 1");
}
