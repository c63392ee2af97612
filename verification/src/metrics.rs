//! Prometheus-format operational metrics of the coordinator: counters and a latency histogram
//! for the query path, and cluster gauges read at scrape time.

use vstd::prelude::*;
use vstd::string::*;
use vstd::utf8::encode_utf8;

use crate::text::{decimal, decimal_of, owned};

verus! {

/// The number of finite latency buckets.
pub const LATENCY_BUCKETS: usize = 6;

/// The upper bound in milliseconds of each latency bucket; the final one is implicit in the
/// total count.
pub open spec fn bound_ms(i: int) -> u64 {
    if i == 0 {
        1
    } else if i == 1 {
        5
    } else if i == 2 {
        10
    } else if i == 3 {
        50
    } else if i == 4 {
        100
    } else {
        500
    }
}

fn latency_bound(i: usize) -> (bound: u64)
    ensures
        bound == bound_ms(i as int),
{
    match i {
        0 => 1,
        1 => 5,
        2 => 10,
        3 => 50,
        4 => 100,
        _ => 500,
    }
}

/// A counter after one more event; counters wrap around.
pub open spec fn bumped(counter: u64, by: u64) -> u64 {
    ((counter + by) % 0x1_0000_0000_0000_0000) as u64
}

/// The counters.
pub struct Metrics {
    queries_total: u64,
    query_errors_total: u64,
    aggregates_total: u64,
    aggregate_errors_total: u64,
    query_latency_ms_sum: u64,
    latency_buckets: Vec<u64>,
}

/// The values of the counters.
pub struct Counters {
    pub queries: u64,
    pub query_errors: u64,
    pub aggregates: u64,
    pub aggregate_errors: u64,
    pub latency_ms_sum: u64,
    pub latency_buckets: Seq<u64>,
}

impl View for Metrics {
    type V = Counters;

    closed spec fn view(&self) -> Counters {
        Counters {
            queries: self.queries_total,
            query_errors: self.query_errors_total,
            aggregates: self.aggregates_total,
            aggregate_errors: self.aggregate_errors_total,
            latency_ms_sum: self.query_latency_ms_sum,
            latency_buckets: self.latency_buckets@,
        }
    }
}

/// The latency buckets after a query of `ms` milliseconds: every bucket whose bound it stays
/// within counts it.
pub open spec fn with_latency(buckets: Seq<u64>, ms: u64) -> Seq<u64> {
    Seq::new(
        buckets.len(),
        |i: int|
            if ms <= bound_ms(i) {
                bumped(buckets[i], 1)
            } else {
                buckets[i]
            },
    )
}

/// The counters after a query that took `ms` milliseconds.
pub open spec fn after_query(c: Counters, ms: u64, ok: bool) -> Counters {
    Counters {
        queries: bumped(c.queries, 1),
        query_errors: if ok {
            c.query_errors
        } else {
            bumped(c.query_errors, 1)
        },
        latency_ms_sum: bumped(c.latency_ms_sum, ms),
        latency_buckets: with_latency(c.latency_buckets, ms),
        ..c
    }
}

/// The counters after an aggregation.
pub open spec fn after_aggregate(c: Counters, ok: bool) -> Counters {
    Counters {
        aggregates: bumped(c.aggregates, 1),
        aggregate_errors: if ok {
            c.aggregate_errors
        } else {
            bumped(c.aggregate_errors, 1)
        },
        ..c
    }
}

impl Default for Metrics {
    /// All counters at zero.
    fn default() -> (metrics: Self)
        ensures
            metrics.well_formed(),
            metrics@ == (Counters {
                queries: 0,
                query_errors: 0,
                aggregates: 0,
                aggregate_errors: 0,
                latency_ms_sum: 0,
                latency_buckets: Seq::new(LATENCY_BUCKETS as nat, |i: int| 0u64),
            }),
    {
        let mut latency_buckets: Vec<u64> = Vec::new();
        let mut i: usize = 0;
        while i < LATENCY_BUCKETS
            invariant
                i <= LATENCY_BUCKETS,
                latency_buckets@ == Seq::new(i as nat, |i: int| 0u64),
            decreases LATENCY_BUCKETS - i,
        {
            latency_buckets.push(0);
            assert(latency_buckets@ =~= Seq::new((i + 1) as nat, |i: int| 0u64));
            i = i + 1;
        }
        Metrics {
            queries_total: 0,
            query_errors_total: 0,
            aggregates_total: 0,
            aggregate_errors_total: 0,
            query_latency_ms_sum: 0,
            latency_buckets,
        }
    }
}

/// A counter metric in the exposition format.
pub open spec fn counter_text(name: Seq<char>, help: Seq<char>, value: u64) -> Seq<char> {
    "# HELP "@ + name + " "@ + help + "\n# TYPE "@ + name + " counter\n"@ + name + " "@ + decimal_of(
        value as nat,
    ) + "\n"@
}

/// A gauge metric in the exposition format.
pub open spec fn gauge_text(name: Seq<char>, help: Seq<char>, value: nat) -> Seq<char> {
    "# HELP "@ + name + " "@ + help + "\n# TYPE "@ + name + " gauge\n"@ + name + " "@ + decimal_of(
        value,
    ) + "\n"@
}

/// The lines of the first `n` latency buckets.
pub open spec fn bucket_text(buckets: Seq<u64>, n: nat) -> Seq<char>
    decreases n,
{
    if n == 0 {
        Seq::empty()
    } else {
        bucket_text(buckets, (n - 1) as nat) + ("aether_query_latency_ms_bucket{le=\""@ + decimal_of(
            bound_ms(n - 1) as nat,
        ) + "\"} "@ + decimal_of(buckets[n - 1] as nat) + "\n"@)
    }
}

/// The whole exposition.
pub open spec fn exposition(c: Counters, leaders: nat, shards: nat) -> Seq<char> {
    counter_text(
        "aether_queries_total"@,
        "Search queries handled by the coordinator."@,
        c.queries,
    ) + counter_text(
        "aether_query_errors_total"@,
        "Search queries that returned an error."@,
        c.query_errors,
    ) + counter_text("aether_aggregates_total"@, "Aggregate queries handled."@, c.aggregates)
        + counter_text(
        "aether_aggregate_errors_total"@,
        "Aggregate queries that returned an error."@,
        c.aggregate_errors,
    )
        + "# HELP aether_query_latency_ms Search latency in milliseconds.\n# TYPE aether_query_latency_ms histogram\n"@
        + bucket_text(c.latency_buckets, LATENCY_BUCKETS as nat)
        + "aether_query_latency_ms_bucket{le=\"+Inf\"} "@ + decimal_of(c.queries as nat)
        + "\naether_query_latency_ms_sum "@ + decimal_of(c.latency_ms_sum as nat)
        + "\naether_query_latency_ms_count "@ + decimal_of(c.queries as nat) + "\n"@ + gauge_text(
        "aether_cluster_leaders"@,
        "Shard leaders currently registered."@,
        leaders,
    ) + gauge_text("aether_cluster_shards"@, "Configured shard count."@, shards)
}

fn append_metric(out: &mut String, name: &str, help: &str, kind: &str, value: u64)
    ensures
        final(out)@ == old(out)@ + ("# HELP "@ + name@ + " "@ + help@ + "\n# TYPE "@ + name@
            + kind@ + name@ + " "@ + decimal_of(value as nat) + "\n"@),
{
    let mut text = owned("# HELP ");
    text.append(name);
    text.append(" ");
    text.append(help);
    text.append("\n# TYPE ");
    text.append(name);
    text.append(kind);
    text.append(name);
    text.append(" ");
    text.append(decimal(value).as_str());
    text.append("\n");
    out.append(text.as_str());
}

impl Metrics {
    /// Whether the histogram has its buckets.
    pub closed spec fn well_formed(self) -> bool {
        self.latency_buckets@.len() == LATENCY_BUCKETS
    }

    /// Counters at zero.
    pub fn new() -> (metrics: Self)
        ensures
            metrics.well_formed(),
            metrics@ == (Counters {
                queries: 0,
                query_errors: 0,
                aggregates: 0,
                aggregate_errors: 0,
                latency_ms_sum: 0,
                latency_buckets: Seq::new(LATENCY_BUCKETS as nat, |i: int| 0u64),
            }),
    {
        Metrics::default()
    }

    /// Record one completed search: its latency, and an error if it failed.
    pub fn record_query(&mut self, elapsed_ms: u128, ok: bool)
        requires
            old(self).well_formed(),
        ensures
            final(self).well_formed(),
            final(self)@ == after_query(
                old(self)@,
                (elapsed_ms % 0x1_0000_0000_0000_0000) as u64,
                ok,
            ),
    {
        self.queries_total = self.queries_total.wrapping_add(1);
        if !ok {
            self.query_errors_total = self.query_errors_total.wrapping_add(1);
        }
        let ms: u64 = (elapsed_ms % 0x1_0000_0000_0000_0000) as u64;
        self.query_latency_ms_sum = self.query_latency_ms_sum.wrapping_add(ms);
        let ghost start = self.latency_buckets@;
        let mut i: usize = 0;
        while i < LATENCY_BUCKETS
            invariant
                i <= LATENCY_BUCKETS,
                start.len() == LATENCY_BUCKETS,
                self.latency_buckets@.len() == LATENCY_BUCKETS,
                self.queries_total == bumped(old(self).queries_total, 1),
                self.query_errors_total == if ok {
                    old(self).query_errors_total
                } else {
                    bumped(old(self).query_errors_total, 1)
                },
                self.aggregates_total == old(self).aggregates_total,
                self.aggregate_errors_total == old(self).aggregate_errors_total,
                self.query_latency_ms_sum == bumped(old(self).query_latency_ms_sum, ms),
                forall|j: int|
                    0 <= j < i ==> #[trigger] self.latency_buckets@[j] == with_latency(start, ms)[j],
                forall|j: int|
                    i <= j < LATENCY_BUCKETS ==> #[trigger] self.latency_buckets@[j] == start[j],
            decreases LATENCY_BUCKETS - i,
        {
            if ms <= latency_bound(i) {
                let count: u64 = self.latency_buckets[i];
                self.latency_buckets.set(i, count.wrapping_add(1));
            }
            i = i + 1;
        }
        assert(self.latency_buckets@ =~= with_latency(start, ms));
    }

    /// Record one completed aggregation.
    pub fn record_aggregate(&mut self, ok: bool)
        ensures
            old(self).well_formed() ==> final(self).well_formed(),
            final(self)@ == after_aggregate(old(self)@, ok),
    {
        self.aggregates_total = self.aggregates_total.wrapping_add(1);
        if !ok {
            self.aggregate_errors_total = self.aggregate_errors_total.wrapping_add(1);
        }
    }

    /// Render the current values as a Prometheus text exposition, with the number of registered
    /// leaders and of configured shards.
    pub fn render(&self, leaders: usize, shards: u32) -> (text: String)
        requires
            self.well_formed(),
        ensures
            text@ == exposition(self@, leaders as nat, shards as nat),
    {
        let mut out = String::new();
        append_metric(
            &mut out,
            "aether_queries_total",
            "Search queries handled by the coordinator.",
            " counter\n",
            self.queries_total,
        );
        append_metric(
            &mut out,
            "aether_query_errors_total",
            "Search queries that returned an error.",
            " counter\n",
            self.query_errors_total,
        );
        append_metric(
            &mut out,
            "aether_aggregates_total",
            "Aggregate queries handled.",
            " counter\n",
            self.aggregates_total,
        );
        append_metric(
            &mut out,
            "aether_aggregate_errors_total",
            "Aggregate queries that returned an error.",
            " counter\n",
            self.aggregate_errors_total,
        );
        out.append(
            "# HELP aether_query_latency_ms Search latency in milliseconds.\n# TYPE aether_query_latency_ms histogram\n",
        );
        out.append(self.bucket_lines().as_str());
        out.append("aether_query_latency_ms_bucket{le=\"+Inf\"} ");
        out.append(decimal(self.queries_total).as_str());
        out.append("\naether_query_latency_ms_sum ");
        out.append(decimal(self.query_latency_ms_sum).as_str());
        out.append("\naether_query_latency_ms_count ");
        out.append(decimal(self.queries_total).as_str());
        out.append("\n");
        append_metric(
            &mut out,
            "aether_cluster_leaders",
            "Shard leaders currently registered.",
            " gauge\n",
            leaders as u64,
        );
        append_metric(
            &mut out,
            "aether_cluster_shards",
            "Configured shard count.",
            " gauge\n",
            shards as u64,
        );
        assert(out@ =~= exposition(self@, leaders as nat, shards as nat));
        out
    }

    fn bucket_lines(&self) -> (text: String)
        requires
            self.well_formed(),
        ensures
            text@ == bucket_text(self@.latency_buckets, LATENCY_BUCKETS as nat),
    {
        let mut out = String::new();
        let mut i: usize = 0;
        assert(out@ =~= bucket_text(self.latency_buckets@, 0));
        while i < LATENCY_BUCKETS
            invariant
                i <= LATENCY_BUCKETS,
                self.latency_buckets@.len() == LATENCY_BUCKETS,
                out@ == bucket_text(self.latency_buckets@, i as nat),
            decreases LATENCY_BUCKETS - i,
        {
            let mut line = owned("aether_query_latency_ms_bucket{le=\"");
            line.append(decimal(latency_bound(i)).as_str());
            line.append("\"} ");
            line.append(decimal(self.latency_buckets[i]).as_str());
            line.append("\n");
            out.append(line.as_str());
            i = i + 1;
        }
        out
    }
}

/// The HTTP response that carries an exposition.
pub open spec fn response_text(body: Seq<char>) -> Seq<char> {
    "HTTP/1.1 200 OK\r\nContent-Type: text/plain; version=0.0.4\r\nContent-Length: "@ + decimal_of(
        encode_utf8(body).len(),
    ) + "\r\nConnection: close\r\n\r\n"@ + body
}

/// The HTTP response that carries an exposition: its length is counted in bytes, and the
/// connection closes after it.
pub fn http_response(body: &str) -> (response: String)
    ensures
        response@ == response_text(body@),
{
    let size: usize = body.as_bytes().len();
    let mut response = owned(
        "HTTP/1.1 200 OK\r\nContent-Type: text/plain; version=0.0.4\r\nContent-Length: ",
    );
    response.append(decimal(size as u64).as_str());
    response.append("\r\nConnection: close\r\n\r\n");
    response.append(body);
    response
}

/// Whether the histogram is cumulative: a wider bucket counts no less than a narrower one, and
/// none counts more than there were queries.
pub open spec fn cumulative(c: Counters) -> bool {
    &&& c.latency_buckets.len() == LATENCY_BUCKETS
    &&& forall|i: int, j: int|
        #![trigger c.latency_buckets[i], c.latency_buckets[j]]
        0 <= i <= j < LATENCY_BUCKETS ==> c.latency_buckets[i] <= c.latency_buckets[j]
    &&& forall|i: int|
        0 <= i < LATENCY_BUCKETS ==> #[trigger] c.latency_buckets[i] <= c.queries
}

/// The latency histogram stays cumulative, as long as the query counter has not run through its
/// whole range.
pub proof fn law_histogram_is_cumulative(c: Counters, ms: u64, ok: bool)
    requires
        cumulative(c),
        c.queries < u64::MAX,
    ensures
        cumulative(after_query(c, ms, ok)),
{
    let next = after_query(c, ms, ok);
    assert forall|i: int, j: int|
        #![trigger next.latency_buckets[i], next.latency_buckets[j]]
        0 <= i <= j < LATENCY_BUCKETS implies next.latency_buckets[i]
        <= next.latency_buckets[j] by {
        assert(c.latency_buckets[i] <= c.latency_buckets[j]);
        assert(c.latency_buckets[j] <= c.queries);
        assert(bound_ms(i) <= bound_ms(j));
    }
    assert forall|i: int| 0 <= i < LATENCY_BUCKETS implies #[trigger] next.latency_buckets[i]
        <= next.queries by {
        assert(c.latency_buckets[i] <= c.queries);
    }
}

/// Errors never outnumber queries, as long as the query counter has not run through its whole
/// range.
pub proof fn law_errors_are_queries(c: Counters, ms: u64, ok: bool)
    requires
        c.query_errors <= c.queries,
        c.queries < u64::MAX,
    ensures
        after_query(c, ms, ok).query_errors <= after_query(c, ms, ok).queries,
{
}

/// A query of `ms` milliseconds is counted once, in the total, in the sum of the latencies, and in
/// each bucket whose bound it does not exceed (1, 5, 10, 50, 100 and 500 milliseconds); a failed
/// one also among the errors. The aggregates are not touched.
pub proof fn law_a_query_is_counted_once(c: Counters, ms: u64, ok: bool, i: int)
    requires
        c.latency_buckets.len() == 6,
        c.queries < u64::MAX,
        c.query_errors < u64::MAX,
        c.latency_ms_sum + ms <= u64::MAX,
        0 <= i < 6,
        c.latency_buckets[i] < u64::MAX,
    ensures
        ({
            let after = after_query(c, ms, ok);
            let bound = seq![1int, 5, 10, 50, 100, 500][i];
            &&& after.queries == c.queries + 1
            &&& ok ==> after.query_errors == c.query_errors
            &&& !ok ==> after.query_errors == c.query_errors + 1
            &&& after.latency_ms_sum == c.latency_ms_sum + ms
            &&& after.latency_buckets.len() == 6
            &&& ms <= bound ==> after.latency_buckets[i] == c.latency_buckets[i] + 1
            &&& ms > bound ==> after.latency_buckets[i] == c.latency_buckets[i]
            &&& after.aggregates == c.aggregates
            &&& after.aggregate_errors == c.aggregate_errors
        }),
{
    let bounds = seq![1int, 5, 10, 50, 100, 500];
    assert(bounds[0] == 1 && bounds[1] == 5 && bounds[2] == 10);
    assert(bounds[3] == 50 && bounds[4] == 100 && bounds[5] == 500);
}

/// An aggregate is counted once, a failed one also among its errors, and nothing of the queries
/// is touched.
pub proof fn law_an_aggregate_is_counted_once(c: Counters, ok: bool)
    requires
        c.aggregates < u64::MAX,
        c.aggregate_errors < u64::MAX,
    ensures
        ({
            let after = after_aggregate(c, ok);
            &&& after.aggregates == c.aggregates + 1
            &&& ok ==> after.aggregate_errors == c.aggregate_errors
            &&& !ok ==> after.aggregate_errors == c.aggregate_errors + 1
            &&& after.queries == c.queries
            &&& after.query_errors == c.query_errors
            &&& after.latency_ms_sum == c.latency_ms_sum
            &&& after.latency_buckets == c.latency_buckets
        }),
{
}

/// Whether a text holds a line.
pub open spec fn tells(text: Seq<char>, line: Seq<char>) -> bool {
    exists|before: Seq<char>, after: Seq<char>| text == #[trigger] (before + line + after)
}

proof fn lemma_tells_more(a: Seq<char>, b: Seq<char>, line: Seq<char>)
    ensures
        tells(a, line) ==> tells(a + b, line),
        tells(b, line) ==> tells(a + b, line),
{
    if tells(a, line) {
        let (x, y) = choose|x: Seq<char>, y: Seq<char>| a == #[trigger] (x + line + y);
        assert(a + b =~= x + line + (y + b));
    }
    if tells(b, line) {
        let (x, y) = choose|x: Seq<char>, y: Seq<char>| b == #[trigger] (x + line + y);
        assert(a + b =~= (a + x) + line + y);
    }
}

proof fn lemma_value_told(name: Seq<char>, help: Seq<char>, value: u64)
    ensures
        tells(counter_text(name, help, value), name + " "@ + decimal_of(value as nat) + "\n"@),
{
    let head = "# HELP "@ + name + " "@ + help + "\n# TYPE "@ + name + " counter\n"@;
    let line = name + " "@ + decimal_of(value as nat) + "\n"@;
    assert(counter_text(name, help, value) =~= head + line + Seq::<char>::empty());
    assert(tells(counter_text(name, help, value), line));
}

/// The counters at the head of the exposition.
spec fn counter_lines(c: Counters) -> Seq<char> {
    counter_text(
        "aether_queries_total"@,
        "Search queries handled by the coordinator."@,
        c.queries,
    ) + counter_text(
        "aether_query_errors_total"@,
        "Search queries that returned an error."@,
        c.query_errors,
    ) + counter_text("aether_aggregates_total"@, "Aggregate queries handled."@, c.aggregates)
        + counter_text(
        "aether_aggregate_errors_total"@,
        "Aggregate queries that returned an error."@,
        c.aggregate_errors,
    )
}

proof fn lemma_exposition_tells(c: Counters, leaders: nat, shards: nat, line: Seq<char>)
    requires
        tells(counter_lines(c), line),
    ensures
        tells(exposition(c, leaders, shards), line),
{
    let t0 = counter_lines(c);
    let p1 = "# HELP aether_query_latency_ms Search latency in milliseconds.\n# TYPE aether_query_latency_ms histogram\n"@;
    let p2 = bucket_text(c.latency_buckets, LATENCY_BUCKETS as nat);
    let p3 = "aether_query_latency_ms_bucket{le=\"+Inf\"} "@;
    let p4 = decimal_of(c.queries as nat);
    let p5 = "\naether_query_latency_ms_sum "@;
    let p6 = decimal_of(c.latency_ms_sum as nat);
    let p7 = "\naether_query_latency_ms_count "@;
    let p8 = "\n"@;
    let p9 = gauge_text(
        "aether_cluster_leaders"@,
        "Shard leaders currently registered."@,
        leaders,
    );
    let p10 = gauge_text("aether_cluster_shards"@, "Configured shard count."@, shards);
    lemma_tells_more(t0, p1, line);
    lemma_tells_more(t0 + p1, p2, line);
    lemma_tells_more(t0 + p1 + p2, p3, line);
    lemma_tells_more(t0 + p1 + p2 + p3, p4, line);
    lemma_tells_more(t0 + p1 + p2 + p3 + p4, p5, line);
    lemma_tells_more(t0 + p1 + p2 + p3 + p4 + p5, p6, line);
    lemma_tells_more(t0 + p1 + p2 + p3 + p4 + p5 + p6, p7, line);
    lemma_tells_more(t0 + p1 + p2 + p3 + p4 + p5 + p6 + p7, p4, line);
    lemma_tells_more(t0 + p1 + p2 + p3 + p4 + p5 + p6 + p7 + p4, p8, line);
    lemma_tells_more(t0 + p1 + p2 + p3 + p4 + p5 + p6 + p7 + p4 + p8, p9, line);
    lemma_tells_more(t0 + p1 + p2 + p3 + p4 + p5 + p6 + p7 + p4 + p8 + p9, p10, line);
}

/// The exposition tells every counter under its own name.
pub proof fn law_counters_are_told_under_their_names(c: Counters, leaders: nat, shards: nat)
    ensures
        tells(
            exposition(c, leaders, shards),
            "aether_queries_total"@ + " "@ + decimal_of(c.queries as nat) + "\n"@,
        ),
        tells(
            exposition(c, leaders, shards),
            "aether_query_errors_total"@ + " "@ + decimal_of(c.query_errors as nat) + "\n"@,
        ),
        tells(
            exposition(c, leaders, shards),
            "aether_aggregates_total"@ + " "@ + decimal_of(c.aggregates as nat) + "\n"@,
        ),
        tells(
            exposition(c, leaders, shards),
            "aether_aggregate_errors_total"@ + " "@ + decimal_of(c.aggregate_errors as nat)
                + "\n"@,
        ),
{
    lemma_line_told(
        c,
        leaders,
        shards,
        "aether_queries_total"@,
        "Search queries handled by the coordinator."@,
        c.queries,
    );
    lemma_line_told(
        c,
        leaders,
        shards,
        "aether_query_errors_total"@,
        "Search queries that returned an error."@,
        c.query_errors,
    );
    lemma_line_told(
        c,
        leaders,
        shards,
        "aether_aggregates_total"@,
        "Aggregate queries handled."@,
        c.aggregates,
    );
    lemma_line_told(
        c,
        leaders,
        shards,
        "aether_aggregate_errors_total"@,
        "Aggregate queries that returned an error."@,
        c.aggregate_errors,
    );
}

proof fn lemma_line_told(
    c: Counters,
    leaders: nat,
    shards: nat,
    name: Seq<char>,
    help: Seq<char>,
    value: u64,
)
    requires
        (name == "aether_queries_total"@ && help == "Search queries handled by the coordinator."@
            && value == c.queries) || (name == "aether_query_errors_total"@ && help
            == "Search queries that returned an error."@ && value == c.query_errors) || (name
            == "aether_aggregates_total"@ && help == "Aggregate queries handled."@ && value
            == c.aggregates) || (name == "aether_aggregate_errors_total"@ && help
            == "Aggregate queries that returned an error."@ && value == c.aggregate_errors),
    ensures
        tells(
            exposition(c, leaders, shards),
            name + " "@ + decimal_of(value as nat) + "\n"@,
        ),
{
    let line = name + " "@ + decimal_of(value as nat) + "\n"@;
    lemma_value_told(name, help, value);
    let q = counter_text(
        "aether_queries_total"@,
        "Search queries handled by the coordinator."@,
        c.queries,
    );
    let e = counter_text(
        "aether_query_errors_total"@,
        "Search queries that returned an error."@,
        c.query_errors,
    );
    let a = counter_text("aether_aggregates_total"@, "Aggregate queries handled."@, c.aggregates);
    let f = counter_text(
        "aether_aggregate_errors_total"@,
        "Aggregate queries that returned an error."@,
        c.aggregate_errors,
    );
    lemma_tells_more(q, e, line);
    lemma_tells_more(q + e, a, line);
    lemma_tells_more(q + e + a, f, line);
    lemma_exposition_tells(c, leaders, shards, line);
}

/// Each bucket of the histogram is told under its bound, and the buckets in the order of their
/// bounds.
pub proof fn law_buckets_are_told_under_their_bounds(buckets: Seq<u64>, n: nat)
    requires
        n < 6,
    ensures
        bucket_text(buckets, 0).len() == 0,
        bucket_text(buckets, n + 1) == bucket_text(buckets, n) + (
        "aether_query_latency_ms_bucket{le=\""@ + decimal_of(
            seq![1nat, 5, 10, 50, 100, 500][n as int],
        ) + "\"} "@ + decimal_of(buckets[n as int] as nat) + "\n"@),
{
    let bounds = seq![1nat, 5, 10, 50, 100, 500];
    assert(bounds[0] == 1 && bounds[1] == 5 && bounds[2] == 10);
    assert(bounds[3] == 50 && bounds[4] == 100 && bounds[5] == 500);
}

/// Counters go round after the largest number, and lose nothing but whole rounds.
pub proof fn law_counters_go_round(counter: u64, by: u64)
    ensures
        counter + by <= u64::MAX ==> bumped(counter, by) == counter + by,
        counter + by > u64::MAX ==> bumped(counter, by) == counter + by - u64::MAX - 1,
{
}

/// A response announces the length of its body in bytes, and ends with the body.
pub proof fn law_a_response_announces_its_length(body: Seq<char>)
    ensures
        tells(
            response_text(body),
            "Content-Length: "@ + decimal_of(encode_utf8(body).len()) + "\r\n"@,
        ),
        exists|head: Seq<char>| response_text(body) == #[trigger] (head + body),
{
    reveal_strlit("HTTP/1.1 200 OK\r\nContent-Type: text/plain; version=0.0.4\r\nContent-Length: ");
    reveal_strlit("Content-Length: ");
    reveal_strlit("\r\nConnection: close\r\n\r\n");
    reveal_strlit("\r\n");
    let start = "HTTP/1.1 200 OK\r\nContent-Type: text/plain; version=0.0.4\r\nContent-Length: "@;
    let end = "\r\nConnection: close\r\n\r\n"@;
    let size = decimal_of(encode_utf8(body).len());
    let line = "Content-Length: "@ + size + "\r\n"@;
    let cut = start.len() - "Content-Length: "@.len();
    assert(start =~= start.take(cut) + "Content-Length: "@);
    assert(end =~= "\r\n"@ + end.skip(2));
    assert(response_text(body) =~= start.take(cut) + line + (end.skip(2) + body));
    assert(response_text(body) == start + size + end + body);
}

} // verus!
