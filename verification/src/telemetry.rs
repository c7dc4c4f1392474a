//! Append-only telemetry log and its on-demand grouped aggregation.
//!
//! The log owns every recorded event; events are immutable and are never
//! updated or deleted. Aggregation is recomputed from the raw log on every
//! query, grouped by endpoint in order of first occurrence: one row per
//! distinct endpoint ever recorded, with its event count and the sums of its
//! payload sizes and runtimes.
use vstd::prelude::*;

verus! {

/// One telemetry event: which endpoint was hit, how many payload bytes it
/// carried, and how long the request had been running when it was recorded.
pub struct RawEvent {
    pub endpoint: String,
    pub payload_size: u64,
    pub runtime_us: u64,
}

/// Mathematical image of a `RawEvent`: the endpoint as a character sequence.
pub ghost struct EventView {
    pub endpoint: Seq<char>,
    pub payload_size: u64,
    pub runtime_us: u64,
}

impl View for RawEvent {
    type V = EventView;

    open spec fn view(&self) -> EventView {
        EventView {
            endpoint: self.endpoint@,
            payload_size: self.payload_size,
            runtime_us: self.runtime_us,
        }
    }
}

/// One aggregate row, derived at query time and never stored: the number of
/// events recorded for an endpoint and the sums of their sizes and runtimes.
pub struct AggregateRow {
    pub endpoint: String,
    pub count: u64,
    pub total_bytes: u128,
    pub total_runtime_us: u128,
}

/// How many events of the log belong to this endpoint.
pub open spec fn count_for(log: Seq<EventView>, endpoint: Seq<char>) -> nat
    decreases log.len(),
{
    if log.len() == 0 {
        0
    } else {
        count_for(log.drop_last(), endpoint) + if log.last().endpoint == endpoint {
            1nat
        } else {
            0nat
        }
    }
}

/// The sum of the payload sizes of this endpoint's events.
pub open spec fn total_bytes_for(log: Seq<EventView>, endpoint: Seq<char>) -> nat
    decreases log.len(),
{
    if log.len() == 0 {
        0
    } else {
        total_bytes_for(log.drop_last(), endpoint) + if log.last().endpoint == endpoint {
            log.last().payload_size as nat
        } else {
            0nat
        }
    }
}

/// The sum of the runtimes of this endpoint's events.
pub open spec fn total_runtime_for(log: Seq<EventView>, endpoint: Seq<char>) -> nat
    decreases log.len(),
{
    if log.len() == 0 {
        0
    } else {
        total_runtime_for(log.drop_last(), endpoint) + if log.last().endpoint == endpoint {
            log.last().runtime_us as nat
        } else {
            0nat
        }
    }
}

/// The distinct endpoints of the log, each once, in order of first
/// occurrence.
pub open spec fn endpoints_in_order(log: Seq<EventView>) -> Seq<Seq<char>>
    decreases log.len(),
{
    if log.len() == 0 {
        Seq::empty()
    } else {
        let prefix = endpoints_in_order(log.drop_last());
        if prefix.contains(log.last().endpoint) {
            prefix
        } else {
            prefix.push(log.last().endpoint)
        }
    }
}

/// What one aggregate row owes to the log: it names this endpoint and holds
/// its exact count and sums.
pub open spec fn row_ok(log: Seq<EventView>, row: AggregateRow, endpoint: Seq<char>) -> bool {
    &&& row.endpoint@ == endpoint
    &&& row.count as nat == count_for(log, endpoint)
    &&& row.total_bytes as nat == total_bytes_for(log, endpoint)
    &&& row.total_runtime_us as nat == total_runtime_for(log, endpoint)
}

/// What a full aggregate owes to the log: one row per distinct endpoint, in
/// order of first occurrence, each exact.
pub open spec fn rows_match(log: Seq<EventView>, rows: Seq<AggregateRow>) -> bool {
    &&& rows.len() == endpoints_in_order(log).len()
    &&& forall|k: int|
        0 <= k < rows.len() ==> #[trigger] row_ok(log, rows[k], endpoints_in_order(log)[k])
}

/// Appending one event extends each per-endpoint tally by exactly that
/// event's contribution, and extends the endpoint list only when the
/// endpoint is new.
pub proof fn lemma_log_push(log: Seq<EventView>, ev: EventView)
    ensures
        forall|e: Seq<char>| #[trigger]
            count_for(log.push(ev), e) == count_for(log, e) + if ev.endpoint == e {
                1nat
            } else {
                0nat
            },
        forall|e: Seq<char>| #[trigger]
            total_bytes_for(log.push(ev), e) == total_bytes_for(log, e) + if ev.endpoint == e {
                ev.payload_size as nat
            } else {
                0nat
            },
        forall|e: Seq<char>| #[trigger]
            total_runtime_for(log.push(ev), e) == total_runtime_for(log, e) + if ev.endpoint
                == e {
                ev.runtime_us as nat
            } else {
                0nat
            },
        endpoints_in_order(log.push(ev)) == if endpoints_in_order(log).contains(ev.endpoint) {
            endpoints_in_order(log)
        } else {
            endpoints_in_order(log).push(ev.endpoint)
        },
{
    assert(log.push(ev).drop_last() =~= log);
    assert(log.push(ev).last() == ev);
}

/// An endpoint's count never exceeds the length of the log, and each sum
/// never exceeds the count times the largest possible event value.
pub proof fn lemma_tally_bounds(log: Seq<EventView>, endpoint: Seq<char>)
    ensures
        count_for(log, endpoint) <= log.len(),
        total_bytes_for(log, endpoint) <= count_for(log, endpoint) * (u64::MAX as nat),
        total_runtime_for(log, endpoint) <= count_for(log, endpoint) * (u64::MAX as nat),
    decreases log.len(),
{
    if log.len() > 0 {
        lemma_tally_bounds(log.drop_last(), endpoint);
        let c = count_for(log.drop_last(), endpoint);
        assert((c + 1) * (u64::MAX as nat) == c * (u64::MAX as nat) + (u64::MAX as nat))
            by (nonlinear_arith);
    }
}

/// The aggregate covers exactly the endpoints that have at least one event:
/// an endpoint appears in the grouping if and only if something was recorded
/// for it.
pub proof fn lemma_endpoints_cover(log: Seq<EventView>, endpoint: Seq<char>)
    ensures
        endpoints_in_order(log).contains(endpoint) <==> count_for(log, endpoint) > 0,
    decreases log.len(),
{
    if log.len() > 0 {
        lemma_endpoints_cover(log.drop_last(), endpoint);
        let prefix = endpoints_in_order(log.drop_last());
        if log.last().endpoint == endpoint {
            if !prefix.contains(endpoint) {
                assert(prefix.push(endpoint)[prefix.len() as int] == endpoint);
            }
        } else {
            if prefix.contains(endpoint) {
                let i = choose|i: int| 0 <= i < prefix.len() && prefix[i] == endpoint;
                if !prefix.contains(log.last().endpoint) {
                    assert(prefix.push(log.last().endpoint)[i] == endpoint);
                }
            } else {
                if !prefix.contains(log.last().endpoint) {
                    assert(endpoints_in_order(log) =~= prefix.push(log.last().endpoint));
                    if endpoints_in_order(log).contains(endpoint) {
                        let i = choose|i: int|
                            0 <= i < endpoints_in_order(log).len() && endpoints_in_order(log)[i]
                                == endpoint;
                        assert(prefix[i] == endpoint);
                    }
                }
            }
        }
    }
}

/// The grouping lists each endpoint at most once: the aggregate has exactly
/// one row per recorded endpoint.
pub proof fn lemma_endpoints_distinct(log: Seq<EventView>)
    ensures
        forall|a: int, b: int|
            0 <= a < b < endpoints_in_order(log).len() ==> endpoints_in_order(log)[a]
                != endpoints_in_order(log)[b],
    decreases log.len(),
{
    if log.len() > 0 {
        lemma_endpoints_distinct(log.drop_last());
        let prefix = endpoints_in_order(log.drop_last());
        if !prefix.contains(log.last().endpoint) {
            assert forall|a: int, b: int|
                0 <= a < b < endpoints_in_order(log).len() implies endpoints_in_order(log)[a]
                != endpoints_in_order(log)[b] by {
                if b < prefix.len() {
                } else {
                    assert(!prefix.contains(prefix.push(log.last().endpoint)[b]));
                }
            }
        }
    }
}

/// An aggregate that matches the log holds exactly one row for every
/// endpoint with at least one event, carrying that endpoint's exact tallies;
/// no two rows name the same endpoint; and an endpoint with no events has no
/// row at all.
pub proof fn lemma_one_row_per_endpoint(
    log: Seq<EventView>,
    rows: Seq<AggregateRow>,
    endpoint: Seq<char>,
)
    requires
        rows_match(log, rows),
    ensures
        count_for(log, endpoint) > 0 ==> exists|k: int|
            0 <= k < rows.len() && #[trigger] row_ok(log, rows[k], endpoint),
        forall|a: int, b: int|
            0 <= a < b < rows.len() ==> rows[a].endpoint@ != rows[b].endpoint@,
        count_for(log, endpoint) == 0 ==> forall|k: int|
            0 <= k < rows.len() ==> (#[trigger] rows[k]).endpoint@ != endpoint,
{
    let groups = endpoints_in_order(log);
    lemma_endpoints_cover(log, endpoint);
    lemma_endpoints_distinct(log);
    if count_for(log, endpoint) > 0 {
        let k = choose|k: int| 0 <= k < groups.len() && groups[k] == endpoint;
        assert(row_ok(log, rows[k], groups[k]));
    }
    assert forall|a: int, b: int| 0 <= a < b < rows.len() implies rows[a].endpoint@
        != rows[b].endpoint@ by {
        assert(row_ok(log, rows[a], groups[a]));
        assert(row_ok(log, rows[b], groups[b]));
    }
    if count_for(log, endpoint) == 0 {
        assert forall|k: int| 0 <= k < rows.len() implies (#[trigger] rows[k]).endpoint@
            != endpoint by {
            assert(row_ok(log, rows[k], groups[k]));
            if rows[k].endpoint@ == endpoint {
                assert(groups.contains(endpoint));
            }
        }
    }
}

/// The sum of a sequence of sizes or runtimes.
pub open spec fn sum_u64(values: Seq<u64>) -> nat
    decreases values.len(),
{
    if values.len() == 0 {
        0
    } else {
        sum_u64(values.drop_last()) + values.last() as nat
    }
}

/// The log as it stands after one `record` call per entry of `sizes` and
/// `runs`, all for the same endpoint, appended in order to `log`.
pub open spec fn with_recorded(
    log: Seq<EventView>,
    endpoint: Seq<char>,
    sizes: Seq<u64>,
    runs: Seq<u64>,
) -> Seq<EventView>
    decreases sizes.len(),
{
    if sizes.len() == 0 || runs.len() == 0 {
        log
    } else {
        with_recorded(log, endpoint, sizes.drop_last(), runs.drop_last()).push(
            EventView {
                endpoint: endpoint,
                payload_size: sizes.last(),
                runtime_us: runs.last(),
            },
        )
    }
}

/// An endpoint with no events contributes nothing to any sum.
pub proof fn lemma_zero_count_zero_sums(log: Seq<EventView>, endpoint: Seq<char>)
    requires
        count_for(log, endpoint) == 0,
    ensures
        total_bytes_for(log, endpoint) == 0,
        total_runtime_for(log, endpoint) == 0,
    decreases log.len(),
{
    if log.len() > 0 {
        lemma_zero_count_zero_sums(log.drop_last(), endpoint);
    }
}

/// Recording a run of events for one endpoint raises that endpoint's tallies
/// by exactly their number and their sums, and no other endpoint's tallies
/// at all.
pub proof fn lemma_recorded_tallies(
    log: Seq<EventView>,
    endpoint: Seq<char>,
    sizes: Seq<u64>,
    runs: Seq<u64>,
    other: Seq<char>,
)
    requires
        sizes.len() == runs.len(),
        other != endpoint,
    ensures
        count_for(with_recorded(log, endpoint, sizes, runs), endpoint) == count_for(log, endpoint)
            + sizes.len(),
        total_bytes_for(with_recorded(log, endpoint, sizes, runs), endpoint) == total_bytes_for(
            log,
            endpoint,
        ) + sum_u64(sizes),
        total_runtime_for(with_recorded(log, endpoint, sizes, runs), endpoint)
            == total_runtime_for(log, endpoint) + sum_u64(runs),
        count_for(with_recorded(log, endpoint, sizes, runs), other) == count_for(log, other),
        total_bytes_for(with_recorded(log, endpoint, sizes, runs), other) == total_bytes_for(
            log,
            other,
        ),
        total_runtime_for(with_recorded(log, endpoint, sizes, runs), other) == total_runtime_for(
            log,
            other,
        ),
    decreases sizes.len(),
{
    if sizes.len() > 0 {
        lemma_recorded_tallies(log, endpoint, sizes.drop_last(), runs.drop_last(), other);
        lemma_log_push(
            with_recorded(log, endpoint, sizes.drop_last(), runs.drop_last()),
            EventView { endpoint: endpoint, payload_size: sizes.last(), runtime_us: runs.last() },
        );
    }
}

/// After a run of `record` calls for one endpoint that had no earlier
/// events, any aggregate of the resulting log holds exactly one row for that
/// endpoint, whose count is the number of calls and whose totals are the
/// sums of the recorded sizes and runtimes.
pub proof fn lemma_query_after_records(
    log: Seq<EventView>,
    endpoint: Seq<char>,
    sizes: Seq<u64>,
    runs: Seq<u64>,
    rows: Seq<AggregateRow>,
)
    requires
        sizes.len() == runs.len(),
        sizes.len() > 0,
        count_for(log, endpoint) == 0,
        rows_match(with_recorded(log, endpoint, sizes, runs), rows),
    ensures
        exists|k: int|
            0 <= k < rows.len() && (#[trigger] rows[k]).endpoint@ == endpoint && rows[k].count
                as nat == sizes.len() && rows[k].total_bytes as nat == sum_u64(sizes)
                && rows[k].total_runtime_us as nat == sum_u64(runs),
{
    let full = with_recorded(log, endpoint, sizes, runs);
    assert(endpoint.push(' ').len() != endpoint.len());
    lemma_recorded_tallies(log, endpoint, sizes, runs, endpoint.push(' '));
    lemma_zero_count_zero_sums(log, endpoint);
    lemma_endpoints_cover(full, endpoint);
    let groups = endpoints_in_order(full);
    let k = choose|k: int| 0 <= k < groups.len() && groups[k] == endpoint;
    assert(row_ok(full, rows[k], groups[k]));
    assert(rows[k].endpoint@ == endpoint);
}

/// The append-only event log. Its view is the sequence of recorded events,
/// oldest first.
pub struct TelemetryLog {
    events: Vec<RawEvent>,
}

impl View for TelemetryLog {
    type V = Seq<EventView>;

    closed spec fn view(&self) -> Seq<EventView> {
        self.events@.map_values(|e: RawEvent| e@)
    }
}

impl TelemetryLog {
    /// An empty log: no events have been recorded yet.
    pub fn new() -> (log: Self)
        ensures
            log@ == Seq::<EventView>::empty(),
    {
        let log = TelemetryLog { events: Vec::new() };
        proof {
            assert(log@ =~= Seq::<EventView>::empty());
        }
        log
    }

    /// Appends one event to the log. Nothing else changes: the log is
    /// append-only.
    pub fn record(&mut self, endpoint: String, payload_size: u64, runtime_us: u64)
        ensures
            final(self)@ == old(self)@.push(
                EventView { endpoint: endpoint@, payload_size: payload_size, runtime_us: runtime_us },
            ),
    {
        let ghost ev = EventView { endpoint: endpoint@, payload_size: payload_size, runtime_us: runtime_us };
        self.events.push(RawEvent { endpoint, payload_size, runtime_us });
        proof {
            assert(self@ =~= old(self)@.push(ev));
        }
    }

    /// Computes the full grouped aggregate from the current log: one exact
    /// row per distinct endpoint recorded so far, in order of first
    /// occurrence.
    pub fn query(&self) -> (rows: Vec<AggregateRow>)
        ensures
            rows_match(self@, rows@),
    {
        let mut rows: Vec<AggregateRow> = Vec::new();
        let mut i: usize = 0;
        proof {
            assert(self@.take(0) =~= Seq::<EventView>::empty());
        }
        while i < self.events.len()
            invariant
                i <= self.events.len(),
                i <= self@.len(),
                self@.len() == self.events@.len(),
                rows_match(self@.take(i as int), rows@),
            decreases self.events.len() - i,
        {
            let ghost done = self@.take(i as int);
            let ghost groups = endpoints_in_order(done);
            let ev = &self.events[i];
            proof {
                assert(self@[i as int] == self.events@[i as int]@);
                lemma_endpoints_distinct(done);
                lemma_endpoints_cover(done, ev.endpoint@);
                lemma_log_push(done, ev@);
                assert(self@.take(i + 1) =~= done.push(ev@));
            }
            let mut idx: usize = 0;
            while idx < rows.len() && !(rows[idx].endpoint == ev.endpoint)
                invariant
                    idx <= rows.len(),
                    forall|k: int| 0 <= k < idx ==> rows@[k].endpoint@ != ev.endpoint@,
                    rows_match(done, rows@),
                decreases rows.len() - idx,
            {
                idx = idx + 1;
            }
            if idx < rows.len() {
                proof {
                    assert(row_ok(done, rows@[idx as int], groups[idx as int]));
                    lemma_tally_bounds(done, ev.endpoint@);
                }
                let endpoint = rows[idx].endpoint.clone();
                let count = rows[idx].count;
                let total_bytes = rows[idx].total_bytes;
                let total_runtime_us = rows[idx].total_runtime_us;
                rows[idx] = AggregateRow {
                    endpoint,
                    count: count + 1,
                    total_bytes: total_bytes + ev.payload_size as u128,
                    total_runtime_us: total_runtime_us + ev.runtime_us as u128,
                };
                proof {
                    assert(groups.contains(ev.endpoint@)) by {
                        assert(groups[idx as int] == ev.endpoint@);
                    }
                    assert(endpoints_in_order(done.push(ev@)) == groups);
                    assert forall|k: int| 0 <= k < rows@.len() implies #[trigger] row_ok(
                        done.push(ev@),
                        rows@[k],
                        groups[k],
                    ) by {
                        if k != idx as int {
                            assert(row_ok(done, rows@[k], groups[k]));
                            assert(groups[k] != ev.endpoint@);
                        }
                    }
                }
            } else {
                proof {
                    lemma_tally_bounds(done, ev.endpoint@);
                    assert(!groups.contains(ev.endpoint@)) by {
                        if groups.contains(ev.endpoint@) {
                            let a = choose|a: int|
                                0 <= a < groups.len() && groups[a] == ev.endpoint@;
                            assert(row_ok(done, rows@[a], groups[a]));
                        }
                    }
                    assert(count_for(done, ev.endpoint@) == 0) by {
                        lemma_endpoints_cover(done, ev.endpoint@);
                    }
                    assert(total_bytes_for(done, ev.endpoint@) == 0);
                    assert(total_runtime_for(done, ev.endpoint@) == 0);
                }
                let endpoint = ev.endpoint.clone();
                rows.push(
                    AggregateRow {
                        endpoint,
                        count: 1,
                        total_bytes: ev.payload_size as u128,
                        total_runtime_us: ev.runtime_us as u128,
                    },
                );
                proof {
                    assert(endpoints_in_order(done.push(ev@)) == groups.push(ev.endpoint@));
                    assert forall|k: int| 0 <= k < rows@.len() implies #[trigger] row_ok(
                        done.push(ev@),
                        rows@[k],
                        endpoints_in_order(done.push(ev@))[k],
                    ) by {
                        if k < groups.len() {
                            assert(row_ok(done, rows@[k], groups[k]));
                            assert(groups[k] != ev.endpoint@) by {
                                assert(groups.contains(groups[k]));
                            }
                            assert(groups.push(ev.endpoint@)[k] == groups[k]);
                        } else {
                            assert(groups.push(ev.endpoint@)[k] == ev.endpoint@);
                        }
                    }
                }
            }
            i = i + 1;
        }
        proof {
            assert(self@.take(self@.len() as int) =~= self@);
        }
        rows
    }
}

} // verus!
