//! A registry of named 64-bit counters, kept in a `dashmap::DashMap`, and
//! the snapshot of the pipeline's counters.

use vstd::prelude::*;
use crate::encoding::{decimal_text, push_decimal_text};

verus! {

/// Declares `dashmap::DashMap` so that the registry can hold one.
#[verifier::external_type_specification]
#[verifier::external_body]
#[verifier::reject_recursive_types(K)]
#[verifier::reject_recursive_types(V)]
#[verifier::reject_recursive_types(S)]
pub struct ExDashMap<K, V, S>(dashmap::DashMap<K, V, S>);

/// Declares `std::time::Instant`, the registry's start time.
#[verifier::external_type_specification]
#[verifier::external_body]
pub struct ExInstant(std::time::Instant);

/// The value of every counter held by a counter map, by counter name.
pub uninterp spec fn counter_contents(map: CounterMap) -> Map<Seq<char>, u64>;

/// The value a counter holds before it is first touched.
pub const COUNTER_START: u64 = 0;

/// `a + b` wrapped around modulo 2^64, as an atomic `fetch_add` computes it.
pub open spec fn wrapped_sum(a: u64, b: u64) -> u64 {
    ((a as nat + b as nat) % 0x1_0000_0000_0000_0000) as u64
}

/// Calls `dashmap::DashMap::new`: the new map holds no counter.
#[verifier::external_body]
fn new_counter_map() -> (fresh: CounterMap)
    ensures
        counter_contents(fresh).dom() == Set::<Seq<char>>::empty(),
{
    dashmap::DashMap::new()
}

/// Calls `DashMap::entry(key).or_insert(AtomicU64::new(initial))` and then
/// `fetch_add(n)` on the counter: a missing counter is created holding
/// `initial`, and the counter is increased by `n`, wrapping around on
/// overflow. Every other counter keeps its value.
#[verifier::external_body]
fn counter_fetch_add(map: &mut CounterMap, key: CounterName, initial: u64, n: u64)
    ensures
        counter_contents(*final(map)) == counter_contents(*old(map)).insert(
            key@,
            wrapped_sum(
                if counter_contents(*old(map)).contains_key(key@) {
                    counter_contents(*old(map))[key@]
                } else {
                    initial
                },
                n,
            ),
        ),
{
    map.entry(key).or_insert(std::sync::atomic::AtomicU64::new(initial)).fetch_add(
        n,
        std::sync::atomic::Ordering::Relaxed,
    );
}

/// Calls `DashMap::entry(key).or_insert(AtomicU64::new(initial))` and then
/// `store(value)` on the counter: the counter now holds `value` (the value
/// it was created with is overwritten), every other counter keeps its value.
#[verifier::external_body]
fn counter_store(map: &mut CounterMap, key: CounterName, initial: u64, value: u64)
    ensures
        counter_contents(*final(map)) == counter_contents(*old(map)).insert(key@, value),
{
    map.entry(key).or_insert(std::sync::atomic::AtomicU64::new(initial)).store(
        value,
        std::sync::atomic::Ordering::Relaxed,
    );
}

/// Calls `DashMap::get(key)` and reads the counter with `load`: `None` when
/// the map holds no counter of that name, else its value.
#[verifier::external_body]
fn counter_load(
    map: &CounterMap,
    key: CounterName,
) -> (value: Option<u64>)
    ensures
        value == if counter_contents(*map).contains_key(key@) {
            Some(counter_contents(*map)[key@])
        } else {
            None::<u64>
        },
{
    match map.get(key) {
        Some(entry) => Some(entry.load(std::sync::atomic::Ordering::Relaxed)),
        None => None,
    }
}

/// Calls `std::time::Instant::now`. Nothing is claimed about the value: it
/// is the time.
#[verifier::external_body]
fn clock_instant() -> std::time::Instant {
    std::time::Instant::now()
}

/// Calls `Instant::elapsed` on `start` and returns the whole seconds of the
/// duration. Nothing is claimed about the value: it is the time.
#[verifier::external_body]
fn whole_seconds_since(start: &std::time::Instant) -> u64 {
    start.elapsed().as_secs()
}

/// The pipeline's counters at one moment.
#[derive(Debug, Clone, Copy, PartialEq, Eq, Structural)]
pub struct MetricsSnapshot {
    pub frames_ingested: u64,
    pub frames_replicated: u64,
    pub elections_started: u64,
    pub leader_changes: u64,
    pub write_errors: u64,
    pub checksum_failures: u64,
    pub network_partitions: u64,
    pub uptime_secs: u64,
}

impl MetricsSnapshot {
    /// The one-line report of the snapshot: `uptime=<u>s ingested=<i>
    /// replicated=<r> elections=<e> leaders=<l> write_err=<w>
    /// checksum_fail=<c> partitions=<p>`, each number in decimal.
    pub open spec fn report_text(&self) -> Seq<char> {
        "uptime="@ + decimal_text(self.uptime_secs as nat) + "s ingested="@ + decimal_text(
            self.frames_ingested as nat,
        ) + " replicated="@ + decimal_text(self.frames_replicated as nat) + " elections="@
            + decimal_text(self.elections_started as nat) + " leaders="@ + decimal_text(
            self.leader_changes as nat,
        ) + " write_err="@ + decimal_text(self.write_errors as nat) + " checksum_fail="@
            + decimal_text(self.checksum_failures as nat) + " partitions="@ + decimal_text(
            self.network_partitions as nat,
        )
    }

    /// Renders the one-line report of the snapshot.
    pub fn to_report_string(&self) -> (text: String)
        ensures
            text@ == self.report_text(),
    {
        let mut out = String::new();
        out.append("uptime=");
        push_decimal_text(&mut out, self.uptime_secs);
        out.append("s ingested=");
        push_decimal_text(&mut out, self.frames_ingested);
        out.append(" replicated=");
        push_decimal_text(&mut out, self.frames_replicated);
        out.append(" elections=");
        push_decimal_text(&mut out, self.elections_started);
        out.append(" leaders=");
        push_decimal_text(&mut out, self.leader_changes);
        out.append(" write_err=");
        push_decimal_text(&mut out, self.write_errors);
        out.append(" checksum_fail=");
        push_decimal_text(&mut out, self.checksum_failures);
        out.append(" partitions=");
        push_decimal_text(&mut out, self.network_partitions);
        proof {
            assert(out@ =~= self.report_text());
        }
        out
    }
}

/// Whether `text` shows `label` followed by the decimal rendering of
/// `value`, ending at the end of the text or before `next`.
pub open spec fn shows_field(text: Seq<char>, label: Seq<char>, value: u64, next: char) -> bool {
    exists|pre: Seq<char>, post: Seq<char>|
        text == pre + label + decimal_text(value as nat) + post && (post.len() == 0 || post[0]
            == next)
}

/// The report shows `uptime_secs` after its label.
proof fn lemma_report_shows_uptime_secs(snap: MetricsSnapshot)
    ensures
        shows_field(snap.report_text(), "uptime="@, snap.uptime_secs, 's'),
{
    reveal_strlit("s ingested=");
    let pre = Seq::<char>::empty();
    let post = "s ingested="@ + decimal_text(snap.frames_ingested as nat) + " replicated="@
        + decimal_text(snap.frames_replicated as nat) + " elections="@
        + decimal_text(snap.elections_started as nat) + " leaders="@
        + decimal_text(snap.leader_changes as nat) + " write_err="@
        + decimal_text(snap.write_errors as nat) + " checksum_fail="@
        + decimal_text(snap.checksum_failures as nat) + " partitions="@
        + decimal_text(snap.network_partitions as nat);
    assert(snap.report_text() =~= pre + "uptime="@ + decimal_text(snap.uptime_secs as nat) + post);
}

/// The report shows `frames_ingested` after its label.
proof fn lemma_report_shows_frames_ingested(snap: MetricsSnapshot)
    ensures
        shows_field(snap.report_text(), " ingested="@, snap.frames_ingested, ' '),
{
    reveal_strlit("s");
    reveal_strlit("s ingested=");
    reveal_strlit(" ingested=");
    reveal_strlit(" replicated=");
    let pre = "uptime="@ + decimal_text(snap.uptime_secs as nat) + "s"@;
    let post = " replicated="@ + decimal_text(snap.frames_replicated as nat) + " elections="@
        + decimal_text(snap.elections_started as nat) + " leaders="@
        + decimal_text(snap.leader_changes as nat) + " write_err="@
        + decimal_text(snap.write_errors as nat) + " checksum_fail="@
        + decimal_text(snap.checksum_failures as nat) + " partitions="@
        + decimal_text(snap.network_partitions as nat);
    assert(snap.report_text() =~= pre + " ingested="@
        + decimal_text(snap.frames_ingested as nat) + post);
}

/// The report shows `frames_replicated` after its label.
proof fn lemma_report_shows_frames_replicated(snap: MetricsSnapshot)
    ensures
        shows_field(snap.report_text(), " replicated="@, snap.frames_replicated, ' '),
{
    reveal_strlit(" elections=");
    let pre = "uptime="@ + decimal_text(snap.uptime_secs as nat) + "s ingested="@
        + decimal_text(snap.frames_ingested as nat);
    let post = " elections="@ + decimal_text(snap.elections_started as nat) + " leaders="@
        + decimal_text(snap.leader_changes as nat) + " write_err="@
        + decimal_text(snap.write_errors as nat) + " checksum_fail="@
        + decimal_text(snap.checksum_failures as nat) + " partitions="@
        + decimal_text(snap.network_partitions as nat);
    assert(snap.report_text() =~= pre + " replicated="@
        + decimal_text(snap.frames_replicated as nat) + post);
}

/// The report shows `elections_started` after its label.
proof fn lemma_report_shows_elections_started(snap: MetricsSnapshot)
    ensures
        shows_field(snap.report_text(), " elections="@, snap.elections_started, ' '),
{
    reveal_strlit(" leaders=");
    let pre = "uptime="@ + decimal_text(snap.uptime_secs as nat) + "s ingested="@
        + decimal_text(snap.frames_ingested as nat) + " replicated="@
        + decimal_text(snap.frames_replicated as nat);
    let post = " leaders="@ + decimal_text(snap.leader_changes as nat) + " write_err="@
        + decimal_text(snap.write_errors as nat) + " checksum_fail="@
        + decimal_text(snap.checksum_failures as nat) + " partitions="@
        + decimal_text(snap.network_partitions as nat);
    assert(snap.report_text() =~= pre + " elections="@
        + decimal_text(snap.elections_started as nat) + post);
}

/// The report shows `leader_changes` after its label.
proof fn lemma_report_shows_leader_changes(snap: MetricsSnapshot)
    ensures
        shows_field(snap.report_text(), " leaders="@, snap.leader_changes, ' '),
{
    reveal_strlit(" write_err=");
    let pre = "uptime="@ + decimal_text(snap.uptime_secs as nat) + "s ingested="@
        + decimal_text(snap.frames_ingested as nat) + " replicated="@
        + decimal_text(snap.frames_replicated as nat) + " elections="@
        + decimal_text(snap.elections_started as nat);
    let post = " write_err="@ + decimal_text(snap.write_errors as nat) + " checksum_fail="@
        + decimal_text(snap.checksum_failures as nat) + " partitions="@
        + decimal_text(snap.network_partitions as nat);
    assert(snap.report_text() =~= pre + " leaders="@ + decimal_text(snap.leader_changes as nat)
        + post);
}

/// The report shows `write_errors` after its label.
proof fn lemma_report_shows_write_errors(snap: MetricsSnapshot)
    ensures
        shows_field(snap.report_text(), " write_err="@, snap.write_errors, ' '),
{
    reveal_strlit(" checksum_fail=");
    let pre = "uptime="@ + decimal_text(snap.uptime_secs as nat) + "s ingested="@
        + decimal_text(snap.frames_ingested as nat) + " replicated="@
        + decimal_text(snap.frames_replicated as nat) + " elections="@
        + decimal_text(snap.elections_started as nat) + " leaders="@
        + decimal_text(snap.leader_changes as nat);
    let post = " checksum_fail="@ + decimal_text(snap.checksum_failures as nat)
        + " partitions="@ + decimal_text(snap.network_partitions as nat);
    assert(snap.report_text() =~= pre + " write_err="@ + decimal_text(snap.write_errors as nat)
        + post);
}

/// The report shows `checksum_failures` after its label.
proof fn lemma_report_shows_checksum_failures(snap: MetricsSnapshot)
    ensures
        shows_field(snap.report_text(), " checksum_fail="@, snap.checksum_failures, ' '),
{
    reveal_strlit(" partitions=");
    let pre = "uptime="@ + decimal_text(snap.uptime_secs as nat) + "s ingested="@
        + decimal_text(snap.frames_ingested as nat) + " replicated="@
        + decimal_text(snap.frames_replicated as nat) + " elections="@
        + decimal_text(snap.elections_started as nat) + " leaders="@
        + decimal_text(snap.leader_changes as nat) + " write_err="@
        + decimal_text(snap.write_errors as nat);
    let post = " partitions="@ + decimal_text(snap.network_partitions as nat);
    assert(snap.report_text() =~= pre + " checksum_fail="@
        + decimal_text(snap.checksum_failures as nat) + post);
}

/// The report shows `network_partitions` after its label.
proof fn lemma_report_shows_network_partitions(snap: MetricsSnapshot)
    ensures
        shows_field(snap.report_text(), " partitions="@, snap.network_partitions, ' '),
{
    let pre = "uptime="@ + decimal_text(snap.uptime_secs as nat) + "s ingested="@
        + decimal_text(snap.frames_ingested as nat) + " replicated="@
        + decimal_text(snap.frames_replicated as nat) + " elections="@
        + decimal_text(snap.elections_started as nat) + " leaders="@
        + decimal_text(snap.leader_changes as nat) + " write_err="@
        + decimal_text(snap.write_errors as nat) + " checksum_fail="@
        + decimal_text(snap.checksum_failures as nat);
    let post = Seq::<char>::empty();
    assert(snap.report_text() =~= pre + " partitions="@
        + decimal_text(snap.network_partitions as nat) + post);
}

/// The report shows every counter under its own label: the number after
/// `uptime=` is the uptime (followed by `s`), after `ingested=` the frames
/// ingested, after `replicated=` the frames replicated, after `elections=`
/// the elections started, after `leaders=` the leader changes, after
/// `write_err=` the write errors, after `checksum_fail=` the checksum
/// failures, and after `partitions=` the network partitions.
pub proof fn law_report_labels_fields(snap: MetricsSnapshot)
    ensures
        shows_field(snap.report_text(), "uptime="@, snap.uptime_secs, 's'),
        shows_field(snap.report_text(), " ingested="@, snap.frames_ingested, ' '),
        shows_field(snap.report_text(), " replicated="@, snap.frames_replicated, ' '),
        shows_field(snap.report_text(), " elections="@, snap.elections_started, ' '),
        shows_field(snap.report_text(), " leaders="@, snap.leader_changes, ' '),
        shows_field(snap.report_text(), " write_err="@, snap.write_errors, ' '),
        shows_field(snap.report_text(), " checksum_fail="@, snap.checksum_failures, ' '),
        shows_field(snap.report_text(), " partitions="@, snap.network_partitions, ' '),
{
    lemma_report_shows_uptime_secs(snap);
    lemma_report_shows_frames_ingested(snap);
    lemma_report_shows_frames_replicated(snap);
    lemma_report_shows_elections_started(snap);
    lemma_report_shows_leader_changes(snap);
    lemma_report_shows_write_errors(snap);
    lemma_report_shows_checksum_failures(snap);
    lemma_report_shows_network_partitions(snap);
}

/// A registry of named counters, and the time it was started at.
pub struct Metrics {
    counters: CounterMap,
    start_time: Option<std::time::Instant>,
}

impl Default for Metrics {
    /// A registry with no counter and no start time.
    fn default() -> (m: Self)
        ensures
            m.counters() == Map::<Seq<char>, u64>::empty(),
            !m.started(),
    {
        Metrics { counters: new_counter_map(), start_time: None }
    }
}

impl Metrics {
    /// The value of every counter, by name.
    pub closed spec fn counters(&self) -> Map<Seq<char>, u64> {
        counter_contents(self.counters)
    }

    /// Whether the registry has a start time.
    pub closed spec fn started(&self) -> bool {
        self.start_time is Some
    }

    /// The value of the counter `key`; `COUNTER_START` (0) for a counter
    /// never touched.
    pub open spec fn counter(&self, key: Seq<char>) -> u64 {
        if self.counters().contains_key(key) {
            self.counters()[key]
        } else {
            COUNTER_START
        }
    }

    /// A registry with no counter, started now.
    pub fn new() -> (m: Self)
        ensures
            m.counters() == Map::<Seq<char>, u64>::empty(),
            m.started(),
    {
        Metrics { counters: new_counter_map(), start_time: Some(clock_instant()) }
    }

    /// Adds one to the counter `key` (wrapping around at 2^64).
    pub fn increment(&mut self, key: CounterName)
        ensures
            final(self).counters() == old(self).counters().insert(
                key@,
                wrapped_sum(old(self).counter(key@), 1),
            ),
            final(self).started() == old(self).started(),
    {
        counter_fetch_add(&mut self.counters, key, COUNTER_START, 1);
    }

    /// Adds `n` to the counter `key` (wrapping around at 2^64).
    pub fn add(&mut self, key: CounterName, n: u64)
        ensures
            final(self).counters() == old(self).counters().insert(
                key@,
                wrapped_sum(old(self).counter(key@), n),
            ),
            final(self).started() == old(self).started(),
    {
        counter_fetch_add(&mut self.counters, key, COUNTER_START, n);
    }

    /// Sets the counter `key` to `val`.
    pub fn set(&mut self, key: CounterName, val: u64)
        ensures
            final(self).counters() == old(self).counters().insert(key@, val),
            final(self).started() == old(self).started(),
    {
        counter_store(&mut self.counters, key, COUNTER_START, val);
    }

    /// The value of the counter `key`, 0 when it was never touched.
    pub fn get(&self, key: CounterName) -> (v: u64)
        ensures
            v == self.counter(key@),
    {
        match counter_load(&self.counters, key) {
            Some(v) => v,
            None => 0,
        }
    }

    /// Whole seconds since the registry was started; 0 when it has no
    /// start time.
    pub fn uptime_secs(&self) -> (secs: u64)
        ensures
            !self.started() ==> secs == 0,
    {
        match &self.start_time {
            Some(t) => whole_seconds_since(t),
            None => 0,
        }
    }

    /// The pipeline's counters and the uptime.
    pub fn report(&self) -> (snap: MetricsSnapshot)
        ensures
            snap.frames_ingested == self.counter("frames_ingested"@),
            snap.frames_replicated == self.counter("frames_replicated"@),
            snap.elections_started == self.counter("elections_started"@),
            snap.leader_changes == self.counter("leader_changes"@),
            snap.write_errors == self.counter("write_errors"@),
            snap.checksum_failures == self.counter("checksum_failures"@),
            snap.network_partitions == self.counter("network_partitions"@),
            !self.started() ==> snap.uptime_secs == 0,
    {
        MetricsSnapshot {
            frames_ingested: self.get("frames_ingested"),
            frames_replicated: self.get("frames_replicated"),
            elections_started: self.get("elections_started"),
            leader_changes: self.get("leader_changes"),
            write_errors: self.get("write_errors"),
            checksum_failures: self.get("checksum_failures"),
            network_partitions: self.get("network_partitions"),
            uptime_secs: self.uptime_secs(),
        }
    }
}

/// The map behind the registry: counter name to atomic counter.
pub type CounterMap = dashmap::DashMap<CounterName, std::sync::atomic::AtomicU64>;

/// The name of a counter.
pub type CounterName = &'static str;

/// A read gives back what a write wrote, and writing one counter leaves
/// every other counter as it was.
pub proof fn law_read_after_write(before: Metrics, after: Metrics, key: Seq<char>, val: u64, other: Seq<char>)
    requires
        after.counters() == before.counters().insert(key, val),
    ensures
        after.counter(key) == val,
        other != key ==> after.counter(other) == before.counter(other),
{
}

/// Incrementing a counter adds one to it (wrapping at 2^64) and leaves every
/// other counter as it was; a counter never touched reads 0, so its first
/// increment makes it 1.
pub proof fn law_increment_adds_one(before: Metrics, after: Metrics, key: Seq<char>, other: Seq<char>)
    requires
        after.counters() == before.counters().insert(key, wrapped_sum(before.counter(key), 1)),
    ensures
        after.counter(key) == (before.counter(key) + 1) % 0x1_0000_0000_0000_0000,
        !before.counters().contains_key(key) ==> after.counter(key) == 1,
        other != key ==> after.counter(other) == before.counter(other),
{
}

} // verus!
