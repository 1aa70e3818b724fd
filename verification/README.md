# fault_tolerant_telemetry

The verified core of a distributed telemetry pipeline: telemetry frames
that carry a CRC-32 checksum over their source, timestamp, sequence number
and full value, a ring buffer of the last N frames of each channel with
statistics over the frames it holds, a registry of named counters, the
partition table of a simulated network with its fault-injection plans, and
the round-robin ingestion of frames into the cluster.

- `src/` is the library, verified with Verus: `encoding` (decimal rendering,
  CRC-32, double comparison on IEEE-754 bit patterns), `telemetry`,
  `metrics`, `transport`, `fault`, `node`, `consensus` (message types) and
  `cluster` (membership).
- `app/` is the single-node ingest demo and the asynchronous plumbing
  (in-process network, fault injector, ingester task) around the library;
  the plumbing is what a cluster of consensus nodes would run on.
- `tests/` exercises the library on concrete values.

Sample values are held as the bit pattern of their IEEE-754 double; the
floating-point aggregates (mean, extremes, deviation) are computed in `app/`.
