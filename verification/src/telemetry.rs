//! Telemetry frames with their CRC-32 checksum, and the ring buffer of the
//! last frames of each channel, with statistics over the frames it holds.
//!
//! A sample's value is an IEEE-754 double; the library holds it as its bit
//! pattern (`f64::to_bits`), which is all the checksum needs.

use vstd::prelude::*;
use crate::encoding::{
    crc32, crc32_checksum, decimal_digits, f64_bits_equal, float_bits_eq,
    lemma_decimal_digits_injective, push_decimal,
};

verus! {

/// Declares `uuid::Uuid` so that frames can carry their identifier.
#[verifier::external_type_specification]
#[verifier::external_body]
pub struct ExUuid(uuid::Uuid);

/// Calls `uuid::Uuid::new_v4`, which draws a random (version 4) UUID from
/// the operating system's generator. Nothing is claimed about the value.
#[verifier::external_body]
fn random_uuid() -> uuid::Uuid {
    uuid::Uuid::new_v4()
}

/// Reads the system clock through `std::time::SystemTime::now` and returns
/// the microseconds elapsed since the Unix epoch (0 when the clock reads an
/// earlier time). Nothing is claimed about the value: it is the time.
#[verifier::external_body]
fn unix_time_micros() -> u64 {
    std::time::SystemTime::now()
        .duration_since(std::time::UNIX_EPOCH)
        .unwrap_or_default()
        .as_micros() as u64
}

/// Calls `==` on two `uuid::Uuid`s, which compares their 16 bytes, all
/// that a `Uuid` holds: true exactly when they are the same identifier.
#[verifier::external_body]
fn same_uuid(a: &uuid::Uuid, b: &uuid::Uuid) -> (r: bool)
    ensures
        r == (*a == *b),
{
    a == b
}

/// The measured quantity a frame reports.
#[derive(Debug, PartialEq, Eq, Hash)]
pub enum TelemetryChannel {
    AltitudeM,
    VelocityVzMps,
    VelocityVxMps,
    PropellantKg,
    ThrustN,
    GimbalPitchRad,
    AttitudePitchRad,
    BatteryVoltage,
    EngineTemp,
    CpuLoad,
    Custom(String),
}

impl TelemetryChannel {
    /// Position of the variant in the declaration.
    pub open spec fn kind(&self) -> nat {
        match self {
            TelemetryChannel::AltitudeM => 0,
            TelemetryChannel::VelocityVzMps => 1,
            TelemetryChannel::VelocityVxMps => 2,
            TelemetryChannel::PropellantKg => 3,
            TelemetryChannel::ThrustN => 4,
            TelemetryChannel::GimbalPitchRad => 5,
            TelemetryChannel::AttitudePitchRad => 6,
            TelemetryChannel::BatteryVoltage => 7,
            TelemetryChannel::EngineTemp => 8,
            TelemetryChannel::CpuLoad => 9,
            TelemetryChannel::Custom(_) => 10,
        }
    }

    /// The name of a custom channel; empty for the predefined ones.
    pub open spec fn custom_name(&self) -> Seq<char> {
        match self {
            TelemetryChannel::Custom(name) => name@,
            _ => Seq::empty(),
        }
    }

    /// Returns the position of the variant in the declaration.
    pub fn kind_index(&self) -> (k: u8)
        ensures
            k == self.kind(),
    {
        match self {
            TelemetryChannel::AltitudeM => 0,
            TelemetryChannel::VelocityVzMps => 1,
            TelemetryChannel::VelocityVxMps => 2,
            TelemetryChannel::PropellantKg => 3,
            TelemetryChannel::ThrustN => 4,
            TelemetryChannel::GimbalPitchRad => 5,
            TelemetryChannel::AttitudePitchRad => 6,
            TelemetryChannel::BatteryVoltage => 7,
            TelemetryChannel::EngineTemp => 8,
            TelemetryChannel::CpuLoad => 9,
            TelemetryChannel::Custom(_) => 10,
        }
    }

    /// Whether two channels denote the same stream: the same variant, and
    /// for custom channels the same name.
    pub fn same_channel(&self, other: &TelemetryChannel) -> (r: bool)
        ensures
            r == (self@ == other@),
    {
        if let TelemetryChannel::Custom(a) = self {
            if let TelemetryChannel::Custom(b) = other {
                return *a == *b;
            }
        }
        let same_kind = self.kind_index() == other.kind_index();
        proof {
            if same_kind && self.kind() != 10 {
                assert(self.custom_name() =~= other.custom_name());
            }
        }
        same_kind
    }
}

impl View for TelemetryChannel {
    type V = (nat, Seq<char>);

    /// A channel is identified by its variant and, for custom channels, its name.
    open spec fn view(&self) -> (nat, Seq<char>) {
        (self.kind(), self.custom_name())
    }
}

impl Clone for TelemetryChannel {
    fn clone(&self) -> (r: Self)
        ensures
            r == *self,
    {
        match self {
            TelemetryChannel::AltitudeM => TelemetryChannel::AltitudeM,
            TelemetryChannel::VelocityVzMps => TelemetryChannel::VelocityVzMps,
            TelemetryChannel::VelocityVxMps => TelemetryChannel::VelocityVxMps,
            TelemetryChannel::PropellantKg => TelemetryChannel::PropellantKg,
            TelemetryChannel::ThrustN => TelemetryChannel::ThrustN,
            TelemetryChannel::GimbalPitchRad => TelemetryChannel::GimbalPitchRad,
            TelemetryChannel::AttitudePitchRad => TelemetryChannel::AttitudePitchRad,
            TelemetryChannel::BatteryVoltage => TelemetryChannel::BatteryVoltage,
            TelemetryChannel::EngineTemp => TelemetryChannel::EngineTemp,
            TelemetryChannel::CpuLoad => TelemetryChannel::CpuLoad,
            TelemetryChannel::Custom(name) => TelemetryChannel::Custom(name.clone()),
        }
    }
}

/// Whether two channels are the same variant (names aside).
pub open spec fn same_variant(a: TelemetryChannel, b: TelemetryChannel) -> bool {
    &&& (a is AltitudeM <==> b is AltitudeM)
    &&& (a is VelocityVzMps <==> b is VelocityVzMps)
    &&& (a is VelocityVxMps <==> b is VelocityVxMps)
    &&& (a is PropellantKg <==> b is PropellantKg)
    &&& (a is ThrustN <==> b is ThrustN)
    &&& (a is GimbalPitchRad <==> b is GimbalPitchRad)
    &&& (a is AttitudePitchRad <==> b is AttitudePitchRad)
    &&& (a is BatteryVoltage <==> b is BatteryVoltage)
    &&& (a is EngineTemp <==> b is EngineTemp)
    &&& (a is CpuLoad <==> b is CpuLoad)
    &&& (a is Custom <==> b is Custom)
}

/// Two channels denote the same stream exactly when they are the same
/// variant and, for custom channels, carry the same name; in particular no
/// two predefined variants are ever merged.
pub proof fn law_channel_identity(a: TelemetryChannel, b: TelemetryChannel)
    ensures
        a@ == b@ <==> (same_variant(a, b) && (a is Custom ==> a->Custom_0@ == b->Custom_0@)),
{
}

/// How trustworthy a sample is.
#[derive(Debug, Clone, Copy, PartialEq, Eq, Structural)]
pub enum Quality {
    Good,
    /// Sensor noise or a stale reading.
    Degraded,
    /// Hardware fault.
    Bad,
}

/// The bytes the checksum covers: the source identifier in UTF-8, then the
/// timestamp, the sequence number and the value's full 64-bit pattern, each
/// in decimal.
pub open spec fn checksum_payload(
    source_id: Seq<char>,
    timestamp_us: u64,
    sequence_num: u64,
    value_bits: u64,
) -> Seq<u8> {
    vstd::utf8::encode_utf8(source_id) + decimal_digits(timestamp_us as nat) + decimal_digits(
        sequence_num as nat,
    ) + decimal_digits(value_bits as nat)
}

/// The checksum covers the whole of every field: the payload starts with
/// the full UTF-8 encoding of the source id, and changing any one of the
/// source id, timestamp, sequence number or value (the others kept) changes
/// the payload.
pub proof fn law_payload_covers_every_field(
    s1: Seq<char>,
    s2: Seq<char>,
    t1: u64,
    t2: u64,
    q1: u64,
    q2: u64,
    v1: u64,
    v2: u64,
)
    ensures
        checksum_payload(s1, t1, q1, v1).subrange(0, vstd::utf8::encode_utf8(s1).len() as int)
            == vstd::utf8::encode_utf8(s1),
        checksum_payload(s1, t1, q1, v1) == checksum_payload(s2, t1, q1, v1) ==> s1 == s2,
        checksum_payload(s1, t1, q1, v1) == checksum_payload(s1, t2, q1, v1) ==> t1 == t2,
        checksum_payload(s1, t1, q1, v1) == checksum_payload(s1, t1, q2, v1) ==> q1 == q2,
        checksum_payload(s1, t1, q1, v1) == checksum_payload(s1, t1, q1, v2) ==> v1 == v2,
{
    let e1 = vstd::utf8::encode_utf8(s1);
    let e2 = vstd::utf8::encode_utf8(s2);
    let dt1 = decimal_digits(t1 as nat);
    let dt2 = decimal_digits(t2 as nat);
    let dq1 = decimal_digits(q1 as nat);
    let dq2 = decimal_digits(q2 as nat);
    let dv1 = decimal_digits(v1 as nat);
    let dv2 = decimal_digits(v2 as nat);
    assert(checksum_payload(s1, t1, q1, v1).subrange(0, e1.len() as int) =~= e1);
    if checksum_payload(s1, t1, q1, v1) == checksum_payload(s2, t1, q1, v1) {
        let p = checksum_payload(s1, t1, q1, v1);
        let rest = dt1 + dq1 + dv1;
        assert(p =~= e1 + rest);
        assert(checksum_payload(s2, t1, q1, v1) =~= e2 + rest);
        assert(e1.len() == e2.len());
        assert(e1 =~= p.subrange(0, e1.len() as int));
        assert(e2 =~= p.subrange(0, e2.len() as int));
        assert(e1 == e2);
        vstd::utf8::encode_utf8_decode_utf8(s1);
        vstd::utf8::encode_utf8_decode_utf8(s2);
    }
    if checksum_payload(s1, t1, q1, v1) == checksum_payload(s1, t2, q1, v1) {
        let p = checksum_payload(s1, t1, q1, v1);
        let start = e1.len() as int;
        assert(dt1 =~= p.subrange(start, start + dt1.len()));
        assert(dt2 =~= p.subrange(start, start + dt2.len()));
        assert(dt1 == dt2);
        lemma_decimal_digits_injective(t1 as nat, t2 as nat);
    }
    if checksum_payload(s1, t1, q1, v1) == checksum_payload(s1, t1, q2, v1) {
        let p = checksum_payload(s1, t1, q1, v1);
        let start = (e1.len() + dt1.len()) as int;
        assert(dq1 =~= p.subrange(start, start + dq1.len()));
        assert(dq2 =~= p.subrange(start, start + dq2.len()));
        assert(dq1 == dq2);
        lemma_decimal_digits_injective(q1 as nat, q2 as nat);
    }
    if checksum_payload(s1, t1, q1, v1) == checksum_payload(s1, t1, q1, v2) {
        let p = checksum_payload(s1, t1, q1, v1);
        let start = (e1.len() + dt1.len() + dq1.len()) as int;
        assert(dv1 =~= p.subrange(start, start + dv1.len()));
        assert(dv2 =~= p.subrange(start, start + dv2.len()));
        assert(dv1 == dv2);
        lemma_decimal_digits_injective(v1 as nat, v2 as nat);
    }
}

/// The CRC-32 checksum of a frame with these fields.
pub open spec fn frame_checksum(
    source_id: Seq<char>,
    timestamp_us: u64,
    sequence_num: u64,
    value_bits: u64,
) -> u32 {
    crc32(checksum_payload(source_id, timestamp_us, sequence_num, value_bits))
}

/// A single telemetry sample from the spacecraft.
#[derive(Debug)]
pub struct TelemetryFrame {
    pub id: uuid::Uuid,
    pub source_id: String,
    /// Microseconds since the Unix epoch.
    pub timestamp_us: u64,
    pub sequence_num: u64,
    pub channel: TelemetryChannel,
    /// Bit pattern of the sampled value, an IEEE-754 double.
    pub value_bits: u64,
    pub quality: Quality,
    pub checksum: u32,
}

impl PartialEq for TelemetryFrame {
    /// Field by field; the values compare as doubles do (NaN equals
    /// nothing, +0.0 equals -0.0).
    fn eq(&self, other: &Self) -> (r: bool) {
        same_uuid(&self.id, &other.id) && self.source_id == other.source_id && self.timestamp_us
            == other.timestamp_us && self.sequence_num == other.sequence_num
            && self.channel.same_channel(&other.channel) && float_bits_eq(
            self.value_bits,
            other.value_bits,
        ) && self.quality == other.quality && self.checksum == other.checksum
    }
}

impl vstd::std_specs::cmp::PartialEqSpecImpl for TelemetryFrame {
    open spec fn obeys_eq_spec() -> bool {
        true
    }

    open spec fn eq_spec(&self, other: &TelemetryFrame) -> bool {
        &&& self.id == other.id
        &&& self.source_id@ == other.source_id@
        &&& self.timestamp_us == other.timestamp_us
        &&& self.sequence_num == other.sequence_num
        &&& self.channel@ == other.channel@
        &&& f64_bits_equal(self.value_bits, other.value_bits)
        &&& self.quality == other.quality
        &&& self.checksum == other.checksum
    }
}

impl Clone for TelemetryFrame {
    fn clone(&self) -> (r: Self)
        ensures
            r == *self,
    {
        TelemetryFrame {
            id: self.id,
            source_id: self.source_id.clone(),
            timestamp_us: self.timestamp_us,
            sequence_num: self.sequence_num,
            channel: self.channel.clone(),
            value_bits: self.value_bits,
            quality: self.quality,
            checksum: self.checksum,
        }
    }
}

impl TelemetryFrame {
    /// The checksum that the frame's own fields call for.
    pub open spec fn expected_checksum(&self) -> u32 {
        frame_checksum(self.source_id@, self.timestamp_us, self.sequence_num, self.value_bits)
    }

    /// Whether the stored checksum matches the frame's fields.
    pub open spec fn checksum_ok(&self) -> bool {
        self.checksum == self.expected_checksum()
    }

    /// Creates a frame stamped with a fresh random identifier and the current
    /// time, of quality `Good`, with its checksum computed.
    pub fn new(source_id: &str, sequence_num: u64, channel: TelemetryChannel, value_bits: u64) -> (
        frame: Self)
        ensures
            frame.source_id@ == source_id@,
            frame.sequence_num == sequence_num,
            frame.channel == channel,
            frame.value_bits == value_bits,
            frame.quality == Quality::Good,
            frame.checksum == frame.expected_checksum(),
    {
        let ts = unix_time_micros();
        let id = random_uuid();
        Self::from_parts(id, source_id.to_owned(), ts, sequence_num, channel, value_bits)
    }

    /// Assembles a frame of quality `Good` from its identifier, source,
    /// timestamp, sequence number, channel and value, and computes its
    /// checksum.
    pub fn from_parts(
        id: uuid::Uuid,
        source_id: String,
        timestamp_us: u64,
        sequence_num: u64,
        channel: TelemetryChannel,
        value_bits: u64,
    ) -> (frame: Self)
        ensures
            frame.id == id,
            frame.source_id == source_id,
            frame.timestamp_us == timestamp_us,
            frame.sequence_num == sequence_num,
            frame.channel == channel,
            frame.value_bits == value_bits,
            frame.quality == Quality::Good,
            frame.checksum == frame.expected_checksum(),
    {
        let mut frame = TelemetryFrame {
            id,
            source_id,
            timestamp_us,
            sequence_num,
            channel,
            value_bits,
            quality: Quality::Good,
            checksum: 0,
        };
        frame.checksum = frame.compute_checksum();
        frame
    }

    /// Returns the frame with its quality replaced by `q`; the checksum,
    /// which does not cover the quality, is kept.
    pub fn with_quality(self, q: Quality) -> (frame: Self)
        ensures
            frame == (TelemetryFrame { quality: q, ..self }),
    {
        let mut frame = self;
        frame.quality = q;
        frame
    }

    /// Computes the CRC-32 checksum of the frame's fields.
    pub fn compute_checksum(&self) -> (c: u32)
        ensures
            c == self.expected_checksum(),
    {
        let source: &[u8] = self.source_id.as_str().as_bytes();
        let mut data: Vec<u8> = Vec::new();
        let mut i: usize = 0;
        while i < source.len()
            invariant
                i <= source.len(),
                data@ == source@.take(i as int),
            decreases source.len() - i,
        {
            data.push(source[i]);
            i = i + 1;
            proof {
                assert(data@ =~= source@.take(i as int));
            }
        }
        proof {
            assert(source@.take(source.len() as int) =~= source@);
        }
        push_decimal(&mut data, self.timestamp_us);
        push_decimal(&mut data, self.sequence_num);
        push_decimal(&mut data, self.value_bits);
        proof {
            assert(data@ =~= checksum_payload(
                self.source_id@,
                self.timestamp_us,
                self.sequence_num,
                self.value_bits,
            ));
        }
        crc32_checksum(data.as_slice())
    }

    /// Whether the stored checksum matches the frame's fields.
    pub fn verify_checksum(&self) -> (ok: bool)
        ensures
            ok == self.checksum_ok(),
    {
        self.checksum == self.compute_checksum()
    }
}

/// The checksum does not cover the quality: changing a frame's quality keeps
/// a matching checksum matching, and a mismatching one mismatching.
pub proof fn law_quality_outside_checksum(frame: TelemetryFrame, q: Quality)
    ensures
        (TelemetryFrame { quality: q, ..frame }).checksum_ok() == frame.checksum_ok(),
{
}

/// Aggregated statistics of one channel: how many frames arrived, how many
/// of them were of quality `Bad`, and the value and time of the last one.
/// The floating-point aggregates (mean, extremes, deviation) are not kept
/// here.
#[derive(Debug)]
pub struct ChannelStats {
    pub channel: TelemetryChannel,
    pub count: u64,
    /// Bit pattern of the last value seen (that of 0.0 before any frame).
    pub last_value_bits: u64,
    pub last_ts_us: u64,
    pub bad_count: u64,
}

impl Clone for ChannelStats {
    fn clone(&self) -> (r: Self)
        ensures
            r == *self,
    {
        ChannelStats {
            channel: self.channel.clone(),
            count: self.count,
            last_value_bits: self.last_value_bits,
            last_ts_us: self.last_ts_us,
            bad_count: self.bad_count,
        }
    }
}

/// The statistics of a channel that has seen no frame.
pub open spec fn empty_stats(channel: TelemetryChannel) -> ChannelStats {
    ChannelStats { channel, count: 0, last_value_bits: 0, last_ts_us: 0, bad_count: 0 }
}

impl ChannelStats {
    /// The statistics after `frame` has been counted.
    pub open spec fn after_update(self, frame: TelemetryFrame) -> ChannelStats {
        ChannelStats {
            channel: self.channel,
            count: (self.count + 1) as u64,
            last_value_bits: frame.value_bits,
            last_ts_us: frame.timestamp_us,
            bad_count: if frame.quality == Quality::Bad {
                (self.bad_count + 1) as u64
            } else {
                self.bad_count
            },
        }
    }

    /// Statistics of `channel` before any frame.
    pub fn new(channel: TelemetryChannel) -> (s: Self)
        ensures
            s == empty_stats(channel),
    {
        ChannelStats { channel, count: 0, last_value_bits: 0, last_ts_us: 0, bad_count: 0 }
    }

    /// Counts `frame`: one more frame, one more bad frame if its quality is
    /// `Bad`, and `frame`'s value and timestamp become the last ones.
    pub fn update(&mut self, frame: &TelemetryFrame)
        requires
            old(self).count < u64::MAX,
            frame.quality == Quality::Bad ==> old(self).bad_count < u64::MAX,
        ensures
            *final(self) == old(self).after_update(*frame),
    {
        self.count = self.count + 1;
        self.last_value_bits = frame.value_bits;
        self.last_ts_us = frame.timestamp_us;
        if frame.quality == Quality::Bad {
            self.bad_count = self.bad_count + 1;
        }
    }
}

/// The predicate "belongs to channel `c`".
pub open spec fn on_channel(c: (nat, Seq<char>)) -> spec_fn(TelemetryFrame) -> bool {
    |f: TelemetryFrame| f.channel@ == c
}

/// The predicate "belongs to channel `c` and is of quality `Bad`".
pub open spec fn bad_on_channel(c: (nat, Seq<char>)) -> spec_fn(TelemetryFrame) -> bool {
    |f: TelemetryFrame| f.channel@ == c && f.quality == Quality::Bad
}

/// The frames of channel `c` in `window`, oldest first.
pub open spec fn held(window: Seq<TelemetryFrame>, c: (nat, Seq<char>)) -> Seq<TelemetryFrame> {
    window.filter(on_channel(c))
}

/// The statistics of `channel` over the frames `window` holds: how many,
/// how many of quality `Bad`, and the value and time of the newest one (0
/// when it holds none).
pub open spec fn summary(channel: TelemetryChannel, window: Seq<TelemetryFrame>) -> ChannelStats {
    let frames = held(window, channel@);
    ChannelStats {
        channel,
        count: frames.len() as u64,
        last_value_bits: if frames.len() > 0 {
            frames.last().value_bits
        } else {
            0
        },
        last_ts_us: if frames.len() > 0 {
            frames.last().timestamp_us
        } else {
            0
        },
        bad_count: window.filter(bad_on_channel(channel@)).len() as u64,
    }
}

/// The statistics of each of `channels`, in order, over `window`.
pub open spec fn stats_summary(channels: Seq<TelemetryChannel>, window: Seq<TelemetryFrame>) -> Seq<
    ChannelStats,
> {
    channels.map_values(|c: TelemetryChannel| summary(c, window))
}

/// The position of the oldest frame of channel `c` in `window` (the length
/// of `window` when there is none).
pub open spec fn first_index(window: Seq<TelemetryFrame>, c: (nat, Seq<char>)) -> int
    decreases window.len(),
{
    if window.len() == 0 {
        0
    } else if window[0].channel@ == c {
        0
    } else {
        1 + first_index(window.drop_first(), c)
    }
}

/// The frames held after `frame` is pushed into a buffer of capacity `cap`
/// per channel: with capacity 0 nothing is kept; when the frame's channel
/// already holds `cap` frames, its oldest one leaves; then `frame` joins at
/// the end.
pub open spec fn window_after_push(window: Seq<TelemetryFrame>, cap: nat, frame: TelemetryFrame) -> Seq<
    TelemetryFrame,
> {
    if cap == 0 {
        window
    } else if held(window, frame.channel@).len() >= cap {
        window.remove(first_index(window, frame.channel@)).push(frame)
    } else {
        window.push(frame)
    }
}

/// The window after pushing each of `frames` in turn.
pub open spec fn window_after_pushes(
    window: Seq<TelemetryFrame>,
    cap: nat,
    frames: Seq<TelemetryFrame>,
) -> Seq<TelemetryFrame>
    decreases frames.len(),
{
    if frames.len() == 0 {
        window
    } else {
        window_after_push(window_after_pushes(window, cap, frames.drop_last()), cap, frames.last())
    }
}

/// Whether `channels` holds channel `c`.
pub open spec fn has_channel(channels: Seq<TelemetryChannel>, c: (nat, Seq<char>)) -> bool {
    exists|i: int| 0 <= i < channels.len() && (#[trigger] channels[i])@ == c
}

/// The channels seen after `frame` is pushed: its channel joins at the end
/// when it was not seen before.
pub open spec fn channels_after_push(channels: Seq<TelemetryChannel>, frame: TelemetryFrame) -> Seq<
    TelemetryChannel,
> {
    if has_channel(channels, frame.channel@) {
        channels
    } else {
        channels.push(frame.channel)
    }
}

/// The channels seen after pushing each of `frames` in turn.
pub open spec fn channels_after_pushes(channels: Seq<TelemetryChannel>, frames: Seq<TelemetryFrame>) -> Seq<
    TelemetryChannel,
>
    decreases frames.len(),
{
    if frames.len() == 0 {
        channels
    } else {
        channels_after_push(channels_after_pushes(channels, frames.drop_last()), frames.last())
    }
}

/// No two of `channels` are the same channel.
pub open spec fn distinct_channels(channels: Seq<TelemetryChannel>) -> bool {
    forall|i: int, j: int|
        0 <= i < j < channels.len() ==> (#[trigger] channels[i])@ != (#[trigger] channels[j])@
}

/// Filtering after a push: the pushed element joins the result when it
/// passes.
pub proof fn lemma_filter_push(
    s: Seq<TelemetryFrame>,
    x: TelemetryFrame,
    p: spec_fn(TelemetryFrame) -> bool,
)
    ensures
        s.push(x).filter(p) == if p(x) {
            s.filter(p).push(x)
        } else {
            s.filter(p)
        },
{
    reveal_with_fuel(Seq::<_>::filter, 1);
    assert(s.push(x).drop_last() =~= s);
}

/// A sequence none of whose elements passes filters to nothing.
proof fn lemma_filter_none(s: Seq<TelemetryFrame>, p: spec_fn(TelemetryFrame) -> bool)
    requires
        forall|j: int| 0 <= j < s.len() ==> !p(#[trigger] s[j]),
    ensures
        s.filter(p) == Seq::<TelemetryFrame>::empty(),
    decreases s.len(),
{
    reveal_with_fuel(Seq::<_>::filter, 1);
    if s.len() > 0 {
        assert forall|j: int| 0 <= j < s.drop_last().len() implies !p(
            #[trigger] s.drop_last()[j],
        ) by {
            assert(s.drop_last()[j] == s[j]);
        }
        lemma_filter_none(s.drop_last(), p);
        assert(!p(s[s.len() - 1]));
    }
}

/// Filtering after removing the element at `i`, where no earlier element
/// passes: the removed element leaves the front of the result when it
/// passes.
pub proof fn lemma_filter_remove(s: Seq<TelemetryFrame>, i: int, p: spec_fn(TelemetryFrame) -> bool)
    requires
        0 <= i < s.len(),
        p(s[i]) ==> forall|j: int| 0 <= j < i ==> !p(#[trigger] s[j]),
    ensures
        s.remove(i).filter(p) == if p(s[i]) {
            s.filter(p).drop_first()
        } else {
            s.filter(p)
        },
{
    let front = s.subrange(0, i);
    let mid = seq![s[i]];
    let back = s.subrange(i + 1, s.len() as int);
    assert(s =~= front + mid + back);
    assert(s.remove(i) =~= front + back);
    Seq::filter_distributes_over_add(front + mid, back, p);
    Seq::filter_distributes_over_add(front, mid, p);
    Seq::filter_distributes_over_add(front, back, p);
    reveal_with_fuel(Seq::<_>::filter, 2);
    assert(mid.drop_last() =~= Seq::<TelemetryFrame>::empty());
    if p(s[i]) {
        assert forall|j: int| 0 <= j < front.len() implies !p(#[trigger] front[j]) by {
            assert(front[j] == s[j]);
        }
        lemma_filter_none(front, p);
        assert(mid.filter(p) =~= mid);
        assert((front + mid + back).filter(p) == (front + mid).filter(p) + back.filter(p));
        assert((front + mid).filter(p) == front.filter(p) + mid.filter(p));
        assert(s.filter(p) =~= front.filter(p) + seq![s[i]] + back.filter(p));
        assert(s.filter(p) =~= seq![s[i]] + back.filter(p));
        assert(s.filter(p).drop_first() =~= back.filter(p));
    } else {
        assert(mid.filter(p) =~= Seq::<TelemetryFrame>::empty());
        assert((front + mid + back).filter(p) == (front + mid).filter(p) + back.filter(p));
        assert((front + mid).filter(p) == front.filter(p) + mid.filter(p));
        assert(s.filter(p) =~= front.filter(p) + back.filter(p));
    }
    assert((front + back).filter(p) == front.filter(p) + back.filter(p));
}

/// The oldest frame of a channel that `window` holds is at `first_index`,
/// and no earlier frame belongs to that channel.
pub proof fn lemma_first_index(window: Seq<TelemetryFrame>, c: (nat, Seq<char>))
    requires
        held(window, c).len() > 0,
    ensures
        0 <= first_index(window, c) < window.len(),
        window[first_index(window, c)].channel@ == c,
        forall|j: int| 0 <= j < first_index(window, c) ==> (#[trigger] window[j]).channel@ != c,
{
    broadcast use vstd::seq_lib::group_filter_ensures;

    let f = held(window, c).last();
    assert(held(window, c).contains(f));
    window.lemma_filter_contains_rev(on_channel(c), f);
    let k = choose|k: int| 0 <= k < window.len() && window[k] == f;
    lemma_first_index_of(window, c, k);
}

/// Induction behind `lemma_first_index`, from a known frame of the channel.
proof fn lemma_first_index_of(window: Seq<TelemetryFrame>, c: (nat, Seq<char>), k: int)
    requires
        0 <= k < window.len(),
        window[k].channel@ == c,
    ensures
        0 <= first_index(window, c) <= k,
        window[first_index(window, c)].channel@ == c,
        forall|j: int| 0 <= j < first_index(window, c) ==> (#[trigger] window[j]).channel@ != c,
    decreases window.len(),
{
    if window[0].channel@ != c {
        lemma_first_index_of(window.drop_first(), c, k - 1);
        let r = first_index(window.drop_first(), c);
        assert forall|j: int| 0 <= j < first_index(window, c) implies (
        #[trigger] window[j]).channel@ != c by {
            if j > 0 {
                assert(window[j] == window.drop_first()[j - 1]);
            }
        }
    }
}

/// A position whose frame is the first of its channel is `first_index`.
proof fn lemma_first_index_is(window: Seq<TelemetryFrame>, c: (nat, Seq<char>), k: int)
    requires
        0 <= k < window.len(),
        window[k].channel@ == c,
        forall|j: int| 0 <= j < k ==> (#[trigger] window[j]).channel@ != c,
    ensures
        first_index(window, c) == k,
    decreases window.len(),
{
    if k > 0 {
        assert(window[0].channel@ != c);
        assert forall|j: int| 0 <= j < k - 1 implies (#[trigger] window.drop_first()[j]).channel@
            != c by {
            assert(window.drop_first()[j] == window[j + 1]);
        }
        lemma_first_index_is(window.drop_first(), c, k - 1);
    }
}

/// Pushing a frame leaves the frames of every other channel, and so their
/// statistics, as they were.
pub proof fn lemma_other_channel_unchanged(
    window: Seq<TelemetryFrame>,
    cap: nat,
    frame: TelemetryFrame,
    d: (nat, Seq<char>),
)
    requires
        d != frame.channel@,
    ensures
        held(window_after_push(window, cap, frame), d) == held(window, d),
        window_after_push(window, cap, frame).filter(bad_on_channel(d)) == window.filter(
            bad_on_channel(d),
        ),
        forall|c: TelemetryChannel|
            c@ == d ==> #[trigger] summary(c, window_after_push(window, cap, frame)) == summary(
                c,
                window,
            ),
{
    let ch = frame.channel@;
    if cap > 0 {
        let mut base = window;
        if held(window, ch).len() >= cap {
            lemma_first_index(window, ch);
            let i = first_index(window, ch);
            lemma_filter_remove(window, i, on_channel(d));
            lemma_filter_remove(window, i, bad_on_channel(d));
            base = window.remove(i);
        }
        lemma_filter_push(base, frame, on_channel(d));
        lemma_filter_push(base, frame, bad_on_channel(d));
    }
}

/// Pushing a frame into a buffer of positive capacity: the frame becomes the
/// newest of its channel, and the channel's oldest frame leaves when it
/// already held `cap` frames.
pub proof fn lemma_held_after_push(window: Seq<TelemetryFrame>, cap: nat, frame: TelemetryFrame)
    requires
        cap > 0,
    ensures
        held(window_after_push(window, cap, frame), frame.channel@) == if held(
            window,
            frame.channel@,
        ).len() >= cap {
            held(window, frame.channel@).drop_first()
        } else {
            held(window, frame.channel@)
        }.push(frame),
        window_after_push(window, cap, frame).filter(bad_on_channel(frame.channel@)) == if held(
            window,
            frame.channel@,
        ).len() >= cap && window[first_index(window, frame.channel@)].quality == Quality::Bad {
            window.filter(bad_on_channel(frame.channel@)).drop_first()
        } else {
            window.filter(bad_on_channel(frame.channel@))
        } + if frame.quality == Quality::Bad {
            seq![frame]
        } else {
            Seq::<TelemetryFrame>::empty()
        },
{
    let ch = frame.channel@;
    let mut base = window;
    if held(window, ch).len() >= cap {
        lemma_first_index(window, ch);
        let i = first_index(window, ch);
        lemma_filter_remove(window, i, on_channel(ch));
        lemma_filter_remove(window, i, bad_on_channel(ch));
        base = window.remove(i);
    }
    lemma_filter_push(base, frame, on_channel(ch));
    lemma_filter_push(base, frame, bad_on_channel(ch));
    let bad_before = base.filter(bad_on_channel(ch));
    if frame.quality == Quality::Bad {
        assert(bad_before.push(frame) =~= bad_before + seq![frame]);
    } else {
        assert(bad_before =~= bad_before + Seq::<TelemetryFrame>::empty());
    }
}

/// A channel never holds more than the capacity; with capacity 0 pushing
/// keeps nothing, and otherwise the pushed frame is the newest one held.
pub proof fn law_window_within_capacity(
    window: Seq<TelemetryFrame>,
    cap: nat,
    frame: TelemetryFrame,
    c: (nat, Seq<char>),
)
    requires
        held(window, c).len() <= cap,
        held(window, frame.channel@).len() <= cap,
    ensures
        held(window_after_push(window, cap, frame), c).len() <= cap,
        cap == 0 ==> window_after_push(window, cap, frame) == window,
        cap > 0 ==> window_after_push(window, cap, frame).last() == frame,
{
    if c != frame.channel@ {
        lemma_other_channel_unchanged(window, cap, frame, c);
    } else if cap > 0 {
        lemma_held_after_push(window, cap, frame);
    }
}

/// A buffer filled from empty holds, for every channel, exactly the last
/// `min(n, cap)` of the `n` frames pushed on that channel, in the order they
/// were pushed.
pub proof fn law_window_keeps_latest_per_channel(
    cap: nat,
    frames: Seq<TelemetryFrame>,
    c: (nat, Seq<char>),
)
    ensures
        ({
            let pushed = held(frames, c);
            let kept = if pushed.len() < cap {
                pushed.len() as int
            } else {
                cap as int
            };
            held(window_after_pushes(Seq::empty(), cap, frames), c) == pushed.subrange(
                pushed.len() - kept,
                pushed.len() as int,
            )
        }),
    decreases frames.len(),
{
    reveal_with_fuel(Seq::<_>::filter, 1);
    if frames.len() == 0 {
        assert(held(Seq::<TelemetryFrame>::empty(), c) =~= Seq::<TelemetryFrame>::empty());
    } else {
        let rest = frames.drop_last();
        let f = frames.last();
        law_window_keeps_latest_per_channel(cap, rest, c);
        let w = window_after_pushes(Seq::empty(), cap, rest);
        let before = held(rest, c);
        let n = before.len() as int;
        assert(frames =~= rest.push(f));
        lemma_filter_push(rest, f, on_channel(c));
        if f.channel@ != c || cap == 0 {
            if f.channel@ != c {
                lemma_other_channel_unchanged(w, cap, f, c);
            }
            if f.channel@ == c {
                assert(held(frames, c) =~= before.push(f));
                assert(held(w, c) =~= Seq::<TelemetryFrame>::empty());
                assert(held(frames, c).subrange(n + 1, n + 1) =~= Seq::<TelemetryFrame>::empty());
            }
        } else {
            law_window_keeps_latest_per_channel(cap, rest, f.channel@);
            lemma_held_after_push(w, cap, f);
            let after = before.push(f);
            if n < cap {
                assert(held(w, c) =~= before);
                assert(after.subrange(0, n + 1) =~= after);
            } else {
                assert(held(w, c) =~= before.subrange(n - cap, n));
                assert(held(w, c).drop_first().push(f) =~= after.subrange(n + 1 - cap, n + 1));
            }
        }
    }
}

/// The channels seen after pushes into an empty buffer are exactly the
/// channels of the frames pushed, each once.
pub proof fn law_channels_seen(frames: Seq<TelemetryFrame>, c: (nat, Seq<char>))
    ensures
        distinct_channels(channels_after_pushes(Seq::empty(), frames)),
        has_channel(channels_after_pushes(Seq::empty(), frames), c) <==> exists|j: int|
            0 <= j < frames.len() && (#[trigger] frames[j]).channel@ == c,
    decreases frames.len(),
{
    if frames.len() > 0 {
        let rest = frames.drop_last();
        let f = frames.last();
        law_channels_seen(rest, c);
        law_channels_seen(rest, f.channel@);
        let seen = channels_after_pushes(Seq::empty(), rest);
        let next = channels_after_pushes(Seq::empty(), frames);
        if !has_channel(seen, f.channel@) {
            assert forall|i: int, j: int| 0 <= i < j < next.len() implies (#[trigger] next[i])@
                != (#[trigger] next[j])@ by {
                if j == seen.len() {
                    assert(next[i] == seen[i]);
                } else {
                    assert(seen[i]@ != seen[j]@);
                }
            }
            if has_channel(next, c) {
                let k = choose|k: int| 0 <= k < next.len() && (#[trigger] next[k])@ == c;
                if k < seen.len() {
                    assert(seen[k]@ == c);
                    let j = choose|j: int| 0 <= j < rest.len() && (#[trigger] rest[j]).channel@ == c;
                    assert(frames[j] == rest[j]);
                } else {
                    assert(frames[frames.len() - 1].channel@ == c);
                }
            }
            if exists|j: int| 0 <= j < frames.len() && (#[trigger] frames[j]).channel@ == c {
                let j = choose|j: int| 0 <= j < frames.len() && (#[trigger] frames[j]).channel@ == c;
                if j < rest.len() {
                    assert(rest[j] == frames[j]);
                    let k = choose|k: int| 0 <= k < seen.len() && (#[trigger] seen[k])@ == c;
                    assert(next[k] == seen[k]);
                } else {
                    assert(next[seen.len() as int]@ == c);
                }
            }
        } else {
            if has_channel(next, c) {
                let j = choose|j: int| 0 <= j < rest.len() && (#[trigger] rest[j]).channel@ == c;
                assert(frames[j] == rest[j]);
            }
            if exists|j: int| 0 <= j < frames.len() && (#[trigger] frames[j]).channel@ == c {
                let j = choose|j: int| 0 <= j < frames.len() && (#[trigger] frames[j]).channel@ == c;
                if j < rest.len() {
                    assert(rest[j] == frames[j]);
                }
            }
        }
    }
}

/// In a buffer of positive capacity filled from empty, each channel's
/// statistics count the last `min(n, cap)` of its `n` frames, and its last
/// value and time are those of the last frame pushed on it.
pub proof fn law_stats_follow_last_frame(cap: nat, frames: Seq<TelemetryFrame>, channel: TelemetryChannel)
    requires
        cap > 0,
        held(frames, channel@).len() > 0,
        cap <= u64::MAX,
    ensures
        ({
            let s = summary(channel, window_after_pushes(Seq::empty(), cap, frames));
            let pushed = held(frames, channel@);
            &&& s.count == if pushed.len() < cap {
                pushed.len()
            } else {
                cap
            }
            &&& s.last_value_bits == pushed.last().value_bits
            &&& s.last_ts_us == pushed.last().timestamp_us
        }),
{
    law_window_keeps_latest_per_channel(cap, frames, channel@);
}

/// Finds the entry for `channel` among `stats`.
fn find_channel(stats: &Vec<ChannelStats>, channel: &TelemetryChannel) -> (r: Option<usize>)
    ensures
        match r {
            Some(i) => i < stats@.len() && stats@[i as int].channel@ == channel@,
            None => forall|i: int| 0 <= i < stats@.len() ==> (#[trigger] stats@[i]).channel@ != channel@,
        },
{
    let mut i: usize = 0;
    while i < stats.len()
        invariant
            i <= stats@.len(),
            forall|j: int| 0 <= j < i ==> (#[trigger] stats@[j]).channel@ != channel@,
        decreases stats.len() - i,
    {
        if stats[i].channel.same_channel(channel) {
            return Some(i);
        }
        i = i + 1;
    }
    None
}

/// Computes the statistics of `channel` over `frames`.
fn summarize(frames: &Vec<TelemetryFrame>, channel: TelemetryChannel) -> (s: ChannelStats)
    ensures
        s == summary(channel, frames@),
{
    let ghost c = channel@;
    let mut count: u64 = 0;
    let mut bad_count: u64 = 0;
    let mut last_value_bits: u64 = 0;
    let mut last_ts_us: u64 = 0;
    let mut i: usize = 0;
    proof {
        reveal_with_fuel(Seq::<_>::filter, 1);
        assert(frames@.take(0) =~= Seq::<TelemetryFrame>::empty());
    }
    while i < frames.len()
        invariant
            c == channel@,
            i <= frames@.len(),
            count == held(frames@.take(i as int), c).len(),
            bad_count == frames@.take(i as int).filter(bad_on_channel(c)).len(),
            count <= i,
            bad_count <= i,
            last_value_bits == if count > 0 {
                held(frames@.take(i as int), c).last().value_bits
            } else {
                0
            },
            last_ts_us == if count > 0 {
                held(frames@.take(i as int), c).last().timestamp_us
            } else {
                0
            },
        decreases frames.len() - i,
    {
        let f = &frames[i];
        proof {
            assert(frames@.take(i + 1) =~= frames@.take(i as int).push(frames@[i as int]));
            lemma_filter_push(frames@.take(i as int), frames@[i as int], on_channel(c));
            lemma_filter_push(frames@.take(i as int), frames@[i as int], bad_on_channel(c));
        }
        if f.channel.same_channel(&channel) {
            count = count + 1;
            if f.quality == Quality::Bad {
                bad_count = bad_count + 1;
            }
            last_value_bits = f.value_bits;
            last_ts_us = f.timestamp_us;
        }
        i = i + 1;
    }
    proof {
        assert(frames@.take(frames@.len() as int) =~= frames@);
    }
    ChannelStats { channel, count, last_value_bits, last_ts_us, bad_count }
}

/// The position of the oldest frame of `channel` in `frames`.
fn oldest_of_channel(frames: &Vec<TelemetryFrame>, channel: &TelemetryChannel) -> (p: usize)
    requires
        held(frames@, channel@).len() > 0,
    ensures
        p == first_index(frames@, channel@),
        p < frames@.len(),
{
    proof {
        lemma_first_index(frames@, channel@);
    }
    let mut i: usize = 0;
    while i < frames.len()
        invariant
            i <= first_index(frames@, channel@) < frames@.len(),
            frames@[first_index(frames@, channel@)].channel@ == channel@,
            forall|j: int| 0 <= j < i ==> (#[trigger] frames@[j]).channel@ != channel@,
        decreases frames.len() - i,
    {
        if frames[i].channel.same_channel(channel) {
            proof {
                lemma_first_index_is(frames@, channel@, i as int);
            }
            return i;
        }
        i = i + 1;
    }
    i
}

/// A ring buffer of the last `capacity` frames of each channel, kept in
/// arrival order, with one statistics entry per channel seen, computed over
/// the frames held.
pub struct TelemetryBuffer {
    cap: usize,
    frames: Vec<TelemetryFrame>,
    stats: Vec<ChannelStats>,
}

impl TelemetryBuffer {
    /// The capacity per channel the buffer was created with.
    pub closed spec fn capacity(&self) -> nat {
        self.cap as nat
    }

    /// The frames held, oldest first.
    pub closed spec fn window(&self) -> Seq<TelemetryFrame> {
        self.frames@
    }

    /// The channels that frames were pushed on, in the order they first
    /// appeared.
    pub closed spec fn seen_channels(&self) -> Seq<TelemetryChannel> {
        self.stats@.map_values(|s: ChannelStats| s.channel)
    }

    /// Each channel appears once, each entry summarizes the frames held,
    /// every frame held is on a channel seen, and no channel holds more
    /// than the capacity.
    #[verifier::type_invariant]
    spec fn well_formed(self) -> bool {
        &&& distinct_channels(self.stats@.map_values(|s: ChannelStats| s.channel))
        &&& forall|i: int|
            0 <= i < self.stats@.len() ==> #[trigger] self.stats@[i] == summary(
                self.stats@[i].channel,
                self.frames@,
            )
        &&& forall|j: int|
            0 <= j < self.frames@.len() ==> has_channel(
                self.stats@.map_values(|s: ChannelStats| s.channel),
                (#[trigger] self.frames@[j]).channel@,
            )
        &&& forall|c: (nat, Seq<char>)| #[trigger] held(self.frames@, c).len() <= self.cap
    }

    /// An empty buffer that keeps at most `capacity` frames per channel.
    pub fn new(capacity: usize) -> (b: Self)
        ensures
            b.capacity() == capacity,
            b.window() == Seq::<TelemetryFrame>::empty(),
            b.seen_channels() == Seq::<TelemetryChannel>::empty(),
    {
        let b = TelemetryBuffer { cap: capacity, frames: Vec::new(), stats: Vec::new() };
        proof {
            assert forall|c: (nat, Seq<char>)| #[trigger] held(b.frames@, c).len() <= b.cap by {
                reveal_with_fuel(Seq::<_>::filter, 1);
            }
            assert(b.stats@.map_values(|s: ChannelStats| s.channel) =~= Seq::<
                TelemetryChannel,
            >::empty());
        }
        b
    }

    /// Appends `frame`; when its channel already holds `capacity` frames,
    /// that channel's oldest frame leaves first. With capacity 0 no frame is
    /// kept. The frame's channel gets a statistics entry if it had none.
    pub fn push(&mut self, frame: TelemetryFrame)
        ensures
            final(self).capacity() == old(self).capacity(),
            final(self).window() == window_after_push(
                old(self).window(),
                old(self).capacity(),
                frame,
            ),
            final(self).seen_channels() == channels_after_push(old(self).seen_channels(), frame),
            forall|c: (nat, Seq<char>)| #[trigger]
                held(final(self).window(), c).len() <= final(self).capacity(),
    {
        proof {
            use_type_invariant(&*self);
        }
        let cap = self.cap;
        let mut taken = TelemetryBuffer::new(cap);
        std::mem::swap(&mut taken, self);
        proof {
            use_type_invariant(&taken);
        }
        let TelemetryBuffer { cap: _, mut frames, mut stats } = taken;
        let ghost old_frames = frames@;
        let ghost old_stats = stats@;
        let ghost ch = frame.channel@;
        let ghost seen0 = old_stats.map_values(|s: ChannelStats| s.channel);
        let idx = match find_channel(&stats, &frame.channel) {
            Some(i) => {
                proof {
                    assert(seen0[i as int]@ == ch);
                    assert(has_channel(seen0, ch));
                }
                i
            },
            None => {
                proof {
                    assert(!has_channel(seen0, ch)) by {
                        if has_channel(seen0, ch) {
                            let k = choose|k: int| 0 <= k < seen0.len() && (#[trigger] seen0[k])@ == ch;
                            assert(old_stats[k].channel@ == ch);
                        }
                    }
                    assert forall|j: int| 0 <= j < old_frames.len() implies !on_channel(ch)(
                        #[trigger] old_frames[j],
                    ) by {
                        assert(has_channel(seen0, old_frames[j].channel@));
                    }
                    lemma_filter_none(old_frames, on_channel(ch));
                    assert forall|j: int| 0 <= j < old_frames.len() implies !bad_on_channel(ch)(
                        #[trigger] old_frames[j],
                    ) by {
                        assert(has_channel(seen0, old_frames[j].channel@));
                    }
                    lemma_filter_none(old_frames, bad_on_channel(ch));
                }
                stats.push(ChannelStats::new(frame.channel.clone()));
                proof {
                    assert(stats@[stats@.len() - 1] == summary(frame.channel, old_frames));
                }
                stats.len() - 1
            },
        };
        let ghost mid_stats = stats@;
        if cap > 0 {
            let channel = stats[idx].channel.clone();
            if stats[idx].count >= cap as u64 {
                let p = oldest_of_channel(&frames, &channel);
                frames.remove(p);
            }
            frames.push(frame);
            let s = summarize(&frames, channel);
            stats[idx] = s;
        }
        proof {
            let new_frames = frames@;
            assert(new_frames == window_after_push(old_frames, cap as nat, frame)) by {
                if cap > 0 {
                    assert(held(old_frames, ch).len() <= cap);
                }
            }
            let seen1 = stats@.map_values(|s: ChannelStats| s.channel);
            assert(seen1 =~= channels_after_push(seen0, frame));
            if cap > 0 {
                lemma_held_after_push(old_frames, cap as nat, frame);
            }
            assert forall|i: int| 0 <= i < stats@.len() implies #[trigger] stats@[i] == summary(
                stats@[i].channel,
                new_frames,
            ) by {
                if i != idx {
                    assert(stats@[i] == mid_stats[i]);
                    if i < old_stats.len() {
                        assert(old_stats[i].channel@ != ch) by {
                            if old_stats[i].channel@ == ch {
                                if i < idx {
                                    assert(seen0[i]@ != seen0[idx as int]@);
                                } else {
                                    assert(seen0[idx as int]@ != seen0[i]@);
                                }
                            }
                        }
                    }
                    lemma_other_channel_unchanged(old_frames, cap as nat, frame, stats@[i].channel@);
                    assert(summary(stats@[i].channel, new_frames) == summary(stats@[i].channel, old_frames));
                }
            }
            assert forall|j: int| 0 <= j < new_frames.len() implies has_channel(
                seen1,
                (#[trigger] new_frames[j]).channel@,
            ) by {
                assert(seen1[idx as int]@ == ch);
                if new_frames[j].channel@ != ch {
                    assert(held(new_frames, new_frames[j].channel@) == held(
                        old_frames,
                        new_frames[j].channel@,
                    )) by {
                        lemma_other_channel_unchanged(old_frames, cap as nat, frame, new_frames[j].channel@);
                    }
                    broadcast use vstd::seq_lib::group_filter_ensures;

                    assert(new_frames.contains(new_frames[j]));
                    new_frames.lemma_filter_contains(on_channel(new_frames[j].channel@), j);
                    let f = new_frames[j];
                    assert(held(old_frames, f.channel@).contains(f));
                    old_frames.lemma_filter_contains_rev(on_channel(f.channel@), f);
                    let k = choose|k: int| 0 <= k < old_frames.len() && old_frames[k] == f;
                    assert(has_channel(seen0, old_frames[k].channel@));
                    let m = choose|m: int| 0 <= m < seen0.len() && (#[trigger] seen0[m])@ == f.channel@;
                    assert(seen1[m]@ == f.channel@);
                }
            }
            assert forall|c: (nat, Seq<char>)| #[trigger] held(new_frames, c).len() <= cap by {
                if c != ch {
                    lemma_other_channel_unchanged(old_frames, cap as nat, frame, c);
                    assert(held(old_frames, c).len() <= cap);
                } else if cap > 0 {
                    assert(held(old_frames, ch).len() <= cap);
                }
            }
        }
        *self = TelemetryBuffer { cap, frames, stats };
    }

    /// The last `n` frames held (all of them when fewer are held), oldest
    /// first.
    pub fn recent(&self, n: usize) -> (r: Vec<&TelemetryFrame>)
        ensures
            r@.len() == if n < self.window().len() {
                n as nat
            } else {
                self.window().len()
            },
            forall|i: int|
                0 <= i < r@.len() ==> *r@[i] == self.window()[self.window().len() - r@.len() + i],
    {
        let len = self.frames.len();
        let skip = if len > n {
            len - n
        } else {
            0
        };
        let mut out: Vec<&TelemetryFrame> = Vec::new();
        let mut i: usize = skip;
        while i < len
            invariant
                len == self.frames@.len(),
                skip <= i <= len,
                out@.len() == i - skip,
                forall|k: int| 0 <= k < out@.len() ==> *out@[k] == self.frames@[skip + k],
            decreases len - i,
        {
            out.push(&self.frames[i]);
            i = i + 1;
        }
        out
    }

    /// The statistics, one entry per channel seen, in the order the channels
    /// first appeared, each over the frames held.
    pub fn stats(&self) -> (r: &[ChannelStats])
        ensures
            r@ == stats_summary(self.seen_channels(), self.window()),
    {
        proof {
            use_type_invariant(self);
            assert(self.stats@ =~= stats_summary(self.seen_channels(), self.window()));
        }
        self.stats.as_slice()
    }

    /// Number of frames held, over all channels.
    pub fn len(&self) -> (r: usize)
        ensures
            r == self.window().len(),
    {
        self.frames.len()
    }

    /// Whether no frame is held.
    pub fn is_empty(&self) -> (r: bool)
        ensures
            r == (self.window().len() == 0),
    {
        self.frames.len() == 0
    }
}

} // verus!
