//! Clocks: the hybrid logical clock that orders intents, and the dual-clock
//! timestamp that a delta carries.

use vstd::prelude::*;

use crate::ids::lemma_split_unique;
use crate::ids::NodeId;
use crate::ordered_map::OrderedKey;

verus! {

/// A hybrid logical clock reading. Readings are ordered by wall-clock
/// milliseconds, then by logical counter, then by node.
#[derive(Clone, Copy, Debug, PartialEq, Eq, PartialOrd, Ord, Hash, Structural)]
pub struct HybridLogicalClock {
    /// Milliseconds of the physical component.
    pub physical_ms: u64,
    /// Counter that separates readings of one millisecond.
    pub logical: u32,
    /// The node that took the reading.
    pub node_id: NodeId,
}

/// How well the node's clock was synchronised.
#[derive(Clone, Copy, Debug, PartialEq, Eq, Hash, Structural)]
pub enum ClockQuality {
    /// Synchronised by NTP.
    Ntp,
    /// Synchronised by PTP.
    Ptp,
    /// Synchronised by GPS.
    Gps,
    /// Not synchronised.
    Unsync,
}

/// A wall-clock reading with its time zone.
#[derive(Debug, PartialEq, Eq)]
pub struct WallTime {
    /// Milliseconds since the Unix epoch.
    pub millis_since_epoch: u64,
    /// Name of the time zone.
    pub timezone: String,
}

/// The two clocks of a delta.
#[derive(Debug, PartialEq, Eq)]
pub struct DeltaTimestamp {
    /// The clock that orders.
    pub hlc: HybridLogicalClock,
    /// The clock that people read.
    pub wall: WallTime,
    /// How far the wall clock can be relied on.
    pub quality: ClockQuality,
}

/// What a [`DeltaTimestamp`] holds.
#[verifier::ext_equal]
pub struct TimestampView {
    pub hlc: HybridLogicalClock,
    pub millis: u64,
    pub timezone: Seq<char>,
    pub quality: ClockQuality,
}

impl View for DeltaTimestamp {
    type V = TimestampView;

    open spec fn view(&self) -> TimestampView {
        TimestampView {
            hlc: self.hlc,
            millis: self.wall.millis_since_epoch,
            timezone: self.wall.timezone@,
            quality: self.quality,
        }
    }
}

impl Clone for DeltaTimestamp {
    fn clone(&self) -> (r: Self)
        ensures
            r@ == self@,
    {
        DeltaTimestamp {
            hlc: self.hlc,
            wall: WallTime {
                millis_since_epoch: self.wall.millis_since_epoch,
                timezone: self.wall.timezone.clone(),
            },
            quality: self.quality,
        }
    }
}

/// Position of a clock reading in the order of readings.
pub open spec fn hlc_rank(c: HybridLogicalClock) -> int {
    (c.physical_ms as int * 0x1_0000_0000 + c.logical as int) * 0x1_0000_0000_0000_0000
        + c.node_id.0 as int
}

impl OrderedKey for HybridLogicalClock {
    open spec fn rank(self) -> int {
        hlc_rank(self)
    }

    proof fn rank_injective(a: Self, b: Self) {
        assert(a.rank() == hlc_rank(a) && b.rank() == hlc_rank(b));
        lemma_split_unique(
            a.physical_ms as int * 0x1_0000_0000 + a.logical as int,
            a.node_id.0 as int,
            b.physical_ms as int * 0x1_0000_0000 + b.logical as int,
            b.node_id.0 as int,
            0x1_0000_0000_0000_0000,
        );
        lemma_split_unique(
            a.physical_ms as int,
            a.logical as int,
            b.physical_ms as int,
            b.logical as int,
            0x1_0000_0000,
        );
    }

    fn before(&self, other: &Self) -> (r: bool) {
        if self.physical_ms != other.physical_ms {
            self.physical_ms < other.physical_ms
        } else if self.logical != other.logical {
            self.logical < other.logical
        } else {
            self.node_id.0 < other.node_id.0
        }
    }
}

/// The timestamp that a replica gives a delta it applies at `log_index`: every
/// replica derives the same one, from the log position alone.
pub open spec fn applied_timestamp(log_index: u64) -> TimestampView {
    TimestampView {
        hlc: HybridLogicalClock { physical_ms: log_index, logical: 0, node_id: NodeId(0) },
        millis: log_index,
        timezone: "UTC"@,
        quality: ClockQuality::Ntp,
    }
}

/// Builds the timestamp of a delta applied at `log_index`.
pub fn timestamp_at(log_index: u64) -> (r: DeltaTimestamp)
    ensures
        r@ == applied_timestamp(log_index),
{
    DeltaTimestamp {
        hlc: HybridLogicalClock { physical_ms: log_index, logical: 0, node_id: NodeId(0) },
        wall: WallTime { millis_since_epoch: log_index, timezone: "UTC".to_owned() },
        quality: ClockQuality::Ntp,
    }
}

} // verus!
