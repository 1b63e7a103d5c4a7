//! What the monitor shows of byte counts and durations, before it is
//! painted for the terminal.

use vstd::prelude::*;

verus! {

/// 2^10 bytes.
pub const KB: u64 = 1024;

/// 2^20 bytes.
pub const MB: u64 = 1_048_576;

/// 2^30 bytes.
pub const GB: u64 = 1_073_741_824;

/// 2^40 bytes.
pub const TB: u64 = 1_099_511_627_776;

/// The unit in which a byte count is shown.
#[derive(Clone, Copy, Debug, PartialEq, Eq, Structural)]
pub enum ByteUnit {
    B,
    KB,
    MB,
    GB,
    TB,
}

/// How a byte count is shown: divided by `factor`, with `decimals` digits
/// behind the point, followed by `unit`.
#[derive(Clone, Copy, Debug, PartialEq, Eq, Structural)]
pub struct ByteScale {
    pub factor: u64,
    pub unit: ByteUnit,
    pub decimals: usize,
}

/// The largest unit that `bytes` reaches. Plain bytes are shown without
/// decimals, every other unit with one.
pub open spec fn byte_scale(bytes: u64) -> ByteScale {
    if bytes >= TB {
        ByteScale { factor: TB, unit: ByteUnit::TB, decimals: 1 }
    } else if bytes >= GB {
        ByteScale { factor: GB, unit: ByteUnit::GB, decimals: 1 }
    } else if bytes >= MB {
        ByteScale { factor: MB, unit: ByteUnit::MB, decimals: 1 }
    } else if bytes >= KB {
        ByteScale { factor: KB, unit: ByteUnit::KB, decimals: 1 }
    } else {
        ByteScale { factor: 1, unit: ByteUnit::B, decimals: 0 }
    }
}

/// The fields of a duration as they are shown. Hours appear when there are
/// any; minutes appear when there are hours or minutes.
#[derive(Clone, Copy, Debug, PartialEq, Eq, Structural)]
pub struct DurationFields {
    pub hours: Option<u64>,
    pub minutes: Option<u64>,
    pub seconds: u64,
}

/// The fields of a duration of `secs` whole seconds.
pub open spec fn duration_fields(secs: u64) -> DurationFields {
    let hours = secs / 3600;
    let minutes = (secs % 3600) / 60;
    DurationFields {
        hours: if hours > 0 {
            Some(hours as u64)
        } else {
            None
        },
        minutes: if hours > 0 || minutes > 0 {
            Some(minutes as u64)
        } else {
            None
        },
        seconds: (secs % 60) as u64,
    }
}

/// The fields of a duration add up to it: minutes and seconds stay below 60,
/// and a field that is not shown is zero.
pub proof fn lemma_duration_fields_sum(secs: u64)
    ensures
        duration_fields(secs).seconds < 60,
        duration_fields(secs).minutes matches Some(m) ==> m < 60,
        (match duration_fields(secs).hours {
            Some(h) => h,
            None => 0,
        }) * 3600 + (match duration_fields(secs).minutes {
            Some(m) => m,
            None => 0,
        }) * 60 + duration_fields(secs).seconds == secs,
{
}

/// Chooses the unit, the divisor and the number of decimals with which a
/// byte count is shown.
pub fn format_bytes(bytes: u64) -> (scale: ByteScale)
    ensures
        scale == byte_scale(bytes),
{
    if bytes >= TB {
        ByteScale { factor: TB, unit: ByteUnit::TB, decimals: 1 }
    } else if bytes >= GB {
        ByteScale { factor: GB, unit: ByteUnit::GB, decimals: 1 }
    } else if bytes >= MB {
        ByteScale { factor: MB, unit: ByteUnit::MB, decimals: 1 }
    } else if bytes >= KB {
        ByteScale { factor: KB, unit: ByteUnit::KB, decimals: 1 }
    } else {
        ByteScale { factor: 1, unit: ByteUnit::B, decimals: 0 }
    }
}

/// Splits a duration of `secs` whole seconds into the fields that are shown.
pub fn format_duration(secs: u64) -> (fields: DurationFields)
    ensures
        fields == duration_fields(secs),
{
    let mut time: u64 = secs;
    let hours: u64 = time / 3600;
    time -= hours * 3600;
    let minutes: u64 = time / 60;
    time -= minutes * 60;
    let seconds: u64 = time;
    DurationFields {
        hours: if hours > 0 {
            Some(hours)
        } else {
            None
        },
        minutes: if hours > 0 || minutes > 0 {
            Some(minutes)
        } else {
            None
        },
        seconds,
    }
}

} // verus!
