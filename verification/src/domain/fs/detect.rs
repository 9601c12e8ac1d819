//! What to make of what the operating system tells of a volume.

use crate::domain::fs::{is_cross_device, IoError};
use crate::domain::volume::{
    conservative_volume, ComponentLimit, NoReplaceStrategy, VolumeSemantics,
};
use vstd::prelude::*;

verus! {

/// The magic numbers of local file systems that keep names as they are: ext4,
/// btrfs, tmpfs and XFS.
pub open spec fn keeps_names(magic: u32) -> bool {
    magic == 0xEF53u32 || magic == 0x9123_683Eu32 || magic == 0x0102_1994u32 || magic
        == 0x5846_5342u32
}

/// The magic numbers of FAT and exFAT.
pub open spec fn folds_names(magic: u32) -> bool {
    magic == 0x4D44u32 || magic == 0x2011_BAB0u32
}

/// Whether a file system tells letter case apart, and compositions, by its
/// magic number. Nothing is known of network and passthrough mounts: the far
/// end could be anything.
pub fn sensitivity_of(magic: u32) -> (r: Option<(bool, bool)>)
    ensures
        r == (if keeps_names(magic) {
            Some((true, true))
        } else if folds_names(magic) {
            Some((false, false))
        } else {
            None
        }),
{
    if magic == 0xEF53u32 || magic == 0x9123_683Eu32 || magic == 0x0102_1994u32 || magic
        == 0x5846_5342u32 {
        Some((true, true))
    } else if magic == 0x4D44u32 || magic == 0x2011_BAB0u32 {
        Some((false, false))
    } else {
        None
    }
}

/// A limit that was measured, or another where none was or it makes no sense.
pub open spec fn limit_or(measured: Option<i64>, fallback: u32) -> u32 {
    match measured {
        Some(n) if 0 < n <= u32::MAX => n as u32,
        _ => fallback,
    }
}

/// A limit that was measured, or another where none was or it makes no sense.
fn usable_limit(measured: Option<i64>, fallback: u32) -> (r: u32)
    ensures
        r == limit_or(measured, fallback),
{
    match measured {
        Some(n) => if 0 < n && n <= 4294967295 {
            n as u32
        } else {
            fallback
        },
        None => fallback,
    }
}

/// The semantics of a volume, from what was measured of it. Where its
/// sensitivity is not known the conservative case counts, but the limits that
/// were measured stand.
pub fn detect_volume_semantics(
    name_max: Option<i64>,
    path_max: Option<i64>,
    sensitivity: Option<(bool, bool)>,
) -> (r: VolumeSemantics)
    ensures
        r == (VolumeSemantics {
            case_sensitive: sensitivity matches Some(s) && s.0,
            normalisation_sensitive: sensitivity matches Some(s) && s.1,
            max_component: ComponentLimit::Bytes(limit_or(name_max, 255)),
            max_total: limit_or(path_max, 4096),
        }),
{
    let (case_sensitive, normalisation_sensitive) = match sensitivity {
        Some(s) => s,
        None => (false, false),
    };
    VolumeSemantics {
        case_sensitive,
        normalisation_sensitive,
        max_component: ComponentLimit::Bytes(usable_limit(name_max, 255)),
        max_total: usable_limit(path_max, 4096),
    }
}

/// Default per-volume strategy selection: reservation where nothing is known
/// of the volume, or no more than the conservative case has.
pub fn default_no_replace_strategy(
    volume: &VolumeSemantics,
    sensitivity: Option<(bool, bool)>,
) -> (r: NoReplaceStrategy)
    ensures
        r == (if sensitivity is None || *volume == conservative_volume() {
            NoReplaceStrategy::Reserve
        } else {
            NoReplaceStrategy::Native
        }),
{
    let known = match sensitivity {
        Some(_) => true,
        None => false,
    };
    if !known || *volume == VolumeSemantics::conservative() {
        NoReplaceStrategy::Reserve
    } else {
        NoReplaceStrategy::Native
    }
}

/// Whether a failed rename means that the file system has no rename that never
/// replaces, so that a link and a removal have to do.
pub fn lacks_rename_no_replace(e: &IoError) -> (r: bool)
    ensures
        r == (!e.deep_view().crosses_devices() && (e.raw_os == Some(22i32) || e.raw_os == Some(
            95i32,
        ) || e.raw_os == Some(38i32))),
{
    if is_cross_device(e) {
        return false;
    }
    match e.raw_os {
        Some(c) => c == 22 || c == 95 || c == 38,
        None => false,
    }
}

} // verus!
