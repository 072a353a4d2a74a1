//! Format versions and feature bits.

use vstd::prelude::*;

verus! {

/// The format version that this build writes.
pub const CURRENT_VERSION: u32 = 2;

/// The image holds extended attributes.
pub const FS_FEATURE_XATTR: u64 = 1;

/// The image holds clones.
pub const FS_FEATURE_REFLINK: u64 = 2;

/// All feature bits that this build knows.
pub const KNOWN_FEATURES: u64 = 3;

/// Whether this build understands images of the version.
pub fn is_safe_to_mount(version: u32) -> (r: bool)
    ensures
        r == (version <= CURRENT_VERSION),
{
    version <= CURRENT_VERSION
}

/// The feature bits that this build does not know.
pub open spec fn unknown_bits(features: u64) -> u64 {
    features & !KNOWN_FEATURES
}

/// The feature bits that this build does not know.
pub fn unknown_features(features: u64) -> (r: u64)
    ensures
        r == unknown_bits(features),
{
    features & !KNOWN_FEATURES
}

/// Whether an image of the version, with the features, can be mounted.
pub fn is_mountable(version: u32, features: u64) -> (r: bool)
    ensures
        r == (version <= CURRENT_VERSION && unknown_bits(features) == 0),
        r == (version <= 2 && features <= 3),
{
    proof {
        only_two_features_are_known(features);
    }
    is_safe_to_mount(version) && unknown_features(features) == 0
}

/// The features of attributes and of clones, each or both, are known, and no
/// other is.
pub proof fn only_two_features_are_known(features: u64)
    ensures
        unknown_bits(features) == 0 <==> features <= 3,
        unknown_bits(features) & 3 == 0,
        unknown_bits(features) | (features & 3) == features,
{
    assert(features & !3u64 == 0 <==> features <= 3) by (bit_vector);
    assert((features & !3u64) & 3 == 0 && (features & !3u64) | (features & 3) == features)
        by (bit_vector);
}

} // verus!
