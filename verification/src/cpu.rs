//! Processor feature detection for the handoff preconditions.

use vstd::prelude::*;

verus! {

#[verifier::external_type_specification]
#[verifier::external_body]
pub struct ExExtendedProcessorFeatureIdentifiers(raw_cpuid::ExtendedProcessorFeatureIdentifiers);

/// Relies on `raw_cpuid::CpuId::new` followed by
/// `CpuId::get_extended_processor_and_feature_identifiers`: reads the
/// extended feature leaf of this processor, if it reports one. The two
/// calls share one wrapper because the intermediate `CpuId` handle is
/// generic over the crate's reader trait and cannot be declared here.
#[verifier::external_body]
fn cpuid_extended_features() -> (r: Option<raw_cpuid::ExtendedProcessorFeatureIdentifiers>) {
    raw_cpuid::CpuId::new().get_extended_processor_and_feature_identifiers()
}

/// Relies on `raw_cpuid::ExtendedProcessorFeatureIdentifiers::has_64bit_mode`:
/// the long-mode capability bit of the leaf.
#[verifier::external_body]
fn epfi_has_64bit_mode(info: &raw_cpuid::ExtendedProcessorFeatureIdentifiers) -> (r: bool) {
    info.has_64bit_mode()
}

/// Whether the processor supports the required 64-bit execution mode.
/// The answer depends on the machine alone; the caller must treat both
/// outcomes as possible.
pub fn long_mode_supported() -> (r: bool) {
    match cpuid_extended_features() {
        Some(info) => epfi_has_64bit_mode(&info),
        None => false,
    }
}

} // verus!
