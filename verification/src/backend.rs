//! Which compute backend a build runs on, and how it is reported.
use vstd::prelude::*;

verus! {

/// A compute backend: the portable CPU one, or the GPU one (on Apple silicon
/// through the dedicated Metal runtime, else through Metal/Vulkan/DX12).
#[derive(Clone, Copy, Debug, PartialEq, Eq)]
pub enum ComputeBackend {
    Cpu,
    Gpu { metal_runtime: bool },
}

impl ComputeBackend {
    /// The human-readable name of the backend.
    pub fn name(&self) -> (s: &'static str)
        ensures
            s@ == match *self {
                ComputeBackend::Cpu => "ndarray (CPU)"@,
                ComputeBackend::Gpu { metal_runtime: true } => "wgpu+fusion (Metal runtime)"@,
                ComputeBackend::Gpu { metal_runtime: false } => "wgpu+fusion (Metal/Vulkan/DX12)"@,
            },
    {
        match self {
            ComputeBackend::Cpu => "ndarray (CPU)",
            ComputeBackend::Gpu { metal_runtime } => {
                if *metal_runtime {
                    "wgpu+fusion (Metal runtime)"
                } else {
                    "wgpu+fusion (Metal/Vulkan/DX12)"
                }
            },
        }
    }
}

/// The name of the backend this build computes on.
pub fn name() -> (s: &'static str)
    ensures
        s@ == "ndarray (CPU)"@,
{
    let b = ComputeBackend::Cpu;
    b.name()
}

} // verus!
