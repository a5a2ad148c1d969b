use sundial::gpu::{binding_guard, wgs, GpuError, MAX_WG, WG};

#[test]
fn workgroups_round_up_and_clamp() {
    assert_eq!(wgs(0), 1);
    assert_eq!(wgs(1), 1);
    assert_eq!(wgs(256), 1);
    assert_eq!(wgs(257), 2);
    assert_eq!(wgs(1_000_000), 3907);
    assert_eq!(wgs((WG * MAX_WG) as usize), MAX_WG);
    assert_eq!(wgs((WG * MAX_WG) as usize + 1), MAX_WG);
}

#[test]
fn workgroups_count_the_low_32_bits() {
    assert_eq!(wgs((1usize << 32) + 300), 2);
}

#[test]
fn gpu_error_messages() {
    assert_eq!(GpuError::NoAdapter.message(), "no suitable GPU adapter (WebGPU unavailable?)");
    assert_eq!(GpuError::Device("lost".into()).message(), "device request failed: lost");
    assert_eq!(
        GpuError::BufferTooLarge { needed_mib: 512, allowed_mib: 128 }.message(),
        "problem needs a 512 MiB buffer but adapter allows 128 MiB"
    );
}

#[test]
fn binding_guard_rounds_up_to_whole_mib() {
    assert_eq!(binding_guard(0, 0), Ok(()));
    assert_eq!(binding_guard(262_144, 1), Ok(())); // exactly 1 MiB
    assert_eq!(
        binding_guard(262_145, 1),
        Err(GpuError::BufferTooLarge { needed_mib: 2, allowed_mib: 1 })
    );
    assert_eq!(
        binding_guard(1, 0),
        Err(GpuError::BufferTooLarge { needed_mib: 1, allowed_mib: 0 })
    );
    assert_eq!(binding_guard(10_000_000, 128), Ok(()));
}
