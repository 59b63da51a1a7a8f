use cuda_lbm::error::D3q19Error;
use cuda_lbm::kernel::{launch_config, specialize, specialized_kernel, LaunchConfig};
use cuda_lbm::lattice::{weight_denominator, CX, CY, CZ};
use cuda_lbm::template::KERNEL_ENTRY;

#[test]
fn specialization_is_complete_and_deterministic() {
    let first = specialized_kernel(64, 256).unwrap();
    let second = specialized_kernel(64, 256).unwrap();
    assert_eq!(first, second);
    for token in ["{{N}}", "{{MASK}}", "{{LOG2_N}}", "{{LOG2_PLANE}}", "{{CELLS}}", "{{BLOCK}}"] {
        assert!(!first.contains(token), "unresolved token {token}");
    }
    assert!(first.contains("#define LBM_CELLS 262144"));
}

#[test]
fn specialization_rejects_non_power_of_two() {
    assert!(specialized_kernel(63, 256).is_err());
}

#[test]
fn specialization_defines_every_parameter() {
    let source = specialized_kernel(64, 256).unwrap();
    for line in [
        "#define LBM_N 64\n",
        "#define LBM_MASK 63\n",
        "#define LBM_LOG2_N 6\n",
        "#define LBM_LOG2_PLANE 12\n",
        "#define LBM_CELLS 262144\n",
        "#define LBM_BLOCK 256\n",
    ] {
        assert!(source.contains(line), "{line}");
    }
    assert!(source.contains("extern \"C\" __global__"));
    assert!(source.contains("void cuda_lbm_step("));
}

#[test]
fn specialization_of_the_smallest_lattice() {
    let source = specialized_kernel(1, 1).unwrap();
    assert!(source.starts_with(
        "#define LBM_N 1\n#define LBM_MASK 0\n#define LBM_LOG2_N 0\n#define LBM_LOG2_PLANE 0\n\
         #define LBM_CELLS 1\n#define LBM_BLOCK 1\n"
    ));
}

#[test]
fn specialization_errors() {
    assert_eq!(specialized_kernel(0, 256), Err(D3q19Error::NotPowerOfTwo));
    assert_eq!(specialized_kernel(96, 256), Err(D3q19Error::NotPowerOfTwo));
    assert!(specialized_kernel(1024, 256).is_ok());
    assert_eq!(specialized_kernel(2048, 256), Err(D3q19Error::TooManyCells));
    assert_eq!(specialized_kernel(1 << 22, 256), Err(D3q19Error::LatticeOverflow));
}

#[test]
fn launches_round_up_to_whole_blocks() {
    let config = LaunchConfig { grid_dim: (1024, 1, 1), block_dim: (256, 1, 1), shared_mem_bytes: 0 };
    assert_eq!(launch_config(262144, 256), config);
    assert_eq!(launch_config(262143, 256), config);
    assert_eq!(launch_config(262145, 256).grid_dim, (1025, 1, 1));
    assert_eq!(launch_config(0, 128).grid_dim, (0, 1, 1));
    assert_eq!(launch_config(0x1_0000_0005, 1).grid_dim, (5, 1, 1));
}

fn table(text: &str, name: &str) -> Vec<i32> {
    let start = text.find(&format!("{name}[LBM_Q] = {{")).unwrap();
    let body = &text[start..];
    let open = body.find('{').unwrap();
    let close = body.find('}').unwrap();
    body[open + 1..close].split(',').map(|v| v.trim().parse().unwrap()).collect()
}

#[test]
fn the_kernel_has_the_directions_of_the_lattice() {
    let text = specialized_kernel(16, 128).unwrap();
    assert_eq!(table(&text, "lbm_cx"), CX.to_vec());
    assert_eq!(table(&text, "lbm_cy"), CY.to_vec());
    assert_eq!(table(&text, "lbm_cz"), CZ.to_vec());
}

#[test]
fn any_text_can_be_specialized() {
    let text = "{{N}} {{MASK}} {{LOG2_N}} {{LOG2_PLANE}} {{CELLS}} {{BLOCK}} {{N}} {{OTHER}}";
    assert_eq!(specialize(text, 64, 256).unwrap(), "64 63 6 12 262144 256 64 {{OTHER}}");
    assert_eq!(specialize("", 1, 0).unwrap(), "");
    assert_eq!(specialize(text, 63, 256), Err(D3q19Error::NotPowerOfTwo));
    assert_eq!(specialize(text, 2048, 256), Err(D3q19Error::TooManyCells));
    assert_eq!(specialize(text, 1 << 22, 256), Err(D3q19Error::LatticeOverflow));
}

#[test]
fn the_kernel_has_the_weights_of_the_lattice_and_its_entry() {
    let text = specialized_kernel(16, 128).unwrap();
    let weight = format!(
        "return q == 0 ? 1.0f / {}.0f : (q <= 6 ? 1.0f / {}.0f : 1.0f / {}.0f);",
        weight_denominator(0),
        weight_denominator(6),
        weight_denominator(18)
    );
    assert!(text.contains(&weight));
    assert!(text.contains(&format!("void {KERNEL_ENTRY}(")));
}
