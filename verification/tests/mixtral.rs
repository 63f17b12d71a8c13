use dependent_optics::cluster::{
    Cluster, Device, DeviceKind, StageError, CPU_RUNTIME_BYTES, KERNEL_CODE_BYTES,
};
use dependent_optics::mixtral::{
    demo_batch, demo_probes, emit_cuda, layout, parameter_count, visible, EmitError, MixtralConfig,
};

const KEYS: [&str; 30] = [
    "PROBES", "STEPS", "KINDS", "ROUTER", "GATE", "DOWN", "VOFF", "TOPK", "SCRATCH", "WINDOW",
    "THETA", "NDEV", "SEQ", "EPS", "KV", "HD", "UP", "LM", "LR", "Q", "K", "O", "L", "H", "E", "I",
    "D", "V", "B", "P",
];

/// A program with one line for each place.
fn template() -> String {
    let mut t = String::new();
    for key in KEYS {
        match key {
            "THETA" | "EPS" | "LR" => {
                t.push_str(&format!("constexpr float {key} = @@{key}@@;\n"));
            }
            "STEPS" => t.push_str("const Step STEPS[] = {\n@@STEPS@@\n};\n"),
            "KINDS" => t.push_str("const int KINDS[] = { @@KINDS@@ };\n"),
            "NDEV" => t.push_str("constexpr int NDEV = @@NDEV@@;\n"),
            "PROBES" | "ROUTER" | "GATE" | "DOWN" | "VOFF" | "UP" | "Q" | "K" | "O" => {
                t.push_str(&format!("const ull {key}_AT[] = {{ @@{key}@@ }};\n"));
            }
            _ => t.push_str(&format!("constexpr ull {key} = @@{key}@@;\n")),
        }
    }
    t.push_str("k_gqa_fwd k_gqa_bwd k_rmsnorm_bwd k_sgd k_router k_silu_bwd\n");
    t
}

fn run_cluster() -> Cluster {
    Cluster::devices(vec![
        Device {
            name: "cpu0".into(),
            kind: DeviceKind::Cpu,
            buffer_bytes: 64 << 20,
            code_bytes: CPU_RUNTIME_BYTES,
        },
        Device {
            name: "gpu0".into(),
            kind: DeviceKind::Gpu,
            buffer_bytes: 16 << 10,
            code_bytes: 1 << 20,
        },
    ])
}

fn emitted(template: &str, cluster: &Cluster) -> Result<String, EmitError> {
    let c = MixtralConfig::demo();
    let (batch, seq, _, _) = demo_batch(&c);
    emit_cuda(
        template,
        &c,
        batch,
        seq,
        &demo_probes(&c),
        cluster,
        "1000000.f",
        "1e-5f",
        "0.05f",
    )
}

#[test]
fn published_mixtral_8x7b_parameter_count() {
    let n = parameter_count(&MixtralConfig::mixtral_8x7b());
    assert!(
        (46_500_000_000..47_000_000_000).contains(&n),
        "published count {n}"
    );
}

#[test]
fn the_published_count_is_exact() {
    assert_eq!(parameter_count(&MixtralConfig::mixtral_8x7b()), 46_702_792_704);
    assert_eq!(parameter_count(&MixtralConfig::demo()), 45_472);
}

#[test]
fn cuda_source_is_specialized_to_the_demo() {
    let c = MixtralConfig::demo();
    let src = emitted(&template(), &run_cluster()).unwrap();
    assert!(!src.contains("@@"), "unreplaced placeholder");
    assert!(src.contains("constexpr ull D = 32ull;"));
    assert!(src.contains("constexpr ull E = 4ull;"));
    assert!(src.contains("constexpr ull L = 2ull;"));
    assert!(src.contains("constexpr ull SEQ = 8ull;"));
    assert!(src.contains("constexpr float LR = 0.05f;"));
    assert!(src.contains(&format!("constexpr ull P = {}ull;", layout(&c).total)));
    assert!(src.contains("const Step STEPS[]"));
    assert!(src.contains("k_gqa_fwd"));
    assert!(src.contains("k_gqa_bwd"));
    assert!(src.contains("k_rmsnorm_bwd"));
    assert!(src.contains("k_sgd"));
    assert!(src.contains("k_router"));
    assert!(src.contains("k_silu_bwd"));
}

#[test]
fn the_source_lists_devices_offsets_and_steps() {
    let c = MixtralConfig::demo();
    let cluster = run_cluster();
    let src = emitted(&template(), &cluster).unwrap();
    let lay = layout(&c);
    assert!(src.contains("const int KINDS[] = { 0, 1 };\n"));
    assert!(src.contains("constexpr int NDEV = 2;\n"));
    assert!(src.contains("constexpr float THETA = 1000000.f;\n"));
    assert!(src.contains("constexpr float EPS = 1e-5f;\n"));
    assert!(src.contains("constexpr ull WINDOW = 4ull;\n"));
    assert!(src.contains("constexpr ull TOPK = 2ull;\n"));
    assert!(src.contains("constexpr ull KV = 2ull;\n"));
    assert!(src.contains(&format!(
        "const ull Q_AT[] = {{ {}ull, {}ull }};\n",
        lay.layers[0].q, lay.layers[1].q
    )));
    assert!(src.contains(&format!(
        "const ull GATE_AT[] = {{ {{ {}ull, {}ull, {}ull, {}ull }}, {{",
        lay.layers[0].gate[0], lay.layers[0].gate[1], lay.layers[0].gate[2], lay.layers[0].gate[3]
    )));
    let plan = dependent_optics::cluster::compile_mixtral(&c, 2, 8, &cluster)
        .unwrap()
        .plan;
    let first = &plan.windows[0];
    let mut lines: Vec<String> = first
        .inbound
        .iter()
        .map(|hop| {
            format!(
                "{{{}, {}, 2, 14, {}ull, {}ull, {}ull, {}ull, {}ull, {}ull, {}ull, 0ull, {}ull, {}, 0}}",
                hop.to,
                hop.from,
                hop.offset,
                hop.elems,
                hop.bytes,
                hop.row_begin,
                hop.row_end,
                hop.col_begin,
                hop.col_end,
                hop.stride,
                hop.kind.code()
            )
        })
        .collect();
    lines.push(format!(
        "{{{}, {}, 0, {}, {}ull, {}ull, {}ull, {}ull, {}ull, {}ull, {}ull, {}ull, {}ull, {}, {}}}",
        first.device,
        first.home,
        first.op.code(),
        first.param_offset,
        first.batch_begin,
        first.batch_end,
        first.row_begin,
        first.row_end,
        first.col_begin,
        first.col_end,
        first.din,
        first.dout,
        first.layer,
        first.expert
    ));
    assert!(src.contains(&format!("const Step STEPS[] = {{\n{}", lines.join(",\n"))));
    let scratch = plan.windows.iter().map(|w| w.resident_bytes).max().unwrap();
    assert!(src.contains(&format!("constexpr ull SCRATCH = {scratch}ull;\n")));
}

#[test]
fn the_published_model_is_lowered_at_its_full_length() {
    let c = MixtralConfig::mixtral_8x7b();
    let n = parameter_count(&c);
    assert!(n > i32::MAX as u64, "published count {n}");
    let lay = layout(&c);
    let cluster = Cluster::devices(vec![
        Device {
            name: "cpu0".into(),
            kind: DeviceKind::Cpu,
            buffer_bytes: 256 << 30,
            code_bytes: CPU_RUNTIME_BYTES,
        },
        Device {
            name: "gpu0".into(),
            kind: DeviceKind::Gpu,
            buffer_bytes: 6 << 30,
            code_bytes: KERNEL_CODE_BYTES,
        },
    ]);
    let src = emit_cuda(
        &template(),
        &c,
        1,
        1,
        &[0, lay.lm_head, lay.total - 1],
        &cluster,
        "1000000.f",
        "1e-5f",
        "0.05f",
    )
    .unwrap();
    assert!(
        src.contains(&format!("constexpr ull P = {n}ull;")),
        "published length missing"
    );
}

#[test]
fn a_template_without_a_place_is_refused() {
    let short = template().replace("@@TOPK@@", "2ull");
    let err = emitted(&short, &run_cluster()).unwrap_err();
    assert!(matches!(err, EmitError::Missing(key) if key == "@@TOPK@@"));
}

#[test]
fn a_template_with_an_unknown_place_is_refused() {
    let long = template() + "@@WIDTH@@\n";
    let err = emitted(&long, &run_cluster()).unwrap_err();
    assert!(matches!(err, EmitError::Unfilled));
}

#[test]
fn a_cluster_that_cannot_hold_the_model_has_no_source() {
    let cluster = Cluster::devices(vec![Device {
        name: "gpu0".into(),
        kind: DeviceKind::Gpu,
        buffer_bytes: 1024,
        code_bytes: 1 << 20,
    }]);
    let err = emitted(&template(), &cluster).unwrap_err();
    assert!(matches!(
        err,
        EmitError::Stage(StageError::ParamsExceedCluster { .. })
    ));
}

#[test]
fn the_demo_layout_is_contiguous() {
    let c = MixtralConfig::demo();
    let lay = layout(&c);
    assert_eq!(lay.embed, 0);
    assert_eq!(lay.layers.len(), 2);
    let a = &lay.layers[0];
    assert_eq!(a.attn_norm, 32 * 32);
    assert_eq!(a.q, a.attn_norm + 32);
    assert_eq!(a.k, a.q + 32 * 32);
    assert_eq!(a.v, a.k + 32 * 16);
    assert_eq!(a.o, a.v + 32 * 16);
    assert_eq!(a.ffn_norm, a.o + 32 * 32);
    assert_eq!(a.router, a.ffn_norm + 32);
    assert_eq!(a.gate[0], a.router + 32 * 4);
    for e in 0..4 {
        assert_eq!(a.up[e], a.gate[e] + 32 * 48);
        assert_eq!(a.down[e], a.up[e] + 32 * 48);
        if e < 3 {
            assert_eq!(a.gate[e + 1], a.down[e] + 48 * 32);
        }
    }
    assert_eq!(lay.layers[1].attn_norm, a.down[3] + 48 * 32);
    assert_eq!(lay.final_norm, lay.layers[1].down[3] + 48 * 32);
    assert_eq!(lay.lm_head, lay.final_norm + 32);
    assert_eq!(lay.total, lay.lm_head + 32 * 32);
}

#[test]
fn attention_widths_and_the_sliding_window() {
    let c = MixtralConfig::demo();
    assert_eq!((c.q_dim(), c.kv_dim(), c.group()), (32, 16, 2));
    let m = MixtralConfig::mixtral_8x7b();
    assert_eq!((m.q_dim(), m.kv_dim(), m.group()), (4096, 1024, 4));
    assert!(visible(&c, 5, 5));
    assert!(visible(&c, 5, 2));
    assert!(!visible(&c, 5, 1), "four keys are in view");
    assert!(!visible(&c, 5, 6), "attention is causal");
}

#[test]
fn the_demo_batch_and_its_probes() {
    let c = MixtralConfig::demo();
    let (batch, seq, tokens, targets) = demo_batch(&c);
    assert_eq!((batch, seq), (2, 8));
    assert_eq!(
        tokens,
        vec![1, 6, 11, 16, 21, 26, 31, 4, 9, 14, 19, 24, 29, 2, 7, 12]
    );
    assert_eq!(
        targets,
        vec![4, 9, 14, 19, 24, 29, 2, 7, 12, 17, 22, 27, 0, 5, 10, 15]
    );
    let lay = layout(&c);
    let probes = demo_probes(&c);
    assert_eq!(probes.len(), 14);
    assert_eq!(probes[0], 3);
    assert_eq!(probes[9], lay.layers[0].up[3] + 3);
    assert_eq!(probes[11], lay.layers[1].gate[3] + 7);
    assert_eq!(probes[13], lay.lm_head + 9);
    assert!(probes.iter().all(|p| *p < lay.total));
}

#[test]
fn places_are_filled_one_after_the_other() {
    // A single mark in front of a place stays.
    let src = emitted(&(template() + "@@@TOPK@@\n"), &run_cluster()).unwrap();
    assert!(src.ends_with("@2ull\n"));
    // The earlier place of two that share their marks is filled, and half of
    // the other is left.
    let err = emitted(&(template() + "@@B@@TOPK@@\n"), &run_cluster()).unwrap_err();
    assert!(matches!(err, EmitError::Unfilled));
}
