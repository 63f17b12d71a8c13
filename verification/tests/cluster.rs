use dependent_optics::cluster::{CPU_RUNTIME_BYTES, Cluster, Device, DeviceKind, Exec, Home, HomeKind, Hop, HopKind, KERNEL_CODE_BYTES, Kernel, Link, Pass, StageError, compile_mixtral, compile_program, derive_links, route_message};
use dependent_optics::kernel::Program;
use dependent_optics::mixtral::MixtralConfig;

fn cpu(name: &str, buffer: u64, code: u64) -> Device {
    Device {
        name: name.into(),
        kind: DeviceKind::Cpu,
        buffer_bytes: buffer,
        code_bytes: code,
    }
}

fn gpu(name: &str, buffer: u64, code: u64) -> Device {
    Device {
        name: name.into(),
        kind: DeviceKind::Gpu,
        buffer_bytes: buffer,
        code_bytes: code,
    }
}

#[test]
fn demo_stages_on_one_gpu() {
    let cfg = MixtralConfig::demo();
    let cluster = Cluster::devices(vec![gpu("gpu0", 64 << 20, 1 << 20)]);
    let compiled = compile_mixtral(&cfg, 2, 8, &cluster).expect("demo fits");
    compiled
        .plan
        .check(&cluster, dependent_optics::mixtral::parameter_count(&cfg))
        .unwrap();
    assert!(compiled.plan.windows.iter().all(|w| w.device == 0));
    assert!(compiled.gpu_kernels.contains(&Kernel::Linear));
    assert!(compiled.plan.windows.iter().any(|w| w.tape_bytes > 0));
}

#[test]
fn published_mixtral_stages_across_cpu_storage_and_a_small_gpu() {
    let cfg = MixtralConfig::mixtral_8x7b();
    let params = dependent_optics::mixtral::parameter_count(&cfg);
    let cluster = Cluster::devices(vec![
        cpu("cpu0", 256 << 30, 1 << 20),
        gpu("gpu0", 6 << 30, KERNEL_CODE_BYTES),
    ]);
    let compiled = compile_mixtral(&cfg, 1, 1, &cluster).expect("published model stages");
    compiled.plan.check(&cluster, params).unwrap();
    assert!(
        compiled
            .plan
            .homes
            .iter()
            .filter(|h| h.kind == HomeKind::Param)
            .all(|h| h.device == 0),
        "parameter homes sit on the CPU"
    );
    assert!(
        compiled.plan.windows.iter().any(|w| w.device == 1),
        "compute uses the GPU"
    );
    assert!(
        compiled.plan.transfers.iter().any(|t| t.from != t.to),
        "tiles move between the CPU home and the GPU"
    );
    assert!(
        compiled
            .plan
            .windows
            .iter()
            .filter(|w| w.device == 1)
            .any(|w| w.code_phases.len() > 1),
        "the GPU code budget stages kernels into phases"
    );
    let tape: u64 = compiled
        .plan
        .homes
        .iter()
        .filter(|h| h.kind == HomeKind::Tape)
        .map(|h| h.bytes())
        .sum();
    assert_eq!(tape, 0, "layer tapes are released after the layer");
    assert!(compiled.plan.windows.iter().any(|w| w.tape_bytes > 0));
}

#[test]
fn parameter_homes_split_when_no_device_holds_the_buffer() {
    let cfg = MixtralConfig::demo();
    let params = dependent_optics::mixtral::parameter_count(&cfg);
    let bytes = params * 4;
    let cluster = Cluster::devices(vec![
        gpu("gpu0", bytes / 2 + (32 << 10), 1 << 20),
        gpu("gpu1", bytes / 2 + (32 << 10), 1 << 20),
    ]);
    let compiled = compile_mixtral(&cfg, 1, 1, &cluster).expect("split homes");
    compiled.plan.check(&cluster, params).unwrap();
    let mut used = [false; 2];
    for home in compiled
        .plan
        .homes
        .iter()
        .filter(|h| h.kind == HomeKind::Param)
    {
        used[home.device] = true;
    }
    assert!(used[0] && used[1]);
}

#[test]
fn a_cluster_smaller_than_the_parameters_is_rejected() {
    let cfg = MixtralConfig::demo();
    let cluster = Cluster::devices(vec![gpu("gpu0", 1024, 1 << 20)]);
    let err = compile_mixtral(&cfg, 1, 1, &cluster).unwrap_err();
    assert!(matches!(err, StageError::ParamsExceedCluster { .. }));
}

#[test]
fn mlp_tape_and_parameters_share_the_cluster() {
    let prog = Program::mlp(2, &[3, 4, 2]);
    let cluster = Cluster::devices(vec![
        cpu("cpu0", 1 << 20, CPU_RUNTIME_BYTES),
        gpu("gpu0", 1 << 20, 1 << 20),
    ]);
    let compiled = compile_program(&prog, &cluster).expect("mlp stages");
    compiled
        .plan
        .check(&cluster, prog.param_len as u64)
        .unwrap();
    assert!(compiled
        .plan
        .homes
        .iter()
        .any(|h| h.kind == HomeKind::Tape && h.bytes() > 0));
    assert!(compiled.gpu_kernels.contains(&Kernel::GemmFwd));
}

#[test]
fn mixtral_backward_follows_the_residual_adjoint() {
    let cfg = MixtralConfig::demo();
    let cluster = Cluster::devices(vec![gpu("gpu0", 64 << 20, 1 << 20)]);
    let compiled = compile_mixtral(&cfg, 2, 8, &cluster).expect("demo");
    for window in &compiled.plan.windows {
        if window.name.contains("ffn-norm") {
            assert_eq!(window.expert, 1, "{}", window.name);
        } else if window.name.contains("attn-norm") {
            assert_eq!(window.expert, 0, "{}", window.name);
        } else if window.name.starts_with("final-norm") {
            assert_eq!(window.expert, 2, "{}", window.name);
        }
    }
    let mut stems = Vec::new();
    for window in compiled.plan.windows.iter().filter(|w| w.pass == Pass::Bwd) {
        let stem = window.name.split('[').next().unwrap().to_string();
        if stems.last() != Some(&stem) {
            stems.push(stem);
        }
    }
    let mut expect = vec![
        "loss".to_string(),
        "lm-head".to_string(),
        "final-norm".to_string(),
    ];
    for layer in (0..cfg.layers).rev() {
        expect.push(format!("L{layer}-add-moe"));
        expect.push(format!("L{layer}-mix"));
        for expert in (0..cfg.experts).rev() {
            expect.push(format!("L{layer}-down-{expert}"));
            expect.push(format!("L{layer}-silu-{expert}"));
            expect.push(format!("L{layer}-up-{expert}"));
            expect.push(format!("L{layer}-gate-{expert}"));
        }
        expect.push(format!("L{layer}-router-gate"));
        expect.push(format!("L{layer}-router"));
        expect.push(format!("L{layer}-ffn-norm"));
        expect.push(format!("L{layer}-add-attn"));
        expect.push(format!("L{layer}-o"));
        expect.push(format!("L{layer}-gqa"));
        expect.push(format!("L{layer}-rope-k"));
        expect.push(format!("L{layer}-rope-q"));
        expect.push(format!("L{layer}-v"));
        expect.push(format!("L{layer}-k"));
        expect.push(format!("L{layer}-q"));
        expect.push(format!("L{layer}-attn-norm"));
    }
    expect.push("embed".to_string());
    assert_eq!(stems, expect);
    let sgd: Vec<_> = compiled
        .plan
        .windows
        .iter()
        .filter(|w| w.op == Exec::Sgd)
        .collect();
    assert!(sgd.len() > 1, "each parameter home is its own update");
    assert!(sgd.iter().all(|w| w.pass == Pass::Fwd));
    assert!(sgd.iter().all(|w| w.inbound.is_empty() && w.outbound.is_empty()));
}

fn linked(a: usize, b: usize, links: &[Link]) -> bool {
    links.iter().any(|link| {
        (link.a == a && link.b == b) || (link.a == b && link.b == a)
    })
}

fn hops_follow_links(hops: &[Hop], links: &[Link]) {
    for hop in hops {
        assert!(
            linked(hop.from, hop.to, links),
            "hop {} -> {} is not a link",
            hop.from,
            hop.to
        );
    }
}

#[test]
fn derived_topology_connects_a_cpu_fabric_and_its_gpus() {
    let devices = vec![
        cpu("cpu0", 1 << 20, CPU_RUNTIME_BYTES),
        cpu("cpu1", 1 << 20, CPU_RUNTIME_BYTES),
        gpu("gpu0", 1 << 20, 1 << 20),
        gpu("gpu1", 1 << 20, 1 << 20),
        gpu("gpu2", 1 << 20, 1 << 20),
    ];
    let links = derive_links(&devices);
    assert!(linked(0, 1, &links), "cpus share the fabric");
    assert!(linked(2, 0, &links), "first gpu attaches to cpu0");
    assert!(linked(3, 1, &links), "second gpu attaches to cpu1");
    assert!(linked(4, 0, &links), "third gpu attaches to cpu0");
    assert!(linked(2, 4, &links), "gpus on one cpu can reach each other");
    assert!(!linked(2, 3, &links), "gpus on different cpus meet through the fabric");
    let path = route_message(&links, &[1 << 20, 1 << 20, 0, 0, 0], 2, 3, 64).expect("route");
    assert_eq!(path, vec![2, 0, 1, 3]);
}

#[test]
fn a_bridge_smaller_than_the_message_is_not_a_route() {
    let links = vec![Link { a: 0, b: 1 }, Link { a: 1, b: 2 }];
    let err = route_message(&links, &[0, 16, 0], 0, 2, 32).unwrap_err();
    assert!(matches!(err, StageError::RouteUnavailable { bytes: 32, .. }));
    let path = route_message(&links, &[0, 32, 0], 0, 2, 32).expect("fits");
    assert_eq!(path, vec![0, 1, 2]);
}

#[test]
fn pipeline_messages_cover_forward_adjoint_and_local_updates() {
    let cfg = MixtralConfig::demo();
    let cluster = Cluster::devices(vec![
        cpu("cpu0", 64 << 20, CPU_RUNTIME_BYTES),
        gpu("gpu0", 16 << 10, 1 << 20),
    ]);
    let compiled = compile_mixtral(&cfg, 2, 8, &cluster).expect("demo routes");
    let links = &cluster.links;
    assert!(linked(0, 1, links));
    let mut saw_param = false;
    let mut saw_adjoint = false;
    let mut saw_activation = false;
    for window in &compiled.plan.windows {
        hops_follow_links(&window.inbound, links);
        hops_follow_links(&window.outbound, links);
        if window.pass == Pass::Fwd
            && window.inbound.iter().any(|hop| hop.kind == HopKind::Param)
        {
            saw_param = true;
            assert!(window
                .inbound
                .iter()
                .any(|hop| hop.from == window.home && hop.kind == HopKind::Param)
                || window.inbound.iter().any(|hop| hop.kind == HopKind::Param));
        }
        if window.pass == Pass::Bwd
            && window
                .outbound
                .iter()
                .any(|hop| hop.kind == HopKind::Adjoint && hop.to == window.home)
        {
            saw_adjoint = true;
        }
        if window.device != 0
            && window
                .inbound
                .iter()
                .any(|hop| hop.kind == HopKind::Activation)
            && window
                .outbound
                .iter()
                .any(|hop| hop.kind == HopKind::Activation)
        {
            saw_activation = true;
        }
        if window.op == Exec::Sgd {
            assert!(window.inbound.is_empty() && window.outbound.is_empty());
            assert_eq!(window.device, window.home);
        }
    }
    assert!(saw_param, "forward sends parameters to the compute device");
    assert!(saw_adjoint, "backward returns the adjoint to the home");
    assert!(saw_activation, "activations move along the fabric");
    let mut order = Vec::new();
    for window in &compiled.plan.windows {
        for hop in &window.inbound {
            order.push(hop.kind);
        }
        order.push(if window.op == Exec::Sgd {
            HopKind::Param
        } else if window.pass == Pass::Bwd {
            HopKind::Adjoint
        } else {
            HopKind::Activation
        });
        for hop in &window.outbound {
            order.push(hop.kind);
        }
    }
    let update_at = order.iter().rposition(|kind| *kind == HopKind::Param).unwrap();
    let adjoint_at = order.iter().position(|kind| *kind == HopKind::Adjoint).unwrap();
    assert!(adjoint_at < update_at, "updates follow the adjoint");
}

#[test]
fn an_unreachable_compute_device_is_rejected() {
    let cfg = MixtralConfig::demo();
    let params = dependent_optics::mixtral::parameter_count(&cfg) * 4;
    let cluster = Cluster::linked(
        vec![
            gpu("store", params + (1 << 20), 0),
            gpu("run", 1 << 20, 1 << 20),
        ],
        vec![],
    );
    let err = compile_mixtral(&cfg, 2, 8, &cluster).unwrap_err();
    assert!(
        matches!(err, StageError::RouteUnavailable { .. }),
        "{err:?}"
    );
    let linked = Cluster::linked(
        vec![
            gpu("store", params + (1 << 20), 0),
            gpu("run", 1 << 20, 1 << 20),
        ],
        vec![Link { a: 0, b: 1 }],
    );
    let compiled = compile_mixtral(&cfg, 2, 8, &linked).expect("one link is enough");
    assert!(compiled.plan.windows.iter().any(|window| {
        window.home != window.device
            && window
                .inbound
                .iter()
                .any(|hop| hop.kind == HopKind::Param)
    }));
}
