use dependent_optics::cluster::{
    compile_mixtral, compile_program, derive_links, rectangle, route_message, stage_mixtral,
    stage_program, Cluster, Device, DeviceKind, Exec, Home, HomeKind, HopKind, Kernel, Link, Pass,
    StageError, StagePlan, CPU_RUNTIME_BYTES, KERNEL_CODE_BYTES,
};
use dependent_optics::kernel::Program;
use dependent_optics::mixtral::{parameter_count, MixtralConfig};
use dependent_optics::text;

fn device(name: &str, kind: DeviceKind, buffer: u64, code: u64) -> Device {
    Device {
        name: name.into(),
        kind,
        buffer_bytes: buffer,
        code_bytes: code,
    }
}

fn cpu(name: &str, buffer: u64, code: u64) -> Device {
    device(name, DeviceKind::Cpu, buffer, code)
}

fn gpu(name: &str, buffer: u64, code: u64) -> Device {
    device(name, DeviceKind::Gpu, buffer, code)
}

fn demo_plan() -> (Cluster, StagePlan, u64) {
    let cfg = MixtralConfig::demo();
    let cluster = Cluster::devices(vec![
        cpu("cpu0", 64 << 20, CPU_RUNTIME_BYTES),
        gpu("gpu0", 16 << 10, 1 << 20),
    ]);
    let plan = compile_mixtral(&cfg, 2, 8, &cluster).unwrap().plan;
    (cluster, plan, parameter_count(&cfg))
}

#[test]
fn a_cluster_without_devices_has_no_plan() {
    let cluster = Cluster::devices(Vec::new());
    assert!(cluster.links.is_empty());
    assert_eq!(
        compile_mixtral(&MixtralConfig::demo(), 1, 1, &cluster).unwrap_err(),
        StageError::NoDevice
    );
    assert_eq!(
        compile_program(&Program::mlp(1, &[1, 1]), &cluster).unwrap_err(),
        StageError::NoDevice
    );
    // No size is computed where there is nothing to place it on.
    assert_eq!(
        compile_mixtral(&MixtralConfig::demo(), u64::MAX, u64::MAX, &cluster).unwrap_err(),
        StageError::NoDevice
    );
}

#[test]
fn too_many_parameters_are_counted() {
    let cfg = MixtralConfig::demo();
    let cluster = Cluster::devices(vec![gpu("gpu0", 1024, 1 << 20), cpu("cpu0", 10, 0)]);
    assert_eq!(
        stage_mixtral(&cfg, 1, 1, &cluster).unwrap_err(),
        StageError::ParamsExceedCluster {
            params: parameter_count(&cfg) * 4,
            capacity: 1034,
        }
    );
}

#[test]
fn the_tape_counts_towards_the_capacity() {
    // Parameters take 6 elements of 4 bytes, and the tape 2 elements.
    let prog = Program::mlp(1, &[2, 2]);
    assert_eq!((prog.param_len, prog.tape_f32, prog.tape_u8), (6, 2, 0));
    let cluster = Cluster::devices(vec![gpu("gpu0", 28, 1 << 20)]);
    assert_eq!(
        stage_program(&prog, &cluster).unwrap_err(),
        StageError::ParamsExceedCluster {
            params: 32,
            capacity: 28
        }
    );
}

#[test]
fn an_element_that_no_device_can_hold_is_refused() {
    let prog = Program::mlp(1, &[2, 2]);
    let devices = (0..11).map(|i| gpu(&format!("gpu{i}"), 3, 1 << 20)).collect();
    assert_eq!(
        stage_program(&prog, &Cluster::devices(devices)).unwrap_err(),
        StageError::TapeExceedsCluster { tape: 8, free: 3 }
    );
}

#[test]
fn an_update_that_reaches_no_code_is_refused() {
    let cfg = MixtralConfig::demo();
    let cluster = Cluster::linked(
        vec![
            gpu("store", 64 << 20, 0),
            gpu("bridge", 5000, 0),
            gpu("run", 1 << 20, 1 << 20),
        ],
        vec![Link { a: 0, b: 1 }, Link { a: 1, b: 2 }],
    );
    // A tile of an expert passes the bridge, and the whole matrix does not.
    assert_eq!(
        compile_mixtral(&cfg, 1, 1, &cluster).unwrap_err(),
        StageError::CodeExceedsDevices {
            kernel: "k_sgd",
            need: KERNEL_CODE_BYTES,
            largest: 1 << 20,
        }
    );
}

#[test]
fn a_tile_that_no_device_can_run_is_refused() {
    let prog = Program::mlp(1, &[2, 2]);
    for cluster in [
        Cluster::devices(vec![gpu("gpu0", 32, 1 << 20)]),
        Cluster::devices(vec![gpu("gpu0", 32, KERNEL_CODE_BYTES - 1)]),
        Cluster::devices(vec![cpu("cpu0", 32, CPU_RUNTIME_BYTES - 1)]),
    ] {
        // Five elements: an input with its copy, an output, and a parameter
        // with its adjoint.
        assert_eq!(
            compile_program(&prog, &cluster).unwrap_err(),
            StageError::TileExceedsDevices {
                need: 20,
                largest: 32
            }
        );
    }
}

#[test]
fn a_plan_is_checked_against_its_cluster() {
    let (cluster, plan, params) = demo_plan();
    plan.check(&cluster, params).unwrap();
    assert_eq!(plan.param_elems(), params);
    assert_eq!(
        plan.check(&cluster, 7).unwrap_err(),
        format!("parameter homes cover {params} elements, model has 7")
    );
    let mut stray = plan.clone();
    stray.windows[1].device = 9;
    assert_eq!(
        stray.check(&cluster, 7).unwrap_err(),
        format!("parameter homes cover {params} elements, model has 7")
    );
    stray.windows[0].resident_bytes = 1 << 41;
    assert!(stray.check(&cluster, params).unwrap_err().starts_with("window "));
    let mut small = cluster.clone();
    small.devices[0].buffer_bytes = 100;
    let stored: u64 = plan
        .homes
        .iter()
        .filter(|h| h.device == 0)
        .map(|h| h.bytes())
        .sum();
    assert_eq!(
        plan.check(&small, params).unwrap_err(),
        format!("cpu0 stores {stored} bytes with a buffer of 100")
    );
    let mut tall = plan.clone();
    tall.peak_bytes[1] = 1 << 40;
    assert_eq!(
        tall.check(&cluster, params).unwrap_err(),
        "gpu0 peaks at 1099511627776 bytes with a buffer of 16384"
    );
    let mut wide = plan.clone();
    wide.windows[0].resident_bytes = 1 << 41;
    let at = wide.windows[0].device;
    assert_eq!(
        wide.check(&cluster, params).unwrap_err(),
        format!(
            "window {} uses 2199023255552 bytes on {}",
            wide.windows[0].name, cluster.devices[at].name
        )
    );
    let mut long = plan.clone();
    long.windows[0].device = 0;
    long.windows[0].code_phases = vec![vec![Kernel::CpuRuntime, Kernel::CpuRuntime]];
    assert_eq!(
        long.check(&cluster, params).unwrap_err(),
        format!(
            "window {} loads {} code bytes on cpu0",
            long.windows[0].name,
            2 * CPU_RUNTIME_BYTES
        )
    );
}

#[test]
fn each_parameter_has_one_home() {
    let cfg = MixtralConfig::demo();
    let params = parameter_count(&cfg);
    let cluster = Cluster::devices(vec![
        gpu("gpu0", params * 2 + (32 << 10), 1 << 20),
        gpu("gpu1", params * 2 + (32 << 10), 1 << 20),
    ]);
    let plan = compile_mixtral(&cfg, 1, 1, &cluster).unwrap().plan;
    let covered: u64 = plan
        .homes
        .iter()
        .filter(|h| h.kind == HomeKind::Param)
        .map(|h| h.elems())
        .sum();
    assert_eq!(covered, params);
    let mut seen = vec![0u8; params as usize];
    for w in plan.windows.iter().filter(|w| w.op == Exec::Sgd) {
        for row in w.row_begin..w.row_end {
            for col in w.col_begin..w.col_end {
                seen[(w.param_offset + row * w.dout + col) as usize] += 1;
            }
        }
    }
    assert!(seen.iter().all(|n| *n == 1), "each element is updated once");
}

#[test]
fn updates_come_after_every_backward_window() {
    let (_, plan, _) = demo_plan();
    let last_bwd = plan.windows.iter().rposition(|w| w.pass == Pass::Bwd).unwrap();
    let first_bwd = plan.windows.iter().position(|w| w.pass == Pass::Bwd).unwrap();
    let first_sgd = plan.windows.iter().position(|w| w.op == Exec::Sgd).unwrap();
    assert!(last_bwd < first_sgd);
    assert!(plan.windows[..first_bwd].iter().all(|w| w.pass == Pass::Fwd));
    assert!(plan.windows[first_bwd..first_sgd].iter().all(|w| w.pass == Pass::Bwd));
    assert!(plan.windows[first_sgd..].iter().all(|w| w.op == Exec::Sgd));
}

#[test]
fn routes_are_shortest() {
    let links = vec![
        Link { a: 0, b: 1 },
        Link { a: 1, b: 2 },
        Link { a: 2, b: 3 },
        Link { a: 0, b: 4 },
        Link { a: 4, b: 3 },
    ];
    let free = [0, 9, 9, 0, 9];
    assert_eq!(route_message(&links, &free, 0, 3, 8).unwrap(), vec![0, 4, 3]);
    assert_eq!(
        route_message(&links, &[0, 9, 9, 0, 7], 0, 3, 8).unwrap(),
        vec![0, 1, 2, 3]
    );
    assert_eq!(route_message(&links, &free, 3, 3, 8).unwrap(), vec![3]);
    assert_eq!(
        route_message(&links, &free, 0, 3, 10).unwrap_err(),
        StageError::RouteUnavailable {
            from: 0,
            to: 3,
            bytes: 10
        }
    );
}

#[test]
fn gpus_without_a_cpu_are_peers() {
    let links = derive_links(&[gpu("a", 1, 1), gpu("b", 1, 1), gpu("c", 1, 1)]);
    assert_eq!(links.len(), 3);
    for (a, b) in [(0, 1), (0, 2), (1, 2)] {
        assert!(links
            .iter()
            .any(|l| (l.a, l.b) == (a, b) || (l.b, l.a) == (a, b)));
    }
}

#[test]
fn rectangles_saturate() {
    assert_eq!(rectangle(1, 4, 2, 4), 6);
    assert_eq!(rectangle(4, 1, 2, 4), 0);
    assert_eq!(rectangle(0, u64::MAX, 0, 2), u64::MAX);
    let home = Home {
        kind: HomeKind::Param,
        name: "w".into(),
        device: 0,
        row_begin: 0,
        row_end: 3,
        col_begin: 0,
        col_end: 5,
        stride: 5,
    };
    assert_eq!((home.elems(), home.bytes()), (15, 60));
}

#[test]
fn codes_are_those_of_the_schedule() {
    assert_eq!(HopKind::Param.code(), 0);
    assert_eq!(HopKind::Adjoint.code(), 1);
    assert_eq!(HopKind::Activation.code(), 2);
    assert_eq!(Exec::Embed.code(), 1);
    assert_eq!(Exec::Gqa.code(), 6);
    assert_eq!(Exec::Sgd.code(), 13);
    assert_eq!(Kernel::Linear.code_bytes(), KERNEL_CODE_BYTES);
    assert_eq!(Kernel::CpuRuntime.code_bytes(), CPU_RUNTIME_BYTES);
}

#[test]
fn texts_are_filled() {
    assert_eq!(text::decimal(0), "0");
    assert_eq!(text::decimal(u64::MAX), "18446744073709551615");
    let mut out = String::from("n = ");
    text::push_dec(&mut out, 1070);
    assert_eq!(out, "n = 1070");
    assert_eq!(
        text::join(&["a".to_string(), "b".to_string(), "c".to_string()], ", "),
        "a, b, c"
    );
    assert_eq!(text::join(&[], ", "), "");
    let mut line = String::new();
    text::push_filled(&mut line, "$a+$b=$a$b", &["x".to_string(), "y".to_string()]);
    assert_eq!(line, "x+y=xy");
}

#[test]
fn messages_bring_parameters_and_take_adjoints_home() {
    let (_, plan, _) = demo_plan();
    let mut away = 0;
    for w in plan.windows.iter().filter(|w| w.param_bytes > 0 && w.home != w.device) {
        away += 1;
        let first = &w.inbound[0];
        assert_eq!((first.from, first.to, first.kind), (w.home, w.device, HopKind::Param));
        assert_eq!((first.offset, first.stride), (w.param_offset, w.dout));
        if w.pass == Pass::Bwd {
            let back = &w.outbound[0];
            assert_eq!((back.from, back.to, back.kind), (w.device, w.home, HopKind::Adjoint));
        }
    }
    assert!(away > 0);
}

#[test]
fn windows_tile_each_linear_task() {
    let prog = Program::mlp(4, &[8, 6]);
    let gpus = (0..8).map(|i| gpu(&format!("gpu{i}"), 640, 1 << 20)).collect();
    let plan = compile_program(&prog, &Cluster::devices(gpus)).unwrap().plan;
    // The weight has eight rows, and the bias is a task of its own with one.
    for (pass, rows) in [(Pass::Fwd, 8), (Pass::Bwd, 8), (Pass::Fwd, 1), (Pass::Bwd, 1)] {
        let mut seen = vec![0; 4 * rows as usize * 6];
        let mut count = 0;
        for w in &plan.windows {
            if w.pass != pass || w.op != Exec::Linear || w.din != rows {
                continue;
            }
            assert_eq!(w.dout, 6);
            count += 1;
            for x in w.batch_begin..w.batch_end {
                for y in w.row_begin..w.row_end {
                    for z in w.col_begin..w.col_end {
                        seen[((x * rows + y) * 6 + z) as usize] += 1;
                    }
                }
            }
        }
        assert!(rows == 1 || count > 1, "the weight is cut");
        assert!(seen.iter().all(|n| *n == 1));
    }
}

#[test]
fn each_loaded_gpu_kernel_is_recorded_once() {
    let cluster = Cluster::devices(vec![
        cpu("cpu0", 64 << 20, CPU_RUNTIME_BYTES),
        gpu("gpu0", 16 << 10, 1 << 20),
    ]);
    let compiled = compile_mixtral(&MixtralConfig::demo(), 2, 8, &cluster).unwrap();
    let ks = &compiled.gpu_kernels;
    assert!(!ks.contains(&Kernel::CpuRuntime));
    for (i, k) in ks.iter().enumerate() {
        assert!(ks[..i].iter().all(|l| l != k));
        assert!(compiled.plan.windows.iter().any(|w| w.code_phases.iter().any(|p| p.contains(k))));
    }
    for k in compiled.plan.windows.iter().flat_map(|w| w.code_phases.iter().flatten()) {
        assert!(*k == Kernel::CpuRuntime || ks.contains(k));
    }
}

#[test]
fn parameters_are_compared_before_other_sizes_are_computed() {
    let tiny = Cluster::devices(vec![gpu("gpu0", 16, 1 << 20)]);
    let cfg = MixtralConfig::demo();
    assert_eq!(
        compile_mixtral(&cfg, 1, 1 << 40, &tiny).unwrap_err(),
        StageError::ParamsExceedCluster {
            params: parameter_count(&cfg) * 4,
            capacity: 16,
        }
    );
}

#[test]
fn an_update_away_from_home_needs_room() {
    let cfg = MixtralConfig {
        vocab: 4,
        dim: 8,
        intermediate: 64,
        heads: 2,
        kv_heads: 1,
        head_dim: 4,
        layers: 1,
        experts: 2,
        top_k: 1,
        ..MixtralConfig::demo()
    };
    let staged = |buffer: u64| {
        let cluster = Cluster::linked(
            vec![gpu("store", 64 << 20, 0), gpu("run", buffer, 1 << 20)],
            vec![Link { a: 0, b: 1 }],
        );
        compile_mixtral(&cfg, 1, 1, &cluster).map(|c| (cluster, c.plan))
    };
    // A matrix of an expert has 8 by 64 parameters, and one home.
    let (cluster, plan) = staged(8 * 64 * 4).unwrap();
    plan.check(&cluster, parameter_count(&cfg)).unwrap();
    assert!(plan.windows.iter().any(|w| w.op == Exec::Sgd && w.device == 1 && w.home == 0));
    assert_eq!(
        staged(8 * 64 * 4 - 1).unwrap_err(),
        StageError::CodeExceedsDevices {
            kernel: "k_sgd",
            need: KERNEL_CODE_BYTES,
            largest: 1 << 20,
        }
    );
}

#[test]
fn each_home_is_updated_in_order() {
    let (_, plan, _) = demo_plan();
    let updates: Vec<_> = plan.windows.iter().filter(|w| w.op == Exec::Sgd).collect();
    assert_eq!(updates.len(), plan.homes.len());
    for (w, h) in updates.iter().zip(&plan.homes) {
        assert_eq!(w.home, h.device);
        assert_eq!((w.row_begin, w.row_end), (h.row_begin, h.row_end));
        assert_eq!((w.col_begin, w.col_end), (h.col_begin, h.col_end));
        assert_eq!(w.param_bytes, h.bytes());
        assert!(w.name.starts_with(&format!("sgd-{}[", h.name)));
    }
}

#[test]
fn the_tape_of_a_program_has_homes() {
    let prog = Program::mlp(4, &[8, 6, 3]);
    let gpus = (0..8).map(|i| gpu(&format!("gpu{i}"), 640, 1 << 20)).collect();
    let plan = compile_program(&prog, &Cluster::devices(gpus)).unwrap().plan;
    let tape: u64 = plan
        .homes
        .iter()
        .filter(|h| h.kind == HomeKind::Tape)
        .map(|h| h.bytes())
        .sum();
    assert_eq!(tape, prog.tape_f32 as u64 * 4 + prog.tape_u8 as u64);
}
