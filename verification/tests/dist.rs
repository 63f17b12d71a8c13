use dependent_optics::cluster::{
    compile_mixtral, Cluster, Device, DeviceKind, Exec, Hop, HopKind, Pass, StagePlan, Window,
    CPU_RUNTIME_BYTES,
};
use dependent_optics::dist::{
    accept_tile, bytes_of, can_handle, check_hop, check_roster, compute, event_of, expect_done,
    expect_peers, frame_length, get, handle, hello, on_answer, orders, pack_slice, put, rank_member,
    read_data, read_hello, read_rect, read_tag, read_welcome, rect_indices, rectangles, recv, scatter,
    send, tag_frame, tile_frame, welcome, words_from, DistError, Duty, Event, Hello, Order, Rect,
    Store, Wait, DATA, DONE, FINISH, GET, HELLO, PEERS_UP, PUT, READY, RECV, SEND, WELCOME,
};
use dependent_optics::mixtral::{layout, MixtralConfig};

const DEMO_LR: f32 = 0.05;

fn cpu(name: &str, buffer: u64) -> Device {
    Device {
        name: name.into(),
        kind: DeviceKind::Cpu,
        buffer_bytes: buffer,
        code_bytes: CPU_RUNTIME_BYTES,
    }
}

fn gpu(name: &str, buffer: u64, code: u64) -> Device {
    Device {
        name: name.into(),
        kind: DeviceKind::Gpu,
        buffer_bytes: buffer,
        code_bytes: code,
    }
}

fn blank_window(name: &str, device: usize, home: usize, op: Exec, pass: Pass) -> Window {
    Window {
        name: name.into(),
        device,
        code_phases: Vec::new(),
        resident_bytes: 0,
        tape_bytes: 0,
        param_bytes: 4,
        pass,
        op,
        param_offset: 0,
        batch_begin: 0,
        batch_end: 1,
        row_begin: 0,
        row_end: 1,
        col_begin: 0,
        col_end: 1,
        din: 1,
        dout: 1,
        home,
        layer: 0,
        expert: 0,
        inbound: Vec::new(),
        outbound: Vec::new(),
    }
}

fn hop(from: usize, to: usize, kind: HopKind) -> Hop {
    Hop {
        from,
        to,
        bytes: 4,
        kind,
        offset: 0,
        elems: 1,
        row_begin: 0,
        row_end: 1,
        col_begin: 0,
        col_end: 1,
        stride: 1,
    }
}

fn rect(home: usize, offset: u64, rows: u64, cols: u64, stride: u64) -> Rect {
    Rect {
        home,
        offset,
        row_begin: 0,
        row_end: rows,
        col_begin: 0,
        col_end: cols,
        stride,
    }
}

struct RunReport {
    params: Vec<f32>,
    adjoint: Vec<f32>,
    log: Vec<Event>,
    messages: usize,
    members: usize,
}

fn param(store: &Store, index: u64) -> f32 {
    f32::from_bits(store.param(index))
}

fn update(lr: f32, window: &Window, store: &mut Store) {
    if window.op != Exec::Sgd {
        return;
    }
    for index in rect_indices(
        window.param_offset,
        window.row_begin,
        window.row_end,
        window.col_begin,
        window.col_end,
        window.dout,
    ) {
        let updated = param(store, index) - lr * f32::from_bits(store.adjoint(index));
        store.set_param(index, updated.to_bits());
    }
}

fn answered(store: &mut Store, frame: &Vec<u8>) -> Result<Vec<u8>, DistError> {
    assert!(can_handle(frame));
    match handle(store, frame)? {
        Duty::Reply(reply) => Ok(reply),
        other => panic!("{other:?} is no answer"),
    }
}

/// The coordinator and the members of a plan, with frames handed over in
/// place of sockets.
fn run<C: Fn(usize, &Window, &mut Store)>(
    cluster: &Cluster,
    plan: &StagePlan,
    params: &[f32],
    work: C,
) -> Result<RunReport, DistError> {
    check_roster(&cluster.devices)?;
    let n = cluster.devices.len();
    let mut joined = vec![false; n];
    let mut ports = vec![0u16; n];
    for (i, device) in cluster.devices.iter().enumerate() {
        let intro = read_hello(&hello(device, 9000 + i as u16))?;
        let rank = rank_member(&cluster.devices, &joined, &intro)?;
        joined[rank] = true;
        ports[rank] = intro.port;
    }
    for rank in 0..n {
        let (got, seen) = read_welcome(&welcome(rank as u32, &ports))?;
        assert_eq!((got as usize, &seen), (rank, &ports));
        expect_peers(read_tag(&tag_frame(PEERS_UP))?)?;
    }
    let mut stores: Vec<Store> = (0..n).map(|_| Store::default()).collect();
    let words: Vec<u32> = params.iter().map(|v| v.to_bits()).collect();
    let rects = rectangles(plan);
    for r in &rects {
        let reply = answered(&mut stores[r.home], &put(r, &pack_slice(&words, r)))?;
        expect_done(read_tag(&reply)?)?;
    }
    let mut log = Vec::new();
    let mut messages = 0usize;
    for (i, order) in orders(plan).iter().enumerate() {
        let step = i as u32 + 1;
        match order {
            Order::Hop(hop) => {
                check_hop(hop, n)?;
                let awaited = handle(&mut stores[hop.to], &recv(step, hop))?;
                let mut wait = on_answer(Wait::Ready, read_tag(&tag_frame(READY))?)?;
                assert_eq!(wait, Some(Wait::Sent));
                let frame = send(step, hop);
                assert!(can_handle(&frame));
                let tile = match handle(&mut stores[hop.from], &frame)? {
                    Duty::Pass(to, tile) => {
                        assert_eq!(to, hop.to);
                        tile
                    }
                    other => panic!("{other:?} sends nothing"),
                };
                wait = on_answer(wait.unwrap(), read_tag(&tag_frame(DONE))?)?;
                match awaited {
                    Duty::Await(id, from, carried) => {
                        assert_eq!((id, from, carried), (step, hop.from, *hop));
                        accept_tile(&mut stores[hop.to], id, &carried, &tile)?;
                    }
                    other => panic!("{other:?} awaits nothing"),
                }
                wait = on_answer(wait.unwrap(), read_tag(&tag_frame(DONE))?)?;
                assert_eq!(wait, None);
                messages += 1;
            }
            Order::Compute { window } => {
                let rank = plan.windows[*window].device;
                match handle(&mut stores[rank], &compute(step, &plan.windows[*window]))? {
                    Duty::Run(id, w) => {
                        assert_eq!(id, step);
                        work(rank, &w, &mut stores[rank]);
                    }
                    other => panic!("{other:?} runs nothing"),
                }
            }
        }
        log.push(event_of(plan, order));
    }
    let mut gathered_p = vec![0u32; params.len()];
    let mut gathered_a = vec![0u32; params.len()];
    for r in &rects {
        let reply = answered(&mut stores[r.home], &get(r, 0))?;
        scatter(&mut gathered_p, r, &read_data(&reply)?);
        let reply = answered(&mut stores[r.home], &get(r, 1))?;
        scatter(&mut gathered_a, r, &read_data(&reply)?);
    }
    for store in stores.iter_mut() {
        assert!(matches!(handle(store, &tag_frame(FINISH))?, Duty::Finish));
    }
    Ok(RunReport {
        params: gathered_p.into_iter().map(f32::from_bits).collect(),
        adjoint: gathered_a.into_iter().map(f32::from_bits).collect(),
        log,
        messages,
        members: n,
    })
}

#[test]
fn a_bridge_forwards_the_tile_and_the_update_returns_home() {
    let cluster = Cluster::linked(
        vec![gpu("store", 1 << 20, 0), cpu("bridge", 1 << 20), gpu("run", 1 << 20, 1 << 20)],
        vec![],
    );
    let mut backward = blank_window("linear", 2, 0, Exec::Linear, Pass::Bwd);
    backward.inbound = vec![hop(0, 1, HopKind::Param), hop(1, 2, HopKind::Param)];
    backward.outbound = vec![hop(2, 1, HopKind::Adjoint), hop(1, 0, HopKind::Adjoint)];
    let sgd = blank_window("sgd", 0, 0, Exec::Sgd, Pass::Fwd);
    let plan = StagePlan {
        homes: Vec::new(),
        windows: vec![backward, sgd],
        transfers: Vec::new(),
        peak_bytes: vec![0, 0, 0],
    };
    let report = run(&cluster, &plan, &[3.0], |rank: usize, window: &Window, store: &mut Store| {
        if window.pass == Pass::Bwd {
            assert_eq!(rank, 2);
            assert_eq!(param(store, 0), 3.0);
            store.set_adjoint(0, store.param(0));
        }
        update(0.5, window, store);
    })
    .expect("bridge run");
    assert_eq!(report.members, 3);
    assert_eq!(report.messages, 4);
    assert!((report.params[0] - 1.5).abs() < 1e-6);
    assert!((report.adjoint[0] - 3.0).abs() < 1e-6);
    let hops: Vec<_> = report
        .log
        .iter()
        .filter_map(|event| match event {
            Event::Hop { from, to, kind, .. } => Some((*from, *to, *kind)),
            _ => None,
        })
        .collect();
    assert_eq!(
        hops,
        vec![
            (0, 1, HopKind::Param),
            (1, 2, HopKind::Param),
            (2, 1, HopKind::Adjoint),
            (1, 0, HopKind::Adjoint),
        ]
    );
}

fn demo_params(cfg: &MixtralConfig) -> Vec<f32> {
    let lay = layout(cfg);
    let mut params: Vec<f32> = (0..lay.total).map(|i| 0.02 * ((i % 5) as f32 + 1.0)).collect();
    for layer in &lay.layers {
        for d in 0..cfg.dim {
            for e in 0..cfg.experts {
                params[layer.router + d * cfg.experts + e] =
                    0.05 * (e as f32 + 1.0) + 0.001 * (d as f32);
            }
        }
    }
    params
}

#[test]
fn the_demo_schedule_is_coordinated_across_its_members() {
    let cfg = MixtralConfig::demo();
    let cluster = Cluster::devices(vec![cpu("cpu0", 64 << 20), gpu("gpu0", 16 << 10, 1 << 20)]);
    let compiled = compile_mixtral(&cfg, 2, 8, &cluster).expect("stage");
    let params = demo_params(&cfg);
    let expected_messages: usize = compiled
        .plan
        .windows
        .iter()
        .map(|window| window.inbound.len() + window.outbound.len())
        .sum();
    let report = run(
        &cluster,
        &compiled.plan,
        &params,
        |rank: usize, window: &Window, store: &mut Store| {
            assert_eq!(rank, window.device);
            if window.pass == Pass::Bwd && window.param_bytes > 0 {
                for index in rect_indices(
                    window.param_offset,
                    window.row_begin,
                    window.row_end,
                    window.col_begin,
                    window.col_end,
                    window.dout,
                ) {
                    store.set_adjoint(index, store.param(index));
                }
            }
            update(DEMO_LR, window, store);
        },
    )
    .expect("demo cluster");
    assert_eq!(report.members, 2);
    assert_eq!(report.messages, expected_messages);
    assert!(report.messages > 0);
    let mut seen_bwd = false;
    let mut seen_sgd = false;
    for event in &report.log {
        if let Event::Compute { op, pass, device, .. } = event {
            if *op == Exec::Sgd {
                assert!(seen_bwd);
                seen_sgd = true;
            } else if *pass == Pass::Bwd {
                assert!(!seen_sgd);
                seen_bwd = true;
            } else {
                assert!(!seen_bwd && !seen_sgd);
            }
            let _ = device;
        }
    }
    assert!(seen_sgd);
    for (got, start) in report.params.iter().zip(&params) {
        let expect = start - DEMO_LR * start;
        assert!((got - expect).abs() < 1e-5, "{got} vs {expect}");
    }
}

#[test]
fn a_rectangle_lists_its_indices_row_by_row() {
    assert_eq!(rect_indices(100, 1, 3, 2, 4, 10), vec![112, 113, 122, 123]);
    assert_eq!(rect_indices(100, 3, 3, 2, 4, 10), Vec::<u64>::new());
    assert_eq!(rect_indices(100, 4, 3, 2, 4, 10), Vec::<u64>::new());
    let r = rect(0, 100, 2, 2, 10);
    assert!(r.addressable());
    assert_eq!(r.indices(), vec![100, 101, 110, 111]);
    assert!(!rect(0, u64::MAX, 2, 2, 10).addressable());
    assert!(rect(0, u64::MAX, 1, 1, 10).addressable());
    assert!(rect(0, u64::MAX, 0, 7, u64::MAX).addressable());
}

#[test]
fn an_introduction_has_a_fixed_form() {
    let device = gpu("g\u{e9}", 0x0102_0304, 5);
    let frame = hello(&device, 0x1f90);
    assert_eq!(
        frame,
        vec![
            HELLO, 3, 0, 0, 0, b'g', 0xc3, 0xa9, 1, 4, 3, 2, 1, 0, 0, 0, 0, 5, 0, 0, 0, 0, 0, 0, 0,
            0x90, 0x1f,
        ]
    );
    assert_eq!(
        read_hello(&frame).unwrap(),
        Hello {
            name: "g\u{e9}".into(),
            kind: 1,
            buffer: 0x0102_0304,
            code: 5,
            port: 0x1f90,
        }
    );
}

#[test]
fn broken_introductions_are_refused() {
    let frame = hello(&cpu("cpu0", 7), 80);
    let message = |f: &[u8]| read_hello(&f.to_vec()).unwrap_err().message;
    assert_eq!(message(&[]), "expected hello");
    assert_eq!(message(&[WELCOME]), "expected hello");
    for n in 1..frame.len() {
        assert_eq!(message(&frame[..n]), "truncated control frame");
    }
    let mut bad = frame.clone();
    bad[5] = 0xff;
    assert_eq!(message(&bad), "member name is not utf-8");
    let mut long = frame.clone();
    long[4] = 0xff;
    assert_eq!(message(&long), "truncated control frame");
}

#[test]
fn a_welcome_has_a_fixed_form() {
    let frame = welcome(1, &vec![0x1234, 7]);
    assert_eq!(frame, vec![WELCOME, 1, 0, 0, 0, 2, 0, 0, 0, 0x34, 0x12, 7, 0]);
    assert_eq!(read_welcome(&frame).unwrap(), (1, vec![0x1234, 7]));
    assert_eq!(read_welcome(&vec![HELLO]).unwrap_err().message, "expected welcome");
    for n in 1..frame.len() {
        assert_eq!(
            read_welcome(&frame[..n].to_vec()).unwrap_err().message,
            "truncated control frame"
        );
    }
}

#[test]
fn members_are_admitted_once_and_as_announced() {
    let devices = vec![cpu("cpu0", 8), gpu("gpu0", 9, 10)];
    check_roster(&devices).unwrap();
    let intro = |d: &Device| read_hello(&hello(d, 1)).unwrap();
    assert_eq!(rank_member(&devices, &vec![false, false], &intro(&devices[1])).unwrap(), 1);
    let message = |joined: &Vec<bool>, d: &Device| {
        rank_member(&devices, joined, &intro(d)).unwrap_err().message
    };
    assert_eq!(
        message(&vec![false, true], &devices[1]),
        "duplicate join from gpu0"
    );
    assert_eq!(
        message(&vec![false, false], &cpu("cpu9", 8)),
        "unknown member cpu9"
    );
    for other in [gpu("cpu0", 8, CPU_RUNTIME_BYTES), cpu("cpu0", 9), gpu("gpu0", 9, 11)] {
        assert_eq!(
            message(&vec![false, false], &other),
            format!("member {} does not match the cluster", other.name)
        );
    }
}

#[test]
fn a_roster_has_distinct_names() {
    assert_eq!(check_roster(&Vec::new()).unwrap_err().message, "cluster has no devices");
    let twice = vec![cpu("a", 1), cpu("b", 1), gpu("a", 1, 1), gpu("b", 1, 1)];
    assert_eq!(check_roster(&twice).unwrap_err().message, "duplicate device name a");
}

#[test]
fn a_tile_that_was_put_comes_back() {
    let r = rect(0, 4, 2, 2, 3);
    let words = vec![10, 11, 12, 13];
    let mut store = Store::default();
    let reply = answered(&mut store, &put(&r, &bytes_of(&words))).unwrap();
    assert_eq!(reply, vec![DONE]);
    assert_eq!((store.param(4), store.param(5), store.param(7), store.param(8)), (10, 11, 12, 13));
    assert_eq!(store.param(6), 0);
    let reply = answered(&mut store, &get(&r, 0)).unwrap();
    assert_eq!(reply[0], DATA);
    assert_eq!(read_data(&reply).unwrap(), words);
    let reply = answered(&mut store, &get(&r, 1)).unwrap();
    assert_eq!(read_data(&reply).unwrap(), vec![0; 4]);
    assert_eq!(read_data(&vec![DONE]).unwrap_err().message, "expected a gathered tile");
    assert_eq!(
        read_data(&vec![DATA, 1]).unwrap_err().message,
        "tile byte length is not a multiple of 4"
    );
}

#[test]
fn a_put_tile_has_the_length_of_its_rectangle() {
    let r = rect(0, 4, 2, 2, 3);
    let mut store = Store::default();
    let message = |f: &Vec<u8>, s: &mut Store| handle(s, f).unwrap_err().message;
    assert_eq!(
        message(&put(&r, &bytes_of(&vec![1, 2, 3])), &mut store),
        "parameter tile has the wrong length"
    );
    assert_eq!(
        message(&put(&r, &vec![1, 2, 3]), &mut store),
        "tile byte length is not a multiple of 4"
    );
    let whole = put(&r, &Vec::new());
    assert_eq!(whole.len(), 53);
    assert_eq!(message(&whole[..52].to_vec(), &mut store), "truncated control frame");
    assert_eq!(read_rect(&whole[1..]).unwrap(), r);
    assert_eq!(store.param(4), 0);
}

#[test]
fn a_slice_is_packed_and_scattered_within_its_bounds() {
    let params = vec![1, 2, 3, 4, 5];
    let r = rect(0, 3, 2, 1, 1);
    assert_eq!(pack_slice(&params, &r), bytes_of(&vec![4, 5]));
    let over = rect(0, 4, 2, 1, 1);
    assert_eq!(pack_slice(&params, &over), bytes_of(&vec![5, 0]));
    let mut out = vec![0; 5];
    scatter(&mut out, &over, &vec![7, 8]);
    assert_eq!(out, vec![0, 0, 0, 0, 7]);
    scatter(&mut out, &r, &vec![9]);
    assert_eq!(out, vec![0, 0, 0, 9, 7]);
}

#[test]
fn words_are_little_endian() {
    assert_eq!(bytes_of(&vec![0x0403_0201, 0xff]), vec![1, 2, 3, 4, 0xff, 0, 0, 0]);
    assert_eq!(words_from(&[1, 2, 3, 4, 0xff, 0, 0, 0]).unwrap(), vec![0x0403_0201, 0xff]);
    assert_eq!(words_from(&[]).unwrap(), Vec::<u32>::new());
    assert_eq!(
        words_from(&[1, 2, 3, 4, 5]).unwrap_err().message,
        "tile byte length is not a multiple of 4"
    );
}

#[test]
fn a_hop_carries_parameters_adjoints_and_activations() {
    let mut from = Store::default();
    from.set_param(0, 21);
    from.set_adjoint(0, 22);
    for (kind, seen) in [(HopKind::Param, (21, 0)), (HopKind::Adjoint, (0, 22))] {
        let h = hop(0, 1, kind);
        let mut to = Store::default();
        to.unpack_hop(&h, &from.pack_hop(&h)).unwrap();
        assert_eq!((to.param(0), to.adjoint(0)), seen);
    }
    let mut h = hop(0, 1, HopKind::Activation);
    h.elems = 3;
    assert_eq!(from.pack_hop(&h), bytes_of(&vec![0, 0, 0]));
    from.unpack_hop(&h, &bytes_of(&vec![5, 6, 7])).unwrap();
    let mut to = Store::default();
    to.unpack_hop(&h, &from.pack_hop(&h)).unwrap();
    assert_eq!(to.pack_hop(&h), bytes_of(&vec![5, 6, 7]));
    h.elems = 4;
    assert_eq!(to.pack_hop(&h), bytes_of(&vec![5, 6, 7, 0]));
    assert_eq!((to.param(0), to.adjoint(0)), (0, 0));
}

#[test]
fn a_tile_answers_its_step_with_its_length() {
    let h = hop(0, 1, HopKind::Param);
    let mut act = h;
    act.kind = HopKind::Activation;
    let mut store = Store::default();
    let tile = bytes_of(&vec![33]);
    let frame = tile_frame(4, &tile);
    assert_eq!(frame, vec![4, 0, 0, 0, 33, 0, 0, 0]);
    let message = |s: &mut Store, step: u32, h: &Hop, f: &Vec<u8>| {
        accept_tile(s, step, h, f).unwrap_err().message
    };
    assert_eq!(message(&mut store, 4, &h, &vec![4, 0, 0]), "short tile");
    assert_eq!(
        message(&mut store, 5, &h, &frame),
        "tile step id does not match the hop"
    );
    assert_eq!(
        message(&mut store, 4, &h, &tile_frame(4, &Vec::new())),
        "tile has the wrong length"
    );
    assert_eq!(
        message(&mut store, 4, &act, &tile_frame(4, &Vec::new())),
        "activation tile has the wrong length"
    );
    assert_eq!(
        message(&mut store, 4, &h, &tile_frame(4, &vec![1])),
        "tile byte length is not a multiple of 4"
    );
    assert_eq!(store.param(0), 0);
    accept_tile(&mut store, 4, &h, &frame).unwrap();
    assert_eq!(store.param(0), 33);
}

#[test]
fn a_window_order_is_read_back() {
    let mut w = blank_window("L0-o[0,1)", 1, 2, Exec::Silu, Pass::Bwd);
    w.layer = 3;
    w.expert = 4;
    w.param_offset = 5;
    w.param_bytes = 6;
    w.tape_bytes = 7;
    w.din = 8;
    w.dout = 9;
    w.batch_begin = 10;
    w.batch_end = 11;
    w.row_begin = 12;
    w.row_end = 13;
    w.col_begin = 14;
    w.col_end = 15;
    let mut store = Store::default();
    match handle(&mut store, &compute(77, &w)).unwrap() {
        Duty::Run(step, got) => {
            assert_eq!(step, 77);
            assert_eq!(got.name, w.name);
            assert_eq!((got.op, got.pass), (w.op, w.pass));
            assert_eq!((got.device, got.home, got.layer, got.expert), (1, 2, 3, 4));
            assert_eq!((got.param_offset, got.param_bytes, got.tape_bytes), (5, 6, 7));
            assert_eq!((got.din, got.dout, got.batch_begin, got.batch_end), (8, 9, 10, 11));
            assert_eq!(
                (got.row_begin, got.row_end, got.col_begin, got.col_end),
                (12, 13, 14, 15)
            );
            assert!(got.inbound.is_empty() && got.outbound.is_empty());
        }
        other => panic!("{other:?}"),
    }
}

#[test]
fn broken_orders_are_refused() {
    let mut store = Store::default();
    let message = |f: &Vec<u8>, s: &mut Store| {
        assert!(can_handle(f));
        handle(s, f).unwrap_err().message
    };
    assert_eq!(message(&Vec::new(), &mut store), "empty control frame");
    assert_eq!(message(&vec![99], &mut store), "unexpected control tag 99");
    assert_eq!(message(&vec![PUT], &mut store), "truncated control frame");
    assert_eq!(message(&vec![GET, 0], &mut store), "truncated control frame");
    assert_eq!(message(&vec![SEND, 0], &mut store), "truncated control frame");
    let w = blank_window("w", 0, 0, Exec::Linear, Pass::Fwd);
    let mut frame = compute(1, &w);
    assert_eq!(
        message(&frame[..frame.len() - 1].to_vec(), &mut store),
        "truncated control frame"
    );
    frame[10] = 14;
    assert_eq!(message(&frame, &mut store), "unknown exec 14");
    frame[9] = 0x80;
    assert_eq!(message(&frame, &mut store), "member name is not utf-8");
    let mut frame = recv(1, &hop(0, 1, HopKind::Param));
    assert_eq!(frame[0], RECV);
    frame[17] = 3;
    assert_eq!(message(&frame, &mut store), "unknown hop kind 3");
    assert!(!can_handle(&vec![GET]));
    assert!(!can_handle(&get(&rect(0, u64::MAX, 2, 2, 10), 0)));
    assert!(!can_handle(&put(&rect(0, u64::MAX, 2, 2, 10), &Vec::new())));
    let mut far = hop(0, 1, HopKind::Param);
    far.offset = u64::MAX;
    far.row_end = 2;
    assert!(!can_handle(&send(1, &far)));
}

#[test]
fn the_coordinator_waits_for_each_answer() {
    assert_eq!(on_answer(Wait::Ready, READY).unwrap(), Some(Wait::Sent));
    assert_eq!(on_answer(Wait::Sent, DONE).unwrap(), Some(Wait::Kept));
    assert_eq!(on_answer(Wait::Kept, DONE).unwrap(), None);
    assert_eq!(
        on_answer(Wait::Ready, DONE).unwrap_err().message,
        "receiver was not ready for a tile"
    );
    assert_eq!(
        on_answer(Wait::Kept, READY).unwrap_err().message,
        "expected acknowledgement, got 10"
    );
    assert_eq!(expect_done(255).unwrap_err().message, "expected acknowledgement, got 255");
    assert_eq!(
        expect_peers(DONE).unwrap_err().message,
        "member did not bring its peer links up"
    );
    assert_eq!(read_tag(&Vec::new()).unwrap_err().message, "empty tag");
    assert_eq!(frame_length(&vec![0; 258]).unwrap(), vec![2, 1, 0, 0]);
    assert_eq!(
        check_hop(&hop(0, 2, HopKind::Param), 2).unwrap_err().message,
        "hop names a device outside the cluster"
    );
    check_hop(&hop(1, 0, HopKind::Param), 2).unwrap();
}

#[test]
fn a_plan_names_each_rectangle_once() {
    let mut still = blank_window("rope", 0, 0, Exec::RopeQ, Pass::Fwd);
    still.param_bytes = 0;
    let mut moved = blank_window("linear", 0, 0, Exec::Linear, Pass::Fwd);
    moved.param_offset = 9;
    let plan = StagePlan {
        homes: Vec::new(),
        windows: vec![
            blank_window("linear", 1, 0, Exec::Linear, Pass::Fwd),
            still,
            blank_window("linear", 2, 0, Exec::Linear, Pass::Bwd),
            moved,
        ],
        transfers: Vec::new(),
        peak_bytes: Vec::new(),
    };
    let mut first = rect(0, 0, 1, 1, 1);
    let rects = rectangles(&plan);
    assert_eq!(rects.len(), 2);
    assert_eq!(rects[0], first);
    first.offset = 9;
    assert_eq!(rects[1], first);
}

#[test]
fn a_refused_frame_leaves_the_store_alone() {
    let rect = Rect {
        home: 0,
        offset: 4,
        row_begin: 0,
        row_end: 1,
        col_begin: 0,
        col_end: 2,
        stride: 2,
    };
    let mut store = Store::default();
    handle(&mut store, &put(&rect, &bytes_of(&vec![7, 9]))).unwrap();
    for bad in [vec![200u8], Vec::new(), put(&rect, &bytes_of(&vec![1])), put(&rect, &vec![1, 2, 3])] {
        assert!(handle(&mut store, &bad).is_err());
    }
    let hop = Hop {
        from: 0,
        to: 1,
        bytes: 8,
        kind: HopKind::Param,
        elems: 2,
        offset: 4,
        row_begin: 0,
        row_end: 1,
        col_begin: 0,
        col_end: 2,
        stride: 2,
    };
    assert!(accept_tile(&mut store, 3, &hop, &tile_frame(2, &bytes_of(&vec![1, 2]))).is_err());
    assert!(accept_tile(&mut store, 3, &hop, &tile_frame(3, &bytes_of(&vec![1]))).is_err());
    assert_eq!((store.param(4), store.param(5)), (7, 9));
    accept_tile(&mut store, 3, &hop, &tile_frame(3, &bytes_of(&vec![1, 2]))).unwrap();
    assert_eq!((store.param(4), store.param(5)), (1, 2));
}
