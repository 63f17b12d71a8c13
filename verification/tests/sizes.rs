use dependent_optics::cluster::{Cluster, Device, DeviceKind};
use dependent_optics::kernel::{Program, Stage};
use dependent_optics::mixtral::MixtralConfig;
use dependent_optics::sizes::{
    launches_fit, mlp_fits, model_fits, model_fits_on, parameters_fit, program_fits,
    program_fits_on, resnet_fits, transformer_fits, Size,
};

const HUGE: usize = 1 << 40;

fn gemm(batch: usize, din: usize, dout: usize) -> Program {
    Program {
        name: "gemm".to_string(),
        stages: vec![Stage::Gemm {
            batch,
            din,
            dout,
            relu: true,
            save_at: 0,
            mask_at: 0,
            param_at: 0,
        }],
        input_len: 0,
        output_len: 0,
        param_len: 0,
        tape_f32: 0,
        tape_u8: 0,
    }
}

#[test]
fn sizes_compare_beyond_words() {
    let max = Size::of(u64::MAX);
    assert!(max.in_word());
    assert!(!max.plus(Size::of(1)).in_word());
    let big = max.times(max).times(max);
    assert!(!big.in_word() && !big.in_memory());
    assert!(!big.plus(big).in_word());
    assert!(big.times(Size::of(0)).in_word());
    assert!(big.times(Size::of(0)).is_zero());
    assert!(Size::of(1 << 32).times(Size::of((1 << 32) - 1)).in_word());
    assert!(!Size::of(1 << 32).times(Size::of(1 << 32)).in_word());
    assert!(!Size::of(0).at_least_one().is_zero());
}

#[test]
fn the_published_model_fits_and_a_wider_one_does_not() {
    for c in [MixtralConfig::demo(), MixtralConfig::mixtral_8x7b()] {
        assert!(parameters_fit(&c));
        assert!(model_fits(&c, 2, 8));
    }
    let mut wide = MixtralConfig::demo();
    wide.dim = HUGE;
    wide.vocab = HUGE;
    assert!(!parameters_fit(&wide));
    assert!(!model_fits(&wide, 1, 1));
    assert!(!model_fits(&MixtralConfig::demo(), 1 << 40, 1 << 40));
    let mut flat = MixtralConfig::demo();
    flat.dim = 0;
    assert!(parameters_fit(&flat));
    assert!(!model_fits(&flat, 1, 1), "a row of the table holds nothing");
    let mut bare = MixtralConfig::demo();
    bare.layers = 0;
    bare.intermediate = usize::MAX;
    assert!(model_fits(&bare, 1, 1), "without layers there are no experts");
}

#[test]
fn programs_fit_their_words() {
    let prog = Program::mlp(2, &[3, 4, 2]);
    assert!(program_fits(&prog) && launches_fit(&prog));
    assert!(program_fits(&Program::transformer_block(2, 3, 4, 8)));
    assert!(!program_fits(&gemm(1, HUGE, HUGE)));
    assert!(!launches_fit(&gemm(1, HUGE, HUGE)));
    assert!(!program_fits(&gemm(1, 3, 0)), "a row of the weight holds nothing");
    assert!(launches_fit(&gemm(1, 3, 0)));
    assert!(mlp_fits(2, &[3, 4, 2]));
    assert!(!mlp_fits(2, &[3, HUGE, HUGE]));
    assert!(!mlp_fits(HUGE, &[HUGE, 1]));
    assert!(resnet_fits(2, 4, 6) && !resnet_fits(1, HUGE, HUGE));
    assert!(transformer_fits(2, 3, 4, 8) && !transformer_fits(HUGE, HUGE, 0, 0));
}

#[test]
fn buffers_add_up() {
    let device = |buffer: u64| Device {
        name: "d".into(),
        kind: DeviceKind::Cpu,
        buffer_bytes: buffer,
        code_bytes: 0,
    };
    let c = MixtralConfig::demo();
    assert!(model_fits_on(&c, 1, 8, &Cluster::devices(vec![device(u64::MAX)])));
    assert!(!model_fits_on(&c, 1, 8, &Cluster::devices(vec![device(u64::MAX), device(1)])));
}

#[test]
fn later_sizes_count_only_where_the_parameters_fit() {
    let cluster = |buffer: u64| {
        Cluster::devices(vec![Device {
            name: "d".into(),
            kind: DeviceKind::Cpu,
            buffer_bytes: buffer,
            code_bytes: 0,
        }])
    };
    let none = Cluster::devices(Vec::new());
    let c = MixtralConfig::demo();
    let seq = 1 << 40;
    assert!(!model_fits(&c, 1, seq));
    assert!(model_fits_on(&c, 1, seq, &cluster(16)));
    assert!(!model_fits_on(&c, 1, seq, &cluster(1 << 40)));
    assert!(!model_fits_on(&c, 1 << 40, seq, &cluster(16)), "the tokens are counted first");
    assert!(model_fits_on(&c, 1 << 40, seq, &none));
    assert!(model_fits_on(&c, 1, 8, &cluster(1 << 40)));
    let wide = gemm(1 << 50, 1 << 20, 1 << 20);
    assert!(!program_fits(&wide));
    assert!(program_fits_on(&wide, &cluster(16)));
    assert!(!program_fits_on(&wide, &cluster(1 << 60)));
    assert!(!program_fits_on(&gemm(1, HUGE, HUGE), &cluster(16)));
    assert!(program_fits_on(&gemm(1, HUGE, HUGE), &none));
}
