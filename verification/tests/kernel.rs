use dependent_optics::kernel::{emit_cuda, Program, Stage};

fn literals(n: usize) -> Vec<String> {
    (0..n).map(|i| format!("{i}.f")).collect()
}

fn emitted(prog: &Program) -> String {
    emit_cuda(
        prog,
        &literals(prog.input_len),
        &literals(prog.param_len),
        &literals(prog.output_len),
        &literals(prog.input_len),
        &literals(prog.param_len),
    )
}

#[test]
fn residuals_store_only_backward_inputs() {
    let mlp = Program::mlp(2, &[3, 4, 2]);
    // First linear saves the 2×3 input and a 2×4 ReLU mask. Second linear
    // saves the 2×4 hidden state and no mask. The outputs are not stored.
    assert_eq!(mlp.tape_f32, 2 * 3 + 2 * 4);
    assert_eq!(mlp.tape_u8, 2 * 4);
    assert_eq!(mlp.param_len, 3 * 4 + 4 + 4 * 2 + 2);

    let block = Program::resnet_block(2, 4, 6);
    // W1 saved x (2×4). The skip add does not store another copy.
    // W2 saved the hidden state (2×6).
    assert_eq!(block.tape_f32, 2 * 4 + 2 * 6);
    assert_eq!(block.tape_u8, 2 * 6);
    assert!(matches!(
        block.stages.last(),
        Some(Stage::Add { from: 0, .. })
    ));

    let tr = Program::transformer_block(2, 3, 4, 8);
    let n = 2 * 3 * 4;
    // Attention stores tokens and softmax, the MLP stores its input and hidden.
    assert_eq!(tr.tape_f32, n + 2 * 3 * 3 + n + 2 * 3 * 8);
    assert_eq!(tr.tape_u8, 2 * 3 * 8);
}

#[test]
fn an_mlp_lists_its_stages() {
    let mlp = Program::mlp(2, &[3, 4, 2]);
    assert_eq!(mlp.name, "mlp");
    assert_eq!(mlp.input_len, 6);
    assert_eq!(mlp.output_len, 4);
    assert_eq!(
        mlp.stages,
        vec![
            Stage::Gemm {
                batch: 2,
                din: 3,
                dout: 4,
                relu: true,
                save_at: 0,
                mask_at: 0,
                param_at: 0,
            },
            Stage::Gemm {
                batch: 2,
                din: 4,
                dout: 2,
                relu: false,
                save_at: 6,
                mask_at: 8,
                param_at: 16,
            },
        ]
    );
}

#[test]
fn a_transformer_block_lists_its_stages() {
    let tr = Program::transformer_block(1, 3, 4, 5);
    assert_eq!(tr.name, "transformer_block");
    assert_eq!((tr.input_len, tr.output_len), (12, 12));
    assert_eq!(
        tr.stages,
        vec![
            Stage::Attention {
                batch: 1,
                tokens: 3,
                dim: 4,
                x_at: 0,
                probs_at: 12,
            },
            Stage::Add { from: 0, len: 12 },
            Stage::Gemm {
                batch: 3,
                din: 4,
                dout: 5,
                relu: true,
                save_at: 21,
                mask_at: 0,
                param_at: 0,
            },
            Stage::Gemm {
                batch: 3,
                din: 5,
                dout: 4,
                relu: false,
                save_at: 33,
                mask_at: 15,
                param_at: 25,
            },
            Stage::Add { from: 21, len: 12 },
        ]
    );
}

#[test]
fn a_skip_reads_an_activation_that_a_stage_saved() {
    for prog in [
        Program::resnet_block(2, 4, 6),
        Program::transformer_block(2, 3, 4, 8),
    ] {
        for (i, stage) in prog.stages.iter().enumerate() {
            if let Stage::Add { from, len } = *stage {
                assert!(prog.stages[..i].iter().any(|s| match *s {
                    Stage::Gemm {
                        batch,
                        din,
                        save_at,
                        ..
                    } => save_at == from && batch * din == len,
                    Stage::Attention {
                        batch,
                        tokens,
                        dim,
                        x_at,
                        ..
                    } => x_at == from && batch * tokens * dim == len,
                    Stage::Add { .. } => false,
                }));
            }
        }
    }
}

#[test]
fn the_source_launches_each_stage_forward_and_in_reverse() {
    let prog = Program::mlp(2, &[3, 4, 2]);
    let src = emitted(&prog);
    assert!(src.starts_with("\n#include <cuda_runtime.h>\n#include <cstdio>\n"));
    assert!(src.contains("int grid(int n) { return (n + 127) / 128; }\n"));
    assert!(src.contains("    const int in_len = 6;\n    const int out_len = 4;\n    const int param_len = 26;\n    const int tape_f32 = 14;\n    const int tape_u8 = 8;\n    const int max_activ = 8;\n"));
    assert!(src.contains("    const float h_x[] = { 0.f, 1.f, 2.f, 3.f, 4.f, 5.f };\n"));
    assert!(src.contains(
        "    cudaMemcpy(dtape + 0, buf0, 6 * sizeof(float), cudaMemcpyDeviceToDevice);\n    fwd_gemm_0<<<grid(8), 128>>>(buf0, dparams + 0, dparams + 12, buf1, dmask + 0, 2, 3, 4, 1);\n    cudaMemcpy(dtape + 6, buf1, 8 * sizeof(float), cudaMemcpyDeviceToDevice);\n    fwd_gemm_1<<<grid(4), 128>>>(buf1, dparams + 16, dparams + 24, buf0, dmask + 8, 2, 4, 2, 0);\n"
    ));
    assert!(src.contains("    cudaMemcpy(y.data(), buf0, out_bytes, cudaMemcpyDeviceToHost);\n"));
    let second = src.find("    if (0) bwd_relu_1<<<grid(4), 128>>>(ddy, dmask + 8, 4);\n").unwrap();
    let first = src.find("    if (1) bwd_relu_0<<<grid(8), 128>>>(ddy, dmask + 0, 8);\n").unwrap();
    assert!(second < first, "the backward pass runs the stages in reverse");
    assert!(src.contains("    bwd_dw_0<<<grid(12), 128>>>(dtape + 0, ddy, ddp + 0, 2, 3, 4);\n"));
    assert!(src.contains("    bwd_db_1<<<grid(2), 128>>>(ddy, ddp + 24, 2, 2);\n"));
    assert!(src.ends_with("    printf(\"OK mlp\\n\");\n    return 0;\n}\n"));
    assert!(!src.contains("{{") && !src.contains("}}"));
}

#[test]
fn the_source_of_a_transformer_block_holds_its_attention() {
    let src = emitted(&Program::transformer_block(1, 3, 4, 5));
    assert!(src.contains("__global__ void fwd_attn_0(const float* X, float* probs, float* Y, int B, int T, int D) {\n"));
    assert!(src.contains("    fwd_attn_0<<<grid(3), 128>>>(buf0, dtape + 12, buf1, 1, 3, 4);\n"));
    assert!(src.contains("    add_fwd_1<<<grid(12), 128>>>(buf1, dtape + 0, 12);\n"));
    assert!(src.contains("    add_fwd_1<<<grid(12), 128>>>(dside + 0, ddy, 12);\n"));
    assert!(src.contains("    bwd_attn_0<<<grid(12), 128>>>(dtape + 0, dtape + 12, ddy, ddx_tmp, 1, 3, 4);\n    add_skip_0<<<grid(12), 128>>>(ddx_tmp, dside + 0, 12);\n"));
    assert!(src.contains("printf(\"OK transformer_block\\n\");"));
}

#[test]
fn a_program_without_parameters_has_a_placeholder_array() {
    let prog = Program {
        name: "skip".to_string(),
        stages: Vec::new(),
        input_len: 1,
        output_len: 1,
        param_len: 0,
        tape_f32: 0,
        tape_u8: 0,
    };
    let src = emitted(&prog);
    assert!(src.contains("    const float h_p[] = { 0.f };\n"));
    assert!(src.contains("    const float h_edp[] = { 0.f };\n"));
    assert!(src.contains("    const int max_activ = 1;\n"));
    assert!(src.contains("    cudaMemcpy(y.data(), buf0, out_bytes, cudaMemcpyDeviceToHost);\n"));
}
