use half::f16;
use hgemmtest::device::{parse_opencl_version, version_score};
use hgemmtest::matrix::{compare_ref, generate_data, reference_gemm};
use hgemmtest::number::Number;
use hgemmtest::problem::{at_size, c_size, prepare, BATCH_SIZE, K, M, N};
use hgemmtest::quantize::{block_params, quantize_b_q4k, quantize_block_q4k, quantize_sub_block};
use hgemmtest::session::{Action, Progress, Reply, Session, RUNS};
use hgemmtest::tuning::BestRun;

#[derive(Clone, Copy, Debug, PartialEq)]
struct Single(f32);

impl Number for Single {
    fn decimal(mantissa: i32, exponent: i32) -> Self {
        if exponent == 0 {
            Single(mantissa as f32)
        } else {
            Single(format!("{}e{}", mantissa, exponent).parse().unwrap())
        }
    }
    fn infinity() -> Self {
        Single(f32::INFINITY)
    }
    fn neg_infinity() -> Self {
        Single(f32::NEG_INFINITY)
    }
    fn greatest() -> Self {
        Single(f32::MAX)
    }
    fn from_i32(value: i32) -> Self {
        Single(value as f32)
    }
    fn from_u64(value: u64) -> Self {
        Single(value as f32)
    }
    fn from_usize(value: usize) -> Self {
        Single(value as f32)
    }
    fn from_half_bits(bits: u16) -> Self {
        Single(f32::from(f16::from_bits(bits)))
    }
    fn to_half_bits(self) -> u16 {
        f16::from_f32(self.0).to_bits()
    }
    fn to_u8(self) -> u8 {
        self.0 as u8
    }
    fn to_i32(self) -> i32 {
        self.0 as i32
    }
    fn parse(text: &str) -> Option<Self> {
        text.parse().ok().map(Single)
    }
    fn plus(self, other: Self) -> Self {
        Single(self.0 + other.0)
    }
    fn minus(self, other: Self) -> Self {
        Single(self.0 - other.0)
    }
    fn times(self, other: Self) -> Self {
        Single(self.0 * other.0)
    }
    fn over(self, other: Self) -> Self {
        Single(self.0 / other.0)
    }
    fn negated(self) -> Self {
        Single(-self.0)
    }
    fn lesser(self, other: Self) -> Self {
        Single(self.0.min(other.0))
    }
    fn greater(self, other: Self) -> Self {
        Single(self.0.max(other.0))
    }
    fn exceeds(self, other: Self) -> bool {
        self.0 > other.0
    }
    fn below(self, other: Self) -> bool {
        self.0 < other.0
    }
}

fn bits(value: f32) -> u16 {
    f16::from_f32(value).to_bits()
}

fn value(bits: u16) -> f32 {
    f32::from(f16::from_bits(bits))
}

// The scale of sub-block `j` as the kernel unpacks it.
fn unpack_scale(block: &[u8], j: usize) -> u8 {
    if j < 4 {
        block[4 + j] & 63
    } else {
        (block[8 + j] & 0xF) | ((block[j] >> 6) << 4)
    }
}

// The minimum of sub-block `j` as the kernel unpacks it.
fn unpack_min(block: &[u8], j: usize) -> u8 {
    if j < 4 {
        block[8 + j] & 63
    } else {
        (block[8 + j] >> 4) | ((block[4 + j] >> 6) << 4)
    }
}

// Value `t` of a block as the kernel restores it.
fn restore(block: &[u8], t: usize) -> f32 {
    let d = value(u16::from_le_bytes([block[0], block[1]]));
    let dmin = value(u16::from_le_bytes([block[2], block[3]]));
    let byte = block[16 + t / 2];
    let quant = if t % 2 == 0 { byte & 0xF } else { byte >> 4 };
    let j = t / 32;
    d * unpack_scale(block, j) as f32 * quant as f32 - dmin * unpack_min(block, j) as f32
}

#[test]
fn generated_pattern() {
    let mut out = vec![7u16; 2 * 3 * 4 + 5];
    generate_data::<Single>(&mut out, 4, 3, 2, 4, 3);
    for batch in 0..2usize {
        for i in 0..3usize {
            for j in 0..4usize {
                let expected = ((i ^ j) as f32 + batch as f32 - 128.0) / 256.0;
                assert_eq!(value(out[batch * 12 + i * 4 + j]), expected);
            }
        }
    }
    assert_eq!(value(out[0]), -0.5);
    assert_eq!(value(out[12 + 2 * 4 + 1]), -0.48828125 + 0.00390625);
    assert_eq!(&out[24..], &[7, 7, 7, 7, 7]);
}

#[test]
fn generated_padding_is_zero() {
    let mut out = vec![7u16; 4 * 4];
    generate_data::<Single>(&mut out, 2, 3, 1, 4, 4);
    for i in 0..4usize {
        for j in 0..4usize {
            if i < 3 && j < 2 {
                assert_eq!(value(out[i * 4 + j]), ((i ^ j) as f32 - 128.0) / 256.0);
            } else {
                assert_eq!(out[i * 4 + j], 0);
            }
        }
    }
}

#[test]
fn generated_remainder_keeps_the_sign() {
    // A seed of 1023 - 128 leaves 127 behind 3 * 256; a negative seed stays negative.
    let mut out = vec![0u16; 1024];
    generate_data::<Single>(&mut out, 1024, 1, 1, 1024, 1);
    assert_eq!(value(out[0]), -128.0 / 256.0);
    assert_eq!(value(out[127]), -1.0 / 256.0);
    assert_eq!(value(out[128]), 0.0);
    assert_eq!(value(out[384]), 0.0);
    assert_eq!(value(out[1023]), 127.0 / 256.0);
}

#[test]
fn generated_nothing_for_empty_sizes() {
    let mut out: Vec<u16> = vec![9, 9];
    generate_data::<Single>(&mut out, 5, 5, 0, 5, 5);
    generate_data::<Single>(&mut out, 5, 5, 5, 0, 5);
    generate_data::<Single>(&mut out, 5, 5, 5, 5, 0);
    assert_eq!(out, vec![9, 9]);
}

#[test]
fn product_of_small_matrices() {
    // Two columns of three in the first operand, one column of three in the second.
    let a: Vec<u16> = [1.0, 2.0, 3.0, 4.0, 5.0, 6.0].iter().map(|&v| bits(v)).collect();
    let b: Vec<u16> = [7.0, 8.0, 9.0].iter().map(|&v| bits(v)).collect();
    let mut c = vec![3u16; 3];
    reference_gemm::<Single>(&a, &b, &mut c, 2, 1, 3, 1);
    assert_eq!(value(c[0]), 1.0 * 7.0 + 3.0 * 8.0 + 5.0 * 9.0);
    assert_eq!(value(c[1]), 2.0 * 7.0 + 4.0 * 8.0 + 6.0 * 9.0);
    assert_eq!(c[2], 3);
}

#[test]
fn product_layout() {
    let (m, n, k, batches) = (3usize, 2usize, 4usize, 2usize);
    let a: Vec<u16> = (0..batches * m * k).map(|p| bits(p as f32 - 7.0)).collect();
    let b: Vec<u16> = (0..batches * n * k).map(|p| bits(5.0 - p as f32)).collect();
    let mut c = vec![0u16; batches * m * n];
    reference_gemm::<Single>(&a, &b, &mut c, m, n, k, batches);
    for batch in 0..batches {
        for i in 0..m {
            for j in 0..n {
                let mut sum = 0.0f32;
                for l in 0..k {
                    sum += value(a[batch * m * k + l * m + i]) * value(b[batch * n * k + l * n + j]);
                }
                assert_eq!(c[batch * m * n + j * m + i], bits(sum));
            }
        }
    }
}

#[test]
fn product_of_a_short_output_is_cut_off() {
    let a = vec![bits(2.0); 2];
    let b = vec![bits(3.0); 2];
    let mut c = vec![0u16; 1];
    reference_gemm::<Single>(&a, &b, &mut c, 2, 2, 1, 1);
    assert_eq!(value(c[0]), 6.0);
}

#[test]
fn product_without_terms_is_zero() {
    let mut c = vec![9u16; 3];
    reference_gemm::<Single>(&[], &[], &mut c, 1, 2, 0, 1);
    assert_eq!(c, vec![0, 0, 9]);
}

#[test]
fn error_of_equal_products_is_zero() {
    let x: Vec<u16> = (0..12).map(|p| bits(p as f32)).collect();
    assert_eq!(compare_ref::<Single>(&x, &x, 2, 3, 2, 2, 3).0, 0.0);
}

#[test]
fn error_of_padded_products() {
    // Two rows of two, stored in `x` as three rows of four.
    let r: Vec<u16> = [1.0, 2.0, 3.0, 4.0].iter().map(|&v| bits(v)).collect();
    let mut x = vec![bits(100.0); 12];
    x[0] = bits(1.5);
    x[1] = bits(2.0);
    x[4] = bits(1.0);
    x[5] = bits(5.0);
    let error = compare_ref::<Single>(&x, &r, 2, 2, 1, 3, 4);
    assert_eq!(error.0, (0.25 + 0.0 + 4.0 + 1.0) / 4.0);
}

#[test]
fn error_of_nothing_is_not_a_number() {
    assert!(compare_ref::<Single>(&[], &[], 0, 3, 2, 0, 3).0.is_nan());
}

#[test]
fn sub_block_of_sixteen_levels() {
    let values: Vec<Single> = (0..32).map(|i| Single((i % 16) as f32)).collect();
    let sub = quantize_sub_block(&values);
    assert_eq!(sub.scale.0, 1.0);
    assert_eq!(sub.offset.0, 0.0);
    let expected: Vec<u8> = (0..32).map(|i| (i % 16) as u8).collect();
    assert_eq!(sub.quants, expected);
}

#[test]
fn sub_block_below_zero() {
    let values: Vec<Single> = (0..32).map(|i| Single(-1.0 - (i % 2) as f32)).collect();
    let sub = quantize_sub_block(&values);
    assert_eq!(sub.offset.0, 2.0);
    assert_eq!(sub.scale.0, (-1.0f32 + 2.0) / 15.0);
    assert_eq!(sub.quants[0], 15);
    assert_eq!(sub.quants[1], 0);
}

#[test]
fn sub_block_of_zeros() {
    let values = vec![Single(0.0); 32];
    let sub = quantize_sub_block(&values);
    assert_eq!(sub.scale.0, 0.0);
    assert_eq!(sub.quants, vec![0u8; 32]);
}

#[test]
fn block_of_zeros_is_zero() {
    let values = vec![Single(0.0); 256];
    let mut block = vec![0xAAu8; 144];
    quantize_block_q4k(&values, &mut block);
    assert_eq!(block[0..2], [0, 0]);
    // The lowest level lies at minus zero, so `dmin` is zero of either sign.
    assert_eq!(block[2], 0);
    assert_eq!(&block[4..], &[0u8; 140][..]);
}

#[test]
fn block_of_sixteen_levels() {
    let values: Vec<Single> = (0..256).map(|i| Single((i % 16) as f32)).collect();
    let mut block = vec![0u8; 150];
    block[144..].copy_from_slice(&[1, 2, 3, 4, 5, 6]);
    quantize_block_q4k(&values, &mut block);
    assert_eq!(block[0..2], bits(1.0 / 63.0).to_le_bytes());
    assert_eq!(&block[4..8], &[0xFF; 4]);
    assert_eq!(&block[8..12], &[0; 4]);
    assert_eq!(&block[12..16], &[0x0F; 4]);
    let row = [0x10u8, 0x32, 0x54, 0x76, 0x98, 0xBA, 0xDC, 0xFE];
    for t in 0..128 {
        assert_eq!(block[16 + t], row[t % 8]);
    }
    assert_eq!(&block[144..], &[1, 2, 3, 4, 5, 6]);
}

#[test]
fn block_holds_its_params() {
    let values: Vec<Single> =
        (0..256).map(|i| Single(((i * 37 + 11) % 101) as f32 / 17.0 - 2.5)).collect();
    let params = block_params(&values);
    let mut block = vec![0u8; 144];
    quantize_block_q4k(&values, &mut block);
    assert_eq!(block[0..2], params.d.to_half_bits().to_le_bytes());
    assert_eq!(block[2..4], params.dmin.to_half_bits().to_le_bytes());
    for j in 0..8 {
        assert!(params.scales[j] < 64 && params.mins[j] < 64);
        assert_eq!(unpack_scale(&block, j), params.scales[j]);
        assert_eq!(unpack_min(&block, j), params.mins[j]);
    }
    for t in 0..256 {
        let byte = block[16 + t / 2];
        let quant = if t % 2 == 0 { byte & 0xF } else { byte >> 4 };
        assert_eq!(quant, params.quants[t]);
    }
}

#[test]
fn block_restores_its_values() {
    let values: Vec<Single> =
        (0..256).map(|i| Single(((i * 29 + 3) % 64) as f32 / 32.0 - 1.0)).collect();
    let mut block = vec![0u8; 144];
    quantize_block_q4k(&values, &mut block);
    for t in 0..256 {
        // Half a level of about 2/15, and the rounding of the 6-bit scales.
        assert!((restore(&block, t) - values[t].0).abs() < 0.1);
    }
}

#[test]
fn columns_become_blocks() {
    let (cols, batches) = (3usize, 2usize);
    let b: Vec<u16> = (0..batches * 256 * cols)
        .map(|p| bits(((p * 13 + 5) % 97) as f32 / 31.0 - 1.0))
        .collect();
    let out = quantize_b_q4k::<Single>(&b, cols, 256, batches);
    assert_eq!(out.len(), batches * cols * 144);
    for batch in 0..batches {
        for n in 0..cols {
            let column: Vec<Single> = (0..256)
                .map(|k| Single(value(b[batch * 256 * cols + k * cols + n])))
                .collect();
            let mut block = vec![0u8; 144];
            quantize_block_q4k(&column, &mut block);
            let start = (batch * cols + n) * 144;
            assert_eq!(&out[start..start + 144], &block[..]);
        }
    }
}

#[test]
fn no_columns_become_no_blocks() {
    assert!(quantize_b_q4k::<Single>(&[], 0, 256, 4).is_empty());
    assert!(quantize_b_q4k::<Single>(&[], 4, 256, 0).is_empty());
}

#[test]
fn prepared_data() {
    let data = prepare::<Single>();
    assert_eq!(data.a.len(), at_size());
    assert_eq!(data.b.len(), BATCH_SIZE * K * N);
    assert_eq!(data.c_ref.len(), c_size());
    assert_eq!(data.b_q4k.len(), BATCH_SIZE * N * 144);
    assert_eq!(value(data.a[0]), -0.5);
    assert_eq!(value(data.b[N + 1]), -0.5);

    let (batch, i, j) = (35usize, 200usize, 17usize);
    let mut sum = 0.0f32;
    for l in 0..K {
        sum += value(data.a[batch * M * K + l * M + i]) * value(data.b[batch * N * K + l * N + j]);
    }
    assert_eq!(data.c_ref[batch * M * N + j * M + i], bits(sum));
    assert!(data.c_ref[BATCH_SIZE * M * N..].iter().all(|&bits| bits == 0));
}

#[test]
fn versions() {
    assert_eq!(parse_opencl_version::<Single>("OpenCL 3.0 CUDA 12.2").0, 3.0);
    assert_eq!(parse_opencl_version::<Single>("  OpenCL\t1.2\n").0, 1.2);
    assert_eq!(parse_opencl_version::<Single>("OpenCL").0, 1.0);
    assert_eq!(parse_opencl_version::<Single>("").0, 1.0);
    assert_eq!(parse_opencl_version::<Single>("OpenCL three").0, 1.0);
    assert_eq!(parse_opencl_version::<Single>("OpenCL\u{3000}2.0").0, 2.0);
}

#[test]
fn version_points() {
    assert_eq!(version_score(Single(3.0)), 30);
    assert_eq!(version_score(Single(1.25)), 12);
    assert_eq!(version_score(Single(1e30)), i32::MAX);
    assert_eq!(version_score(Single(f32::NAN)), 0);
}

#[test]
fn best_run_is_the_fastest() {
    let mut best = BestRun::<Single>::none();
    assert_eq!(best.time.0, f32::MAX);
    assert_eq!(best.error.0, 0.0);
    assert_eq!(best.args, "");
    best.record(Single(0.0), Single(9.0), "no time");
    assert_eq!(best.args, "");
    best.record(Single(2.0), Single(0.5), "first");
    best.record(Single(3.0), Single(0.1), "slower");
    best.record(Single(2.0), Single(0.2), "equal");
    best.record(Single(f32::NAN), Single(0.2), "unknown");
    assert_eq!((best.time.0, best.error.0, best.args.as_str()), (2.0, 0.5, "first"));
    best.record(Single(1.0), Single(0.7), "faster");
    assert_eq!((best.time.0, best.error.0, best.args.as_str()), (1.0, 0.7, "faster"));
}

fn go_on(progress: Progress<Single>) -> Session<Single> {
    match progress {
        Progress::Continue(next) => next,
        _ => panic!("the session ended early"),
    }
}

#[test]
fn session_of_four_runs() {
    let size = BATCH_SIZE * M * N;
    let c_ref = vec![bits(1.0); size];
    let mut session = Session::<Single>::first();
    let setup = [
        Action::Build,
        Action::CreateKernel,
        Action::CreateQueue,
        Action::CreateBufferA,
        Action::CreateBufferB,
        Action::CreateBufferC,
        Action::WriteA,
        Action::WriteB,
        Action::FinishWrites,
    ];
    for action in setup {
        assert_eq!(session.action, action);
        session = go_on(session.step(Reply::Done, &c_ref));
    }
    for run in 0..RUNS {
        assert_eq!(session.run, run);
        assert_eq!(session.action, Action::Launch);
        session = go_on(session.step(Reply::Done, &c_ref));
        assert_eq!(session.action, Action::FinishLaunch);
        session = go_on(session.step(Reply::Done, &c_ref));
        assert_eq!(session.action, Action::ReadStart);
        session = go_on(session.step(Reply::Time(1_000_000), &c_ref));
        assert_eq!(session.action, Action::ReadEnd);
        session = go_on(session.step(Reply::Time(3_000_000 + run as u64 * 1_000_000), &c_ref));
        assert_eq!(session.action, Action::ReadOutput);
        session = go_on(session.step(Reply::Done, &c_ref));
        assert_eq!(session.action, Action::FinishRead);
        let c_out = vec![bits(1.0 + run as f32); size];
        match session.step(Reply::Output(&c_out), &c_ref) {
            Progress::Continue(next) => {
                assert!(run + 1 < RUNS);
                session = next;
            }
            Progress::Finished(time, error) => {
                assert_eq!(run + 1, RUNS);
                assert_eq!(time.0, 14_000_000u64 as f32 * 1e-6 / 4.0);
                assert_eq!(error.0, (0.0 + 1.0 + 4.0 + 9.0) / 4.0);
                return;
            }
            Progress::Failed(text) => panic!("{}", text),
        }
    }
    panic!("the session did not finish");
}

#[test]
fn session_failures_are_labelled() {
    let labels = [
        (Action::Build, "build: no"),
        (Action::CreateKernel, "kernel: no"),
        (Action::CreateQueue, "queue: no"),
        (Action::CreateBufferA, "buf_a: no"),
        (Action::CreateBufferB, "buf_b: no"),
        (Action::CreateBufferC, "buf_c: no"),
        (Action::WriteA, "write_a: no"),
        (Action::WriteB, "write_b: no"),
        (Action::FinishWrites, "finish: no"),
        (Action::Launch, "enqueue: no"),
        (Action::FinishLaunch, "finish2: no"),
        (Action::ReadStart, "prof_start: no"),
        (Action::ReadEnd, "prof_end: no"),
        (Action::ReadOutput, "read_c: no"),
        (Action::FinishRead, "finish3: no"),
    ];
    for (action, expected) in labels {
        let mut session = Session::<Single>::first();
        session.action = action;
        match session.step(Reply::Failed("no"), &[]) {
            Progress::Failed(text) => assert_eq!(text, expected),
            _ => panic!("a failure ends the session"),
        }
    }
}

#[test]
fn longer_batch_extends_the_data() {
    let (m, n, m_ceil, n_ceil) = (5usize, 3usize, 6usize, 4usize);
    let mut short = vec![0u16; 2 * m_ceil * n_ceil];
    let mut long = vec![0u16; 5 * m_ceil * n_ceil];
    generate_data::<Single>(&mut short, m, n, 2, m_ceil, n_ceil);
    generate_data::<Single>(&mut long, m, n, 5, m_ceil, n_ceil);
    assert_eq!(short[..], long[..short.len()]);
    assert_ne!(long[m_ceil * n_ceil], long[2 * m_ceil * n_ceil]);
}

#[test]
fn exchanged_sizes_transpose_the_data() {
    let (m, n, m_ceil, n_ceil, batches) = (5usize, 3usize, 6usize, 4usize, 2usize);
    let mut data = vec![0u16; batches * m_ceil * n_ceil];
    let mut transposed = vec![0u16; batches * m_ceil * n_ceil];
    generate_data::<Single>(&mut data, m, n, batches, m_ceil, n_ceil);
    generate_data::<Single>(&mut transposed, n, m, batches, n_ceil, m_ceil);
    for batch in 0..batches {
        let start = batch * m_ceil * n_ceil;
        for i in 0..n_ceil {
            for j in 0..m_ceil {
                assert_eq!(data[start + i * m_ceil + j], transposed[start + j * n_ceil + i]);
            }
        }
    }
}

#[test]
fn exchanged_operands_transpose_the_product() {
    let (m, n, k, batches) = (3usize, 2usize, 4usize, 2usize);
    let a: Vec<u16> = (0..batches * m * k).map(|p| bits(p as f32 / 3.0 - 2.0)).collect();
    let b: Vec<u16> = (0..batches * n * k).map(|p| bits(1.7 - p as f32)).collect();
    let mut c = vec![0u16; batches * m * n];
    let mut transposed = vec![0u16; batches * m * n];
    reference_gemm::<Single>(&a, &b, &mut c, m, n, k, batches);
    reference_gemm::<Single>(&b, &a, &mut transposed, n, m, k, batches);
    for batch in 0..batches {
        for i in 0..m {
            for j in 0..n {
                let start = batch * m * n;
                assert_eq!(c[start + j * m + i], transposed[start + i * n + j]);
            }
        }
    }
}

#[test]
fn batches_are_multiplied_alone() {
    let (m, n, k, batches) = (3usize, 2usize, 4usize, 3usize);
    let a: Vec<u16> = (0..batches * m * k).map(|p| bits(p as f32 / 7.0)).collect();
    let b: Vec<u16> = (0..batches * n * k).map(|p| bits(2.5 - p as f32)).collect();
    let mut c = vec![0u16; batches * m * n];
    reference_gemm::<Single>(&a, &b, &mut c, m, n, k, batches);
    for batch in 0..batches {
        let a_alone = &a[batch * m * k..(batch + 1) * m * k];
        let b_alone = &b[batch * n * k..(batch + 1) * n * k];
        let mut alone = vec![0u16; m * n];
        reference_gemm::<Single>(a_alone, b_alone, &mut alone, m, n, k, 1);
        assert_eq!(c[batch * m * n..(batch + 1) * m * n], alone[..]);
    }
}

#[test]
fn error_does_not_depend_on_the_order() {
    let x: Vec<u16> = (0..12).map(|p| bits(p as f32 / 3.0)).collect();
    let y: Vec<u16> = (0..12).map(|p| bits(2.0 - p as f32 / 5.0)).collect();
    let one = compare_ref::<Single>(&x, &y, 2, 3, 2, 2, 3);
    let other = compare_ref::<Single>(&y, &x, 2, 3, 2, 2, 3);
    assert_eq!(one.0, other.0);
    assert!(one.0 > 0.0);
}

#[test]
fn only_the_second_word_is_a_version() {
    let version = parse_opencl_version::<Single>("OpenCL 2.1 AMD-APP 3.0");
    assert_eq!(version.0, 2.1);
    assert_eq!(parse_opencl_version::<Single>("9.9 2.1").0, version.0);
}

// Values whose sub-blocks have positive scales and minima.
fn uneven() -> Vec<Single> {
    (0..256).map(|i| Single(((i * 37 + 11) % 101) as f32 / 17.0 - 2.5)).collect()
}

#[test]
fn block_ignores_what_follows_its_values() {
    let mut values = uneven();
    let mut block = vec![0u8; 144];
    quantize_block_q4k(&values, &mut block);
    values.push(Single(1000.0));
    values.push(Single(-1000.0));
    let mut longer = vec![1u8; 144];
    quantize_block_q4k(&values, &mut longer);
    assert_eq!(block, longer);
}

#[test]
fn doubled_values_double_the_factors() {
    let values = uneven();
    let doubled: Vec<Single> = values.iter().map(|v| Single(2.0 * v.0)).collect();
    let mut block = vec![0u8; 144];
    let mut double = vec![0u8; 144];
    quantize_block_q4k(&values, &mut block);
    quantize_block_q4k(&doubled, &mut double);
    for place in [0usize, 2] {
        let one = value(u16::from_le_bytes([block[place], block[place + 1]]));
        let two = value(u16::from_le_bytes([double[place], double[place + 1]]));
        assert!(one >= 0.001);
        assert_eq!(two, 2.0 * one);
    }
    assert_eq!(block[4..], double[4..]);
}

#[test]
fn exchanged_values_exchange_their_quants() {
    let values = uneven();
    let (a, b) = (67usize, 90usize);
    let mut exchanged = uneven();
    exchanged.swap(a, b);
    let one = block_params(&values);
    let two = block_params(&exchanged);
    assert_ne!(one.quants[a], one.quants[b]);
    assert_eq!(two.quants[a], one.quants[b]);
    assert_eq!(two.quants[b], one.quants[a]);
    let mut block1 = vec![0u8; 144];
    let mut block2 = vec![0u8; 144];
    quantize_block_q4k(&values, &mut block1);
    quantize_block_q4k(&exchanged, &mut block2);
    assert_eq!(block1[..16], block2[..16]);
    for t in 0..128 {
        if t != a / 2 && t != b / 2 {
            assert_eq!(block1[16 + t], block2[16 + t]);
        }
    }
}

#[test]
fn column_changes_its_block_alone() {
    let (cols, batches) = (3usize, 2usize);
    let mut b: Vec<u16> = (0..batches * 256 * cols + 10)
        .map(|p| bits(((p * 13 + 5) % 97) as f32 / 31.0 - 1.0))
        .collect();
    let before = quantize_b_q4k::<Single>(&b, cols, 256, batches);
    let (batch, n) = (1usize, 1usize);
    for k in 0..256 {
        b[batch * 256 * cols + k * cols + n] = bits(k as f32);
    }
    for place in batches * 256 * cols..b.len() {
        b[place] = bits(1000.0);
    }
    let after = quantize_b_q4k::<Single>(&b, cols, 256, batches);
    let start = (batch * cols + n) * 144;
    assert_eq!(before[..start], after[..start]);
    assert_ne!(before[start..start + 144], after[start..start + 144]);
    assert_eq!(before[start + 144..], after[start + 144..]);
}

#[test]
fn joined_batches_join_their_blocks() {
    let cols = 2usize;
    let b: Vec<u16> = (0..3 * 256 * cols)
        .map(|p| bits(((p * 29 + 7) % 89) as f32 / 23.0 - 2.0))
        .collect();
    let (x, y) = b.split_at(256 * cols);
    let mut joined = quantize_b_q4k::<Single>(x, cols, 256, 1);
    joined.extend(quantize_b_q4k::<Single>(y, cols, 256, 2));
    assert_eq!(quantize_b_q4k::<Single>(&b, cols, 256, 3), joined);
}

#[test]
fn offsets_are_not_below_zero() {
    let cases: [fn(usize) -> f32; 4] =
        [|i| i as f32, |i| -(i as f32), |i| 5.0 - i as f32, |_| f32::NAN];
    for case in cases {
        let values: Vec<Single> = (0..32).map(|i| Single(case(i))).collect();
        let offset = quantize_sub_block(&values).offset;
        assert!(!offset.below(Single::decimal(0, 0)));
    }
    let falling: Vec<Single> = (0..32).map(|i| Single(5.0 - i as f32)).collect();
    assert_eq!(quantize_sub_block(&falling).offset.0, 26.0);
}

#[test]
fn negative_zero_keeps_the_block() {
    let mut values = uneven();
    values[3] = Single(0.0);
    values[9] = Single(-0.0);
    let mut exchanged = values.clone();
    exchanged.swap(3, 9);
    let mut block1 = vec![0u8; 144];
    let mut block2 = vec![0u8; 144];
    quantize_block_q4k(&values, &mut block1);
    quantize_block_q4k(&exchanged, &mut block2);
    assert_eq!(block1, block2);
}

// Numbers with all the corners of single precision.
fn corners() -> Vec<Single> {
    let mut numbers = vec![0.0, f32::NAN, f32::INFINITY, f32::MAX, f32::MIN_POSITIVE, 1e-45];
    numbers.extend([1.0, 3.0, 15.0, 63.0, 1.0 / 3.0, 65504.0, 0.001, 1e-24]);
    let opposites: Vec<f32> = numbers.iter().map(|v| -v).collect();
    numbers.extend(opposites);
    numbers.into_iter().map(Single).collect()
}

// Numbers that differ in the sign of a zero or in the bits of what is not a number.
fn alike(a: Single, b: Single) -> bool {
    a.0 == b.0 || (a.0.is_nan() && b.0.is_nan())
}

#[test]
fn operations_keep_the_form() {
    let numbers = corners();
    for &a in &numbers {
        for &c in numbers.iter().filter(|&&c| alike(a, c)) {
            assert!(alike(a.negated(), c.negated()));
            assert_eq!(a.to_u8(), c.to_u8());
            if a.exceeds(Single(0.0)) {
                assert_eq!(a.0.to_bits(), c.0.to_bits());
            }
            for &b in &numbers {
                for &d in numbers.iter().filter(|&&d| alike(b, d)) {
                    assert!(alike(a.lesser(b), c.lesser(d)));
                    assert!(alike(a.greater(b), c.greater(d)));
                    assert!(alike(a.minus(b), c.minus(d)));
                    assert!(alike(a.plus(b), c.plus(d)));
                    assert_eq!(a.exceeds(b), c.exceeds(d));
                    if b.exceeds(Single(0.0)) {
                        assert!(alike(a.over(b), c.over(d)));
                    }
                }
                if a.exceeds(b) {
                    assert!(a.minus(b).exceeds(Single(0.0)));
                }
            }
        }
    }
}

#[test]
fn smallest_and_largest_in_any_order() {
    let numbers = corners();
    for &a in &numbers {
        for &b in &numbers {
            for &c in &numbers {
                assert!(alike(a.lesser(b).lesser(c), a.lesser(c).lesser(b)));
                assert!(alike(a.greater(b).greater(c), a.greater(c).greater(b)));
            }
        }
    }
}

#[test]
fn halves_keep_their_sign() {
    for half in 0..=u16::MAX {
        let number = Single::from_half_bits(half);
        assert_eq!(number.below(Single(0.0)), half > 0x8000 && half <= 0xfc00);
        assert_eq!(number.0.is_nan(), half % 0x8000 > 0x7c00);
        let back = number.to_half_bits();
        assert!(back == half || (number.0.is_nan() && back % 0x8000 > 0x7c00));
    }
}
