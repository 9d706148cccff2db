use zk_arith::field::Fp;
use zk_arith::group::{batch_normalize, Affine, Projective};
use zk_arith::fft::{best_fft, best_fft_cpu, g_to_lagrange};
use zk_arith::msm::{best_multiexp, best_multiexp_cpu, get_at, multiexp_serial, small_multiexp,
    Bucket};
use zk_arith::parallel::{ceil_log2_diff, chunk_len, current_num_threads, log2_floor,
    parallelize};
use zk_arith::device::{DeviceManager, DeviceManagerError, DeviceStatusType, DeviceType,
    DeviceUnit, DeviceUnitType};

fn fp(v: u64) -> Fp {
    Fp::new(v)
}

fn fpvec(vs: &[u64]) -> Vec<Fp> {
    vs.iter().map(|&v| Fp::new(v)).collect()
}

fn affvec(vs: &[u64]) -> Vec<Affine> {
    vs.iter().map(|&v| Affine { c: Fp::new(v) }).collect()
}

// a primitive 8th root of unity: the fixed generator raised to 2^5
fn omega8() -> Fp {
    Fp::root_of_unity().pow(32)
}

#[test]
fn fft_of_all_ones_is_impulse() {
    // log_n = 3: the transform of an all-ones vector is n, 0, 0, ...
    let mut buffer = fpvec(&[1, 1, 1, 1, 1, 1, 1, 1]);
    best_fft_cpu(&mut buffer, omega8(), 3);
    assert_eq!(buffer, fpvec(&[8, 0, 0, 0, 0, 0, 0, 0]));
}

#[test]
fn fft_matches_pointwise_evaluation() {
    let coeffs = fpvec(&[5, 1, 200, 7, 0, 13, 9, 2]);
    let mut buffer = coeffs.clone();
    let omega = omega8();
    best_fft(&mut buffer, omega, 3);
    for i in 0..8u64 {
        let x = omega.pow(i);
        assert_eq!(buffer[i as usize], zk_arith::poly::eval_polynomial(&coeffs, x));
    }
}

#[test]
fn fft_forward_inverse_round_trip() {
    // forward at omega, inverse at its inverse, then scale by 1/n
    let original = fpvec(&[3, 1, 4, 1, 5, 9, 2, 6]);
    let mut buffer = original.clone();
    let omega = omega8();
    best_fft_cpu(&mut buffer, omega, 3);
    let omega_inv = omega.invert();
    best_fft_cpu(&mut buffer, omega_inv, 3);
    let n_inv = fp(8).invert();
    let back: Vec<Fp> = buffer.iter().map(|b| b.mul(n_inv)).collect();
    assert_eq!(back, original);
}

#[test]
fn fft_deep_uses_recursion() {
    // log_n = 4 exceeds the stage-parallel crossover for the 8-worker pool
    let coeffs: Vec<Fp> = (0..16u64).map(fp).collect();
    let mut buffer = coeffs.clone();
    let omega = Fp::root_of_unity().pow(16); // order 16
    best_fft_cpu(&mut buffer, omega, 4);
    for i in 0..16u64 {
        let x = omega.pow(i);
        assert_eq!(buffer[i as usize], zk_arith::poly::eval_polynomial(&coeffs, x));
    }
}

#[test]
fn g_to_lagrange_small() {
    let g = vec![Projective { c: fp(3) }, Projective { c: fp(5) }];
    let out = g_to_lagrange(g, 1);
    // inverse transform of [3, 5] at the order-2 root, scaled by 1/2
    assert_eq!(out, vec![Affine { c: fp(4) }, Affine { c: fp(256) }]);
}

#[test]
fn msm_bucket_and_double_and_add_agree() {
    // a spread of sizes crosses the window and chunking thresholds
    for n in [0usize, 1, 3, 5, 20, 40] {
        let coeffs: Vec<Fp> = (0..n as u64).map(|i| fp(3 * i + 1)).collect();
        let bases: Vec<Affine> = (0..n as u64).map(|i| Affine { c: fp(7 * i + 2) }).collect();
        let a = best_multiexp_cpu(&coeffs, &bases);
        let b = small_multiexp(&coeffs, &bases);
        assert_eq!(a, b);
    }
}

#[test]
fn msm_exact_value() {
    // 2*10 + 3*20 = 80
    let coeffs = fpvec(&[2, 3]);
    let bases = affvec(&[10, 20]);
    assert_eq!(best_multiexp(&coeffs, &bases), Projective { c: fp(80) });
    let mut acc = Projective::identity();
    multiexp_serial(&coeffs, &bases, &mut acc);
    assert_eq!(acc, Projective { c: fp(80) });
    assert_eq!(small_multiexp(&coeffs, &bases), Projective { c: fp(80) });
}

#[test]
fn msm_zero_coefficients() {
    let coeffs = fpvec(&[0, 0, 0, 0]);
    let bases = affvec(&[1, 2, 3, 4]);
    assert_eq!(best_multiexp_cpu(&coeffs, &bases), Projective::identity());
}

#[test]
fn segment_extraction() {
    // 0b1101_0110 read in 3-bit segments from the low end
    let v = 0b1101_0110u64;
    assert_eq!(get_at(0, 3, v), 0b110);
    assert_eq!(get_at(1, 3, v), 0b010);
    assert_eq!(get_at(2, 3, v), 0b011);
    assert_eq!(get_at(30, 3, v), 0);
    assert_eq!(get_at(64, 3, v), 0);
}

#[test]
fn bucket_transitions() {
    let mut b = Bucket::Empty;
    b.add_assign(&Affine { c: fp(5) });
    assert_eq!(b, Bucket::Single(Affine { c: fp(5) }));
    b.add_assign(&Affine { c: fp(7) });
    assert_eq!(b, Bucket::Accumulated(Projective { c: fp(12) }));
    b.add_assign(&Affine { c: fp(250) });
    assert_eq!(b, Bucket::Accumulated(Projective { c: fp(5) }));
    let folded = b.add(Projective { c: fp(10) });
    assert_eq!(folded, Projective { c: fp(15) });
    assert_eq!(Bucket::Empty.add(Projective { c: fp(9) }), Projective { c: fp(9) });
}

#[test]
fn group_forms_convert() {
    let a = Affine { c: fp(6) };
    let p = a.to_projective();
    assert_eq!(p.to_affine(), a);
    assert_eq!(p.double(), Projective { c: fp(12) });
    let n = batch_normalize(&vec![Projective { c: fp(1) }, Projective { c: fp(2) }]);
    assert_eq!(n, affvec(&[1, 2]));
}

#[test]
fn parallel_utilities() {
    assert_eq!(current_num_threads(), 8);
    assert_eq!(log2_floor(1), 0);
    assert_eq!(log2_floor(8), 3);
    assert_eq!(log2_floor(9), 3);
    assert_eq!(ceil_log2_diff(8), 0);
    assert_eq!(ceil_log2_diff(7), 1);
    assert_eq!(ceil_log2_diff(9), 7);
    assert_eq!(chunk_len(100), 12);
    assert_eq!(chunk_len(3), 1);
}

#[test]
fn parallelize_applies_to_every_chunk() {
    let v: Vec<u64> = (0..20).collect();
    let doubled = parallelize(v, |chunk: Vec<u64>, _start: usize| {
        chunk.iter().map(|x| x * 2).collect::<Vec<u64>>()
    });
    let expected: Vec<u64> = (0..20).map(|x| x * 2).collect();
    assert_eq!(doubled, expected);
}

#[test]
fn device_dispatch_decisions() {
    let mut mgr = DeviceManager::new();
    let ctx = mgr.get_handle_mut();
    // nothing registered: the parameter set is unknown
    assert_eq!(
        ctx.execute_msm(1, 0),
        Err(DeviceManagerError::DeviceManagerErrorParamIdNone)
    );
    ctx.register_msm_param(1, 2);
    // registered, but the base-set index is out of range
    assert_eq!(
        ctx.execute_msm(1, 2),
        Err(DeviceManagerError::DeviceManagerErrorBasesIndex)
    );
    // in range, but no idle unit exists
    assert_eq!(
        ctx.execute_msm(1, 1),
        Err(DeviceManagerError::DeviceManagerErrorNoAvailableDevice)
    );
    // an idle unit of the wrong device kind does not serve the request
    ctx.register_unit(DeviceUnit {
        device_id: 3,
        device_type: DeviceType::DeviceTypeFPGA,
        device_unit_type: DeviceUnitType::DeviceUnitTypeMSM,
        device_status: DeviceStatusType::DeviceStatusIdle,
    });
    assert_eq!(
        ctx.execute_msm(1, 1),
        Err(DeviceManagerError::DeviceManagerErrorNoAvailableDevice)
    );
    ctx.register_unit(DeviceUnit {
        device_id: 7,
        device_type: DeviceType::DeviceTypeGPU,
        device_unit_type: DeviceUnitType::DeviceUnitTypeMSM,
        device_status: DeviceStatusType::DeviceStatusIdle,
    });
    assert_eq!(ctx.execute_msm(1, 1), Ok(7));
    // the transform context must be uploaded before a transform request
    assert_eq!(
        ctx.execute_ntt(),
        Err(DeviceManagerError::DeviceManagerErrorParamIdNone)
    );
    ctx.register_ntt();
    assert_eq!(
        ctx.execute_ntt(),
        Err(DeviceManagerError::DeviceManagerErrorNoAvailableDevice)
    );
    ctx.register_unit(DeviceUnit {
        device_id: 9,
        device_type: DeviceType::DeviceTypeGPU,
        device_unit_type: DeviceUnitType::DeviceUnitTypeNTT,
        device_status: DeviceStatusType::DeviceStatusIdle,
    });
    assert_eq!(ctx.execute_ntt(), Ok(9));
    assert_eq!(ctx.get_gpu_unit_number(), 3);
    assert_eq!(ctx.get_gpu_msm_param_uints_number(), 1);
    ctx.deinit();
    assert_eq!(ctx.get_gpu_unit_number(), 0);
}
