use hgemmtest::device::{device_score, device_type_str, score_by_name, select_device, vendor_score};
use hgemmtest::problem::{at_size, c_size, next_power_of_two};
use hgemmtest::q4k::pack_block;
use hgemmtest::text::{contains, push_decimal, second_word};
use hgemmtest::tuning::{build_args, launch_dims, tune_args, tuning_configs, LaunchDims, TuneConfig};

#[test]
fn powers_of_two() {
    let cases = [(0, 1), (1, 1), (2, 2), (3, 4), (4, 4), (5, 8), (255, 256), (256, 256), (257, 512)];
    for (x, expected) in cases {
        assert_eq!(next_power_of_two(x), expected);
    }
    let top = usize::MAX / 2 + 1;
    assert_eq!(next_power_of_two(top), top);
    assert_eq!(next_power_of_two(top - 1), top);
}

#[test]
fn buffer_sizes() {
    assert_eq!(at_size(), 36 * 256 * 256);
    assert_eq!(c_size(), 36 * 256 * 64);
}

#[test]
fn packed_bytes() {
    let scales = [0u8, 1, 2, 63, 16, 33, 50, 63];
    let mins = [63u8, 5, 0, 7, 15, 48, 1, 62];
    let quants: Vec<u8> = (0..256).map(|t| ((t * 7) % 16) as u8).collect();
    let mut block = vec![0u8; 145];
    block[144] = 9;
    pack_block(0x1234, 0xABCD, &scales, &mins, &quants, &mut block);
    assert_eq!(&block[0..4], &[0x34, 0x12, 0xCD, 0xAB]);
    assert_eq!(&block[4..8], &[0x40, 0x81, 0xC2, 0xFF]);
    assert_eq!(&block[8..12], &[0x3F, 0xC5, 0x00, 0xC7]);
    assert_eq!(&block[12..16], &[0xF0, 0x01, 0x12, 0xEF]);
    assert_eq!(&block[16..20], &[0x70, 0x5E, 0x3C, 0x1A]);
    assert_eq!(block[144], 9);
    for j in 0..8 {
        let (scale, min) = if j < 4 {
            (block[4 + j] & 63, block[8 + j] & 63)
        } else {
            (
                (block[8 + j] & 0xF) | ((block[j] >> 6) << 4),
                (block[8 + j] >> 4) | ((block[4 + j] >> 6) << 4),
            )
        };
        assert_eq!((scale, min), (scales[j], mins[j]));
    }
}

#[test]
fn second_words() {
    assert_eq!(second_word("OpenCL 3.0 CUDA"), Some("3.0"));
    assert_eq!(second_word("\u{a0}a\u{2003}\u{2003}bé c"), Some("bé"));
    assert_eq!(second_word("a b"), Some("b"));
    assert_eq!(second_word("one "), None);
    assert_eq!(second_word(" \t\r\n"), None);
    assert_eq!(second_word(""), None);
    // A zero-width space is no white space.
    assert_eq!(second_word("a\u{200b}b"), None);
    for code in 0..0x3100u32 {
        if let Some(c) = char::from_u32(code) {
            let s = format!("a{}b", c);
            assert_eq!(second_word(&s), s.split_whitespace().nth(1));
        }
    }
}

#[test]
fn substrings() {
    assert!(contains("nvidia corporation", "nvidia"));
    assert!(contains("xamd", "amd"));
    assert!(contains("aaamd", "aamd"));
    assert!(contains("", ""));
    assert!(contains("abc", ""));
    assert!(!contains("am", "amd"));
    assert!(!contains("a md", "amd"));
    assert!(!contains("", "a"));
}

#[test]
fn decimals() {
    for n in [0usize, 7, 9, 10, 42, 100, 1009, usize::MAX] {
        let mut out = String::from("n=");
        push_decimal(&mut out, n);
        assert_eq!(out, format!("n={}", n));
    }
}

#[test]
fn device_types() {
    assert_eq!(device_type_str(opencl3::device::CL_DEVICE_TYPE_GPU), "GPU");
    assert_eq!(device_type_str(opencl3::device::CL_DEVICE_TYPE_CPU), "CPU");
    assert_eq!(device_type_str(opencl3::device::CL_DEVICE_TYPE_ACCELERATOR), "Accelerator");
    assert_eq!(device_type_str(4), "GPU");
    assert_eq!(device_type_str(2), "CPU");
    assert_eq!(device_type_str(8), "Accelerator");
    assert_eq!(device_type_str(0), "Unknown");
    assert_eq!(device_type_str(6), "Unknown");
}

#[test]
fn device_scores() {
    assert_eq!(device_score("NVIDIA Corporation", 4, 30), Some(1130));
    assert_eq!(device_score("Advanced Micro Devices, Inc.", 4, 21), Some(1121));
    assert_eq!(device_score("AuthenticAMD", 2, 20), Some(1020));
    assert_eq!(device_score("Intel(R) Corporation", 4, 30), Some(630));
    assert_eq!(device_score("The pocl project", 2, 12), Some(12));
    assert_eq!(device_score("", 0, -7), Some(-7));
    assert_eq!(device_score("INTEL and AMD and Nvidia", 4, 0), Some(2600));
    assert_eq!(device_score("", 0, i32::MAX), Some(i32::MAX));
    assert_eq!(device_score("", 4, i32::MAX), None);
    assert_eq!(device_score("", 4, i32::MIN), Some(i32::MIN + 100));
    assert_eq!(score_by_name("NVIDIA", 4, 0), Some(100));
    assert_eq!(vendor_score("advanced micro devices amd"), 1000);
}

#[test]
fn device_selection() {
    assert_eq!(select_device(&[]), None);
    assert_eq!(select_device(&[i32::MIN]), None);
    assert_eq!(select_device(&[i32::MIN, -3]), Some(1));
    assert_eq!(select_device(&[5, 9, 9, 2]), Some(1));
    assert_eq!(select_device(&[9, 9]), Some(0));
    assert_eq!(select_device(&[1, 2, 3]), Some(2));
}

#[test]
fn configurations() {
    let mut expected = Vec::new();
    for mdimc in [16usize, 32, 64] {
        for ndimc in [16usize, 32] {
            for mwg in [16usize, 32, 64] {
                for nwg in [16usize, 32] {
                    if mwg < mdimc || nwg < ndimc {
                        continue;
                    }
                    for kwg in [16usize, 32] {
                        for sa in 0..=1usize {
                            for sb in 0..=1usize {
                                for vwm in [1usize, 2, 4, 8] {
                                    for vwn in [1usize, 2, 4, 8] {
                                        if (sa == 0 && vwm != 1) || (sb == 0 && vwn != 1) {
                                            continue;
                                        }
                                        expected.push(TuneConfig {
                                            mdimc, ndimc, mwg, nwg, kwg, sa, sb, vwm, vwn,
                                        });
                                    }
                                }
                            }
                        }
                    }
                }
            }
        }
    }
    assert_eq!(tuning_configs(), expected);
    assert_eq!(expected.len(), 900);
}

#[test]
fn known_winners_are_tried() {
    let args: Vec<String> = tuning_configs().iter().map(tune_args).collect();
    let winners = [
        " -DMDIMC=16 -DNDIMC=16 -DMWG=16 -DNWG=32 -DKWG=32 -DSA=0 -DSB=0 -DVWM=1 -DVWN=1",
        " -DMDIMC=16 -DNDIMC=16 -DMWG=16 -DNWG=16 -DKWG=32 -DSA=0 -DSB=1 -DVWM=1 -DVWN=8",
    ];
    for winner in winners {
        assert_eq!(args.iter().filter(|a| a.as_str() == winner).count(), 1);
    }
}

#[test]
fn build_options() {
    assert_eq!(
        build_args(" -DSA=1"),
        "-cl-mad-enable -cl-fast-relaxed-math -cl-no-signed-zeros -cl-denorms-are-zero -DQ4K_B -DSA=1"
    );
}

#[test]
fn launches() {
    let c = TuneConfig {
        mdimc: 32, ndimc: 16, mwg: 64, nwg: 32, kwg: 16, sa: 0, sb: 0, vwm: 1, vwn: 1,
    };
    let expected = LaunchDims {
        global_x: 256, global_y: 1, global_z: 36, local_x: 64, local_y: 1, local_z: 1,
    };
    assert_eq!(launch_dims(&c), expected);
    for c in tuning_configs() {
        let dims = launch_dims(&c);
        assert_eq!(dims.global_x % dims.local_x, 0);
        assert_eq!(dims.global_y % dims.local_y, 0);
        assert_eq!(dims.global_x / dims.local_x * c.mwg, 256);
        assert_eq!(dims.global_y / dims.local_y * c.nwg, 32);
    }
}
