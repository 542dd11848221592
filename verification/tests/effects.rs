//! The effects, with the transcendental functions and the filters that they rest on.

use biquad::{Biquad, Coefficients, DirectForm2Transposed, ToHertz, Type, Q_BUTTERWORTH_F32};
use nnnoiseless::DenoiseState;
use rustfft::num_complex::Complex;
use rustfft::FftPlanner;
use vocan::args::Arg;
use vocan::audio_effects::{
    denoiser_frames, dereverb_args, downmix, expand_channel, expander_plan,
    frame_for_denoiser, gain_region, gate_bins, gate_plan, hann_weights, mix_denoised,
    mix_dereverbed, noise_floor, noise_floor_window, peak_level, peak_of, safety_pct_to_margin_db,
    voice_eq_bands, window_places, BandShape, DereverbParams, ExpanderParams,
    GainRegion, NnnoiseParams, SpectralGateParams, BINS, FFT_SIZE,
};
use vocan::expander::{apply_expander, estimate_noise_floor_db};
use vocan::single::Single;
use vocan::spectral_gate::apply_spectral_gate;
use vocan::types::ReductionProfile;

fn s(x: f32) -> Single {
    Single::from_bits(x.to_bits())
}

fn f(x: Single) -> f32 {
    f32::from_bits(x.to_bits())
}

fn singles(x: &[f32]) -> Vec<Single> {
    x.iter().map(|&v| s(v)).collect()
}

fn floats(x: &[Single]) -> Vec<f32> {
    x.iter().map(|&v| f(v)).collect()
}

fn each(x: &[Single], g: impl Fn(f32) -> f32) -> Vec<Single> {
    x.iter().map(|&v| s(g(f(v)))).collect()
}

fn hann(len: usize) -> Vec<Single> {
    let cos = each(&window_places(len), |x| (2.0 * std::f32::consts::PI * x).cos());
    hann_weights(&cos)
}

// ---------------------------------------------------------------------------
// The effects, put together
// ---------------------------------------------------------------------------

fn floor_of(samples: &[f32], sample_rate: u32) -> Option<f32> {
    estimate_noise_floor_db(
        &singles(samples),
        sample_rate,
        |v| s((2.0 * std::f32::consts::PI * f(v)).cos()),
        |v| s(f(v).sqrt()),
        |v| s(f(v).log10()),
    )
    .map(f)
}

fn expand(
    samples: &[f32],
    sample_rate: u32,
    channels: u16,
    params: &ExpanderParams,
    noise_floor_db: f32,
) -> Vec<f32> {
    floats(&apply_expander(
        &singles(samples),
        sample_rate,
        channels,
        params,
        s(noise_floor_db),
        |v| s(f(v).exp()),
        |v| s(10.0f32.powf(f(v))),
        |v| s(f(v).sqrt()),
        |v| s(f(v).log10()),
    ))
}

fn gate(samples: &[f32], sample_rate: u32, channels: u16, p: &SpectralGateParams) -> Vec<f32> {
    let mut planner = FftPlanner::<f32>::new();
    let fft = planner.plan_fft_forward(FFT_SIZE);
    let ifft = planner.plan_fft_inverse(FFT_SIZE);
    let plan = gate_plan(sample_rate, p);
    let slope = f(plan.slope);
    let forward = |x: Vec<Single>| {
        let mut buf: Vec<Complex<f32>> = x.iter().map(|&v| Complex { re: f(v), im: 0.0 }).collect();
        fft.process(&mut buf);
        (buf.iter().map(|z| s(z.re)).collect(), buf.iter().map(|z| s(z.im)).collect())
    };
    let inverse = |re: Vec<Single>, im: Vec<Single>| {
        let mut buf: Vec<Complex<f32>> =
            re.iter().zip(im.iter()).map(|(&a, &b)| Complex { re: f(a), im: f(b) }).collect();
        ifft.process(&mut buf);
        buf.iter().map(|z| s(z.re)).collect()
    };
    floats(&apply_spectral_gate(
        &singles(samples),
        channels,
        &hann(FFT_SIZE),
        s(10f32.powf(f(plan.threshold_exponent))),
        s(f(plan.attack_exponent).exp()),
        s(f(plan.release_exponent).exp()),
        forward,
        inverse,
        |v| s(f(v).sqrt()),
        |v| s(f(v).powf(slope)),
    ))
}

fn apply_voice_eq_inplace(buf: &mut [f32], sample_rate: u32, channels: u16, strength: f32) {
    let fs = (sample_rate as f32).hz();
    let coefficients: Vec<Coefficients<f32>> = voice_eq_bands(s(strength))
        .iter()
        .map(|b| {
            let shape = match b.shape {
                BandShape::LowShelf => Type::LowShelf(f(b.gain_db)),
                BandShape::Peaking => Type::PeakingEQ(f(b.gain_db)),
                BandShape::HighShelf => Type::HighShelf(f(b.gain_db)),
            };
            let q = match b.q_tenths {
                Some(t) => t as f32 / 10.0,
                None => Q_BUTTERWORTH_F32,
            };
            Coefficients::<f32>::from_params(shape, fs, (b.frequency as f32).hz(), q).unwrap()
        })
        .collect();
    let ch = channels as usize;
    for c in 0..ch {
        let mut filters: Vec<DirectForm2Transposed<f32>> =
            coefficients.iter().map(|&k| DirectForm2Transposed::<f32>::new(k)).collect();
        for i in 0..buf.len() / ch {
            let mut x = buf[i * ch + c];
            for filter in filters.iter_mut() {
                x = filter.run(x);
            }
            buf[i * ch + c] = x;
        }
    }
}

fn apply_nnnoise(samples: &[f32], params: &NnnoiseParams) -> Vec<f32> {
    let mut state = DenoiseState::new();
    let size = DenoiseState::FRAME_SIZE;
    let dry = singles(samples);
    let mut wet: Vec<Single> = Vec::new();
    let mut out = vec![0f32; size];
    for frame in 0..denoiser_frames(dry.len(), size) {
        let input = floats(&frame_for_denoiser(&dry, size, frame));
        state.process_frame(&mut out, &input);
        wet.extend(singles(&out));
    }
    floats(&mix_denoised(&dry, &wet, size, params))
}

// ---------------------------------------------------------------------------
// Signals
// ---------------------------------------------------------------------------

fn sine_wave(freq_hz: f32, sample_rate: u32, secs: f32, amplitude: f32) -> Vec<f32> {
    let n = (sample_rate as f32 * secs) as usize;
    (0..n)
        .map(|i| {
            let t = i as f32 / sample_rate as f32;
            amplitude * (2.0 * std::f32::consts::PI * freq_hz * t).sin()
        })
        .collect()
}

fn xorshift_noise(len: usize, amplitude: f32, seed: u32) -> Vec<f32> {
    let mut state = seed.max(1);
    (0..len)
        .map(|_| {
            state ^= state << 13;
            state ^= state >> 17;
            state ^= state << 5;
            let normalized = (state as f32 / u32::MAX as f32) * 2.0 - 1.0;
            normalized * amplitude
        })
        .collect()
}

fn rms(samples: &[f32]) -> f32 {
    if samples.is_empty() {
        return 0.0;
    }
    (samples.iter().map(|s| s * s).sum::<f32>() / samples.len() as f32).sqrt()
}

// ---------------------------------------------------------------------------
// The margin
// ---------------------------------------------------------------------------

#[test]
fn safety_pct_to_margin_db_matches_formula_at_endpoints_and_midpoint() {
    assert!((f(safety_pct_to_margin_db(s(0.0))) - 2.0).abs() < 1e-6);
    assert!((f(safety_pct_to_margin_db(s(50.0))) - 5.0).abs() < 1e-6);
    assert!((f(safety_pct_to_margin_db(s(100.0))) - 8.0).abs() < 1e-6);
}

#[test]
fn safety_pct_to_margin_db_clamps_out_of_range_input() {
    assert!((f(safety_pct_to_margin_db(s(-10.0))) - 2.0).abs() < 1e-6);
    assert!((f(safety_pct_to_margin_db(s(150.0))) - 8.0).abs() < 1e-6);
}

// ---------------------------------------------------------------------------
// The noise floor
// ---------------------------------------------------------------------------

#[test]
fn estimate_noise_floor_db_on_empty_returns_none() {
    assert_eq!(floor_of(&[], 48000), None);
}

#[test]
fn estimate_noise_floor_db_on_zero_sample_rate_returns_none() {
    let samples = xorshift_noise(48000, 0.1, 1);
    assert_eq!(floor_of(&samples, 0), None);
}

#[test]
fn estimate_noise_floor_db_too_short_returns_none() {
    let samples = xorshift_noise(500, 0.1, 1);
    assert_eq!(floor_of(&samples, 48000), None);
}

#[test]
fn estimate_noise_floor_db_on_pure_silence_returns_none() {
    let samples = vec![0.0f32; 96000];
    assert_eq!(floor_of(&samples, 48000), None);
}

#[test]
fn estimate_noise_floor_db_scales_exactly_with_amplitude() {
    let base = xorshift_noise(96000, 1.0, 42);
    let loud: Vec<f32> = base.iter().map(|s| s * 0.5).collect();
    let quiet: Vec<f32> = base.iter().map(|s| s * 0.05).collect();

    let floor_loud = floor_of(&loud, 48000).expect("loud floor");
    let floor_quiet = floor_of(&quiet, 48000).expect("quiet floor");

    let expected_diff_db = 20.0 * (0.5f32 / 0.05f32).log10();
    assert!(
        (floor_loud - floor_quiet - expected_diff_db).abs() < 0.1,
        "floor_loud={floor_loud}, floor_quiet={floor_quiet}, expected diff={expected_diff_db}"
    );
}

#[test]
fn the_noise_floor_is_the_twelfth_percentile() {
    let levels: Vec<Single> = (0..25).map(|i| s(-((i * 7 % 25) as f32))).collect();
    assert_eq!(noise_floor(&levels), Some(s(-21.0)), "place 3 of -24, -23, ..");
    assert_eq!(noise_floor(&levels[..9].to_vec()), None);
    assert_eq!(noise_floor_window(1200, 48_000), Some(1200));
    assert_eq!(noise_floor_window(1199, 48_000), None);
}

#[test]
fn the_noise_floor_is_that_of_a_plain_loop() {
    let samples = xorshift_noise(20000, 0.02, 9);
    let (win_len, hop) = (1103usize, 551usize);
    let window: Vec<f32> = (0..win_len)
        .map(|n| 0.5 - 0.5 * (2.0 * std::f32::consts::PI * (n as f32 / (win_len - 1) as f32)).cos())
        .collect();
    let mut db: Vec<f32> = Vec::new();
    let mut pos = 0;
    while pos + win_len <= samples.len() {
        let mut sum = 0.0f32;
        for n in 0..win_len {
            let v = samples[pos + n] * window[n];
            sum += v * v;
        }
        let level = (sum / win_len as f32).sqrt();
        if level > 1e-7 {
            db.push(20.0 * level.log10());
        }
        pos += hop;
    }
    db.sort_by(|a, b| a.partial_cmp(b).unwrap());
    let expected = db[(db.len() as f32 * 0.12).round() as usize];
    assert_eq!(floor_of(&samples, 44_100), Some(expected));
}

// ---------------------------------------------------------------------------
// The expander
// ---------------------------------------------------------------------------

#[test]
fn apply_expander_on_empty_signal_returns_empty() {
    let params = ExpanderParams::default();
    assert!(expand(&[], 48000, 1, &params, -40.0).is_empty());
}

#[test]
fn apply_expander_zero_channels_returns_input_unchanged() {
    let samples = sine_wave(440.0, 48000, 0.1, 0.5);
    let params = ExpanderParams::default();
    let out = expand(&samples, 48000, 0, &params, -40.0);
    assert_eq!(out, samples);
}

#[test]
fn apply_expander_never_produces_nan_or_inf() {
    let mut samples = xorshift_noise(48000, 0.3, 7);
    samples.extend(vec![0.0f32; 4800]);
    samples.extend(sine_wave(880.0, 48000, 0.5, 0.8));
    let params = ExpanderParams::default();
    let out = expand(&samples, 48000, 1, &params, -40.0);
    assert!(out.iter().all(|s| s.is_finite()));
}

#[test]
fn apply_expander_loud_signal_stays_near_unity_gain_after_attack() {
    let sr = 48000u32;
    let samples = sine_wave(440.0, sr, 1.0, 0.5);
    let params = ExpanderParams::default();
    let out = expand(&samples, sr, 1, &params, -40.0);

    let warmup = (sr as f32 * 0.05) as usize;
    let in_tail_rms = rms(&samples[warmup..]);
    let out_tail_rms = rms(&out[warmup..]);
    let ratio = out_tail_rms / in_tail_rms;
    assert!(
        (0.9..=1.1).contains(&ratio),
        "expected near-unity gain, got ratio={ratio}"
    );
}

#[test]
fn apply_expander_deeply_quiet_signal_settles_near_reduction_profile_cap() {
    let sr = 48000u32;
    let samples = sine_wave(440.0, sr, 2.0, 0.001);
    let params = ExpanderParams {
        reduction_profile: ReductionProfile::Recommended,
        ..Default::default()
    };
    let out = expand(&samples, sr, 1, &params, -20.0);

    let tail_start = samples.len() - 4800;
    let in_tail_rms = rms(&samples[tail_start..]);
    let out_tail_rms = rms(&out[tail_start..]);
    let measured_gain_db = 20.0 * (out_tail_rms / in_tail_rms).log10();

    assert!(
        (measured_gain_db - (-12.0)).abs() < 1.0,
        "expected settled gain near -12.0 dB, got {measured_gain_db}"
    );
}

/// One channel of the expander as a single loop on floats.
fn expand_in_one_loop(x: &[f32], sr: u32, p: &ExpanderParams, floor_db: f32) -> Vec<f32> {
    let threshold_db = floor_db - (2.0 + (f(p.safety_pct).clamp(0.0, 100.0) / 100.0) * (8.0 - 2.0));
    let max_reduction_db = f(p.reduction_profile.db());
    let knee_db = f(p.knee_db).max(0.1);
    let min_gain = 10.0f32.powf(max_reduction_db / 20.0);
    let win = ((sr as f32 * 0.003).round() as usize).max(1);
    let attack = (-1.0 / (f(p.attack_ms) * 0.001 * sr as f32)).exp();
    let release = (-1.0 / (f(p.release_ms) * 0.001 * sr as f32)).exp();
    let hold_samples = (f(p.hold_ms) * 0.001 * sr as f32).round() as usize;
    let mut sum = 0.0f32;
    let mut ring = vec![0.0f32; win];
    let mut env = 0.0f32;
    let mut gain = 1.0f32;
    let mut hold = 0usize;
    let mut out = Vec::new();
    for (i, &v) in x.iter().enumerate() {
        let old = ring[i % win];
        ring[i % win] = v * v;
        sum = sum - old + v * v;
        let level = (sum.max(0.0) / win as f32).sqrt();
        let det = if level > 1e-10 { 20.0 * level.log10() } else { -200.0 };
        env = if i == 0 { det } else { det + (if det > env { attack } else { release }) * (env - det) };
        let target = if env >= threshold_db {
            1.0
        } else if env > threshold_db - knee_db {
            10.0f32.powf(max_reduction_db * ((threshold_db - env) / knee_db) / 20.0)
        } else {
            min_gain
        };
        if env < threshold_db {
            if hold < hold_samples {
                hold += 1;
            }
        } else {
            hold = 0;
        }
        let effective = if hold > 0 && hold < hold_samples { gain.max(target) } else { target };
        gain = effective + (if effective > gain { attack } else { release }) * (gain - effective);
        out.push(v * gain);
    }
    out
}

#[test]
fn the_expander_is_that_of_one_loop_bit_for_bit() {
    let mut x = sine_wave(300.0, 16_000, 0.3, 0.5);
    x.extend(xorshift_noise(6000, 0.004, 3));
    x.extend(vec![0.0; 2000]);
    x.extend(sine_wave(700.0, 16_000, 0.2, 0.3));
    let params = ExpanderParams { knee_db: s(12.0), ..Default::default() };
    assert_eq!(expand(&x, 16_000, 1, &params, -45.0), expand_in_one_loop(&x, 16_000, &params, -45.0));
}

#[test]
fn channels_are_expanded_independently() {
    let a = xorshift_noise(3000, 0.3, 1);
    let b = xorshift_noise(3000, 0.002, 2);
    let mut both: Vec<f32> = Vec::new();
    for i in 0..3000 {
        both.push(a[i]);
        both.push(b[i]);
    }
    both.push(0.5);
    let params = ExpanderParams::default();
    let out = expand(&both, 8_000, 2, &params, -40.0);
    let (ea, eb) = (expand_in_one_loop(&a, 8_000, &params, -40.0), expand_in_one_loop(&b, 8_000, &params, -40.0));
    for i in 0..3000 {
        assert_eq!((out[2 * i], out[2 * i + 1]), (ea[i], eb[i]));
    }
    assert_eq!(out[6000], 0.0, "a frame that is not complete is silent");
}

#[test]
fn no_sample_leaves_the_expander_louder_or_below_the_cap() {
    let mut x = xorshift_noise(6000, 0.4, 4);
    x.extend(xorshift_noise(6000, 0.0004, 8));
    for profile in [ReductionProfile::Safe, ReductionProfile::Max] {
        let params = ExpanderParams { reduction_profile: profile, ..ExpanderParams::default() };
        let floor = 10.0f32.powf(f(profile.db()) / 20.0);
        let out = expand(&x, 16_000, 1, &params, -45.0);
        assert_eq!(out.len(), x.len());
        for i in 0..x.len() {
            assert!(out[i].abs() <= x[i].abs());
            assert!(out[i].abs() >= x[i].abs() * floor * 0.9999);
        }
    }
}

#[test]
fn the_gain_stays_between_the_cap_and_one() {
    let floor = 10.0f32.powf(-12.0 / 20.0);
    let n = 4000;
    let target: Vec<Single> = (0..n).map(|i| s(if (i / 700) % 2 == 0 { floor } else { 1.0 })).collect();
    let env: Vec<Single> = (0..n).map(|i| s(if (i / 700) % 2 == 0 { -90.0 } else { -10.0 })).collect();
    let ones = vec![s(1.0); n];
    let gains = floats(&expand_channel(&ones, &env, &target, s(-40.0), 50, s(0.97), s(0.99)));
    assert!(gains.iter().all(|&g| (floor..=1.0).contains(&g)));
    assert!(gains[..49].windows(2).all(|w| w[1] >= w[0]), "the hold keeps the gain");
    assert!(gains[699] < floor * 1.01 && gains[1399] > 0.999);
}

#[test]
fn a_gated_spectrum_is_mirrored() {
    let re: Vec<Single> = (0..FFT_SIZE).map(|i| s(i as f32)).collect();
    let im: Vec<Single> = (0..FFT_SIZE).map(|i| s(-(i as f32))).collect();
    let gain = vec![s(0.5); BINS];
    let (r, i) = gate_bins(&re, &im, &gain);
    assert_eq!((f(r[3]), f(i[3])), (1.5, -1.5));
    assert_eq!((f(r[FFT_SIZE - 3]), f(i[FFT_SIZE - 3])), (1.5, 1.5));
    assert_eq!(f(r[1024]), 512.0);
}

// ---------------------------------------------------------------------------
// The spectral gate
// ---------------------------------------------------------------------------

#[test]
fn apply_spectral_gate_output_length_matches_input() {
    let samples = xorshift_noise(5000, 0.2, 3);
    let out = gate(&samples, 48000, 1, &SpectralGateParams::default());
    assert_eq!(out.len(), samples.len());
}

#[test]
fn apply_spectral_gate_shorter_than_fft_window_returns_zeros_same_length() {
    let samples = xorshift_noise(100, 0.2, 3);
    let out = gate(&samples, 48000, 1, &SpectralGateParams::default());
    assert_eq!(out.len(), samples.len());
    assert!(out.iter().all(|s| *s == 0.0));
}

#[test]
fn apply_spectral_gate_never_produces_nan_or_inf() {
    let samples = xorshift_noise(96000, 0.3, 5);
    let out = gate(&samples, 48000, 1, &SpectralGateParams::default());
    assert!(out.iter().all(|s| s.is_finite()));
}

#[test]
fn apply_spectral_gate_is_monotonic_in_input_level() {
    let quiet = xorshift_noise(96000, 0.05, 5);
    let loud: Vec<f32> = quiet.iter().map(|s| s * 10.0).collect();

    let out_quiet = gate(&quiet, 48000, 1, &SpectralGateParams::default());
    let out_loud = gate(&loud, 48000, 1, &SpectralGateParams::default());

    assert!(rms(&out_loud) >= rms(&out_quiet));
}

#[test]
fn the_spectral_gate_is_that_of_one_loop_bit_for_bit() {
    let samples = xorshift_noise(4000, 0.0005, 21);
    let n = 2048usize;
    let window: Vec<f32> = (0..n)
        .map(|i| 0.5 - 0.5 * (2.0 * std::f32::consts::PI * (i as f32 / (n - 1) as f32)).cos())
        .collect();
    let mut planner = FftPlanner::<f32>::new();
    let fft = planner.plan_fft_forward(n);
    let ifft = planner.plan_fft_inverse(n);
    let threshold = 10f32.powf(-45.0 / 20.0);
    let frame_time = 512.0f32 / 44_100.0;
    let (attack, release) = ((-frame_time / 0.002).exp(), (-frame_time / 0.080).exp());
    let mut sum = vec![0f32; samples.len()];
    let mut env = vec![0f32; n / 2 + 1];
    let mut pos = 0;
    while pos + n <= samples.len() {
        let mut buf: Vec<Complex<f32>> =
            (0..n).map(|i| Complex { re: samples[pos + i] * window[i], im: 0.0 }).collect();
        fft.process(&mut buf);
        for k in 0..=n / 2 {
            let mag = (buf[k].re * buf[k].re + buf[k].im * buf[k].im).sqrt();
            let coef = if mag > env[k] { attack } else { release };
            env[k] = mag + coef * (env[k] - mag);
            let gain = if env[k] < threshold { (env[k] / threshold).powf(2.0 - 1.0).max(0.0) } else { 1.0 };
            buf[k].re *= gain;
            buf[k].im *= gain;
            if k > 0 && k < n / 2 {
                buf[n - k] = Complex { re: buf[k].re, im: -buf[k].im };
            }
        }
        ifft.process(&mut buf);
        let norm = 1.0 / n as f32;
        for i in 0..n {
            sum[pos + i] += buf[i].re * norm * window[i];
        }
        pos += 512;
    }
    let expected: Vec<f32> = sum.iter().map(|v| v * (2.0 / 3.0)).collect();
    assert_eq!(gate(&samples, 44_100, 1, &SpectralGateParams::default()), expected);
}

#[test]
fn channels_are_gated_as_if_each_were_alone() {
    let left = xorshift_noise(6000, 0.002, 9);
    let right = xorshift_noise(6000, 0.3, 17);
    let mut both: Vec<f32> = Vec::new();
    for i in 0..6000 {
        both.push(left[i]);
        both.push(right[i]);
    }
    let p = SpectralGateParams::default();
    let out = gate(&both, 48000, 2, &p);
    assert_eq!(out.len(), both.len());
    let l: Vec<f32> = out.iter().copied().step_by(2).collect();
    let r: Vec<f32> = out.iter().copied().skip(1).step_by(2).collect();
    assert_eq!(l, gate(&left, 48000, 1, &p));
    assert_eq!(r, gate(&right, 48000, 1, &p));
    assert!(r.iter().any(|v| *v != 0.0));
}

#[test]
fn silence_comes_out_of_the_spectral_gate_as_silence() {
    let out = gate(&vec![0.0; 9000], 48000, 1, &SpectralGateParams::default());
    assert_eq!(out.len(), 9000);
    assert!(out.iter().all(|v| *v == 0.0));
}

#[test]
fn a_short_stereo_signal_is_gated_to_zeros() {
    let out = gate(&xorshift_noise(4095, 0.5, 3), 48000, 2, &SpectralGateParams::default());
    assert_eq!(out, vec![0.0; 4095]);
}

#[test]
fn the_passes_of_the_spectral_gate_with_plain_functions() {
    // The transforms pass the window on, so that each of the overlapping windows adds a share.
    let x: Vec<Single> = vec![s(1.0); FFT_SIZE];
    let ones: Vec<Single> = vec![s(1.0); FFT_SIZE];
    let out = apply_spectral_gate(
        &x,
        1,
        &ones,
        s(0.5),
        s(0.0),
        s(0.0),
        |v: Vec<Single>| (v, vec![s(0.0); FFT_SIZE]),
        |re: Vec<Single>, _im: Vec<Single>| re,
        |v| v,
        |v| v,
    );
    // Every bin is at 1, above the threshold: its gain is 1.
    assert_eq!(floats(&out), vec![1.0 / 2048.0 * (2.0 / 3.0); FFT_SIZE]);
    let out = apply_spectral_gate(
        &x,
        1,
        &ones,
        s(2.0),
        s(0.0),
        s(0.0),
        |v: Vec<Single>| (v, vec![s(0.0); FFT_SIZE]),
        |re: Vec<Single>, _im: Vec<Single>| re,
        |v| v,
        |v| v,
    );
    // Now every bin is at half the threshold.
    assert_eq!(floats(&out), vec![0.5 / 2048.0 * (2.0 / 3.0); FFT_SIZE]);
}

#[test]
fn the_knee_stays_between_the_cap_and_no_reduction() {
    let params = ExpanderParams { knee_db: s(6.0), ..ExpanderParams::default() };
    let plan = expander_plan(48000, 48000, 1, &params, s(-60.0)).expect("an active expander");
    let threshold = f(plan.threshold_db);
    let mut seen = 0;
    for i in 1..60 {
        let level = threshold - i as f32 / 10.0;
        if let GainRegion::Knee { exponent } = gain_region(&plan, s(level)) {
            seen += 1;
            assert!(f(plan.floor_exponent) <= f(exponent) && f(exponent) <= 0.0, "{level}");
        }
    }
    assert!(seen > 50);
}

// ---------------------------------------------------------------------------
// The equalizer
// ---------------------------------------------------------------------------

#[test]
fn apply_voice_eq_inplace_zero_strength_is_near_identity() {
    let original = sine_wave(300.0, 48000, 1.0, 0.4);
    let mut buf = original.clone();
    apply_voice_eq_inplace(&mut buf, 48000, 1, 0.0);
    assert!(buf.iter().all(|s| s.is_finite()));

    let settle = 500;
    let ratio = rms(&buf[settle..]) / rms(&original[settle..]);
    assert!((0.9..=1.1).contains(&ratio), "ratio={ratio}");
}

#[test]
fn apply_voice_eq_inplace_full_strength_stays_finite() {
    let mut buf = xorshift_noise(48000, 0.3, 11);
    apply_voice_eq_inplace(&mut buf, 48000, 1, 1.0);
    assert!(buf.iter().all(|s| s.is_finite()));
}

#[test]
fn the_bands_of_the_equalizer() {
    let b = voice_eq_bands(s(0.5));
    let gains: Vec<f32> = b.iter().map(|b| f(b.gain_db)).collect();
    assert_eq!(gains, vec![-1.5, -0.75, 1.0, 0.75]);
    let places: Vec<(u32, Option<u32>)> = b.iter().map(|b| (b.frequency, b.q_tenths)).collect();
    assert_eq!(places, vec![(120, None), (400, Some(10)), (2500, Some(12)), (10000, None)]);
    assert_eq!(f(voice_eq_bands(s(3.0))[0].gain_db), -3.0);
    assert_eq!(f(voice_eq_bands(s(-1.0))[2].gain_db), 0.0);
}

// ---------------------------------------------------------------------------
// The denoiser
// ---------------------------------------------------------------------------

#[test]
fn apply_nnnoise_preserves_length_and_is_finite() {
    let samples = sine_wave(300.0, 48000, 1.0, 0.3);
    let out = apply_nnnoise(&samples, &NnnoiseParams::default());
    assert_eq!(out.len(), samples.len());
    assert!(out.iter().all(|s| s.is_finite()));
}

#[test]
fn frames_for_the_denoiser_are_scaled_held_and_filled_up() {
    let x = singles(&[0.5, 2.0, -2.0, 0.25, 0.125]);
    assert_eq!(denoiser_frames(5, 4), 2);
    assert_eq!(floats(&frame_for_denoiser(&x, 4, 0)), vec![16384.0, 32767.0, -32768.0, 8192.0]);
    assert_eq!(floats(&frame_for_denoiser(&x, 4, 1)), vec![4096.0, 0.0, 0.0, 0.0]);
    let wet = singles(&[0.0, 0.0, 32768.0, -16384.0]);
    let out = mix_denoised(&singles(&[1.0, 1.0, 1.0]), &wet, 2, &NnnoiseParams { mix: s(0.75) });
    assert_eq!(floats(&out), vec![1.0, -0.125, 0.25]);
}

// ---------------------------------------------------------------------------
// The dereverb
// ---------------------------------------------------------------------------

#[test]
fn the_dereverb_is_mixed_and_filled_up_with_the_dry_signal() {
    let dry = singles(&[1.0, 1.0, 0.5]);
    let p = DereverbParams { mix: s(0.5), ..Default::default() };
    assert_eq!(floats(&mix_dereverbed(&dry, &singles(&[0.0, -1.0]), &p)), vec![0.5, 0.0, 0.5]);
    let none = DereverbParams { mix: s(0.0), ..Default::default() };
    assert_eq!(floats(&mix_dereverbed(&dry, &singles(&[9.0, 9.0, 9.0]), &none)), vec![1.0, 1.0, 0.5]);
}

#[test]
fn the_dereverb_is_called_with_its_limits() {
    let p = DereverbParams { mix: s(0.8), attenuation_limit: s(130.0), post_filter: true };
    let text = |t: &str| Arg::Text(t.to_string());
    assert_eq!(
        dereverb_args(&p),
        vec![text("-D"), text("-a"), text("100.0"), text("-o"), Arg::Output, Arg::Input, text("--pf")]
    );
    assert_eq!(dereverb_args(&DereverbParams::default())[2], text("30.0"));
}

#[test]
fn channels_are_averaged() {
    let x = singles(&[1.0, 3.0, -1.0, 0.0, 7.0]);
    assert_eq!(floats(&downmix(&x, 2)), vec![2.0, -0.5]);
    assert_eq!(downmix(&x, 1), x);
}

#[test]
fn the_loudest_moment_is_the_largest_magnitude() {
    assert_eq!(f(peak_of(&singles(&[0.1, -0.5, 0.25]))), 0.5);
    assert_eq!(f(peak_of(&[])), 0.0);
    assert_eq!(f(peak_level(s(0.5), s(0.5f32.log10()))), 20.0 * 0.5f32.log10());
    assert_eq!(f(peak_level(s(0.0), s(f32::NEG_INFINITY))), f32::NEG_INFINITY);
}
