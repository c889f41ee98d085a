use pyin::{
    analyse_frame, assemble, prepare, bin_index, check_grid, cmnd, decode, emission_costs, find_candidates, frame_count, observation,
    pad_signal, pitch_grid, track, Candidate, Framing, PadMode, PitchTrack, PyinConfig, PyinError,
    PRIOR_TOTAL, ZERO_COST,
};

const SR: u32 = 16000;
const FL: usize = 1024;

fn config() -> PyinConfig {
    PyinConfig::with_resolution(SR, FL, 80_000, 800_000, None, None, None).unwrap()
}

fn sine(freq_hz: f64, n: usize) -> Vec<i16> {
    (0..n)
        .map(|i| {
            let t = i as f64 / SR as f64;
            (10000.0 * (2.0 * std::f64::consts::PI * freq_hz * t).sin()).round() as i16
        })
        .collect()
}

fn run(x: &Vec<i16>) -> PitchTrack {
    let c = config();
    track(&c, &vec![x.len()], x, Framing::Center(PadMode::Constant(0))).unwrap()
}

#[test]
fn config_rejects_fmin_not_below_fmax() {
    let g = vec![100_000, 200_000];
    let r = PyinConfig::new(SR, FL, 200_000, 200_000, None, None, g.clone());
    assert_eq!(r.unwrap_err(), PyinError::InvalidParameters);
    let r = PyinConfig::new(SR, FL, 300_000, 200_000, None, None, g);
    assert_eq!(r.unwrap_err(), PyinError::InvalidParameters);
    let r = PyinConfig::with_resolution(SR, FL, 300_000, 200_000, None, None, None);
    assert_eq!(r.unwrap_err(), PyinError::InvalidParameters);
}

#[test]
fn config_rejects_out_of_range_parameters() {
    let g = vec![100_000, 200_000];
    // fmax at the Nyquist frequency
    let r = PyinConfig::new(SR, FL, 80_000, 8_000_000, None, None, g.clone());
    assert_eq!(r.unwrap_err(), PyinError::InvalidParameters);
    // zero sample rate
    let r = PyinConfig::new(0, FL, 80_000, 800_000, None, None, g.clone());
    assert_eq!(r.unwrap_err(), PyinError::InvalidParameters);
    // zero hop
    let r = PyinConfig::new(SR, FL, 80_000, 800_000, Some(0), None, g.clone());
    assert_eq!(r.unwrap_err(), PyinError::InvalidParameters);
    // window longer than the frame
    let r = PyinConfig::new(SR, FL, 80_000, 800_000, None, Some(FL + 1), g.clone());
    assert_eq!(r.unwrap_err(), PyinError::InvalidParameters);
    // grid not increasing
    let r = PyinConfig::new(SR, FL, 80_000, 800_000, None, None, vec![200_000, 100_000]);
    assert_eq!(r.unwrap_err(), PyinError::InvalidParameters);
    // no lag fits in a tiny frame
    let r = PyinConfig::new(SR, 8, 80_000, 800_000, None, None, g);
    assert_eq!(r.unwrap_err(), PyinError::InvalidParameters);
}

#[test]
fn config_derives_defaults() {
    let c = PyinConfig::new(SR, FL, 80_000, 800_000, None, None, vec![100_000, 200_000]).unwrap();
    assert_eq!(c.hop_length, 256);
    assert_eq!(c.win_length, 1024);
    assert_eq!(c.min_lag, 20);
    assert_eq!(c.max_lag, 200);
    let c = PyinConfig::new(SR, FL, 80_000, 800_000, Some(100), Some(512), vec![100_000]).unwrap();
    assert_eq!(c.hop_length, 100);
    assert_eq!(c.win_length, 512);
}

#[test]
fn default_grid_spans_the_range() {
    let c = config();
    assert_eq!(c.grid[0], 80_000);
    assert!(*c.grid.last().unwrap() <= 800_000);
    // ten bins per semitone over log2(10) octaves
    let expected = (120.0 * (10f64).log2()).floor() as usize + 1;
    assert!((c.grid.len() as i64 - expected as i64).abs() <= 1);
    assert!(check_grid(&c.grid));
}

#[test]
fn pitch_grid_is_geometric() {
    let g = pitch_grid(100_000, 200_000, 1).unwrap();
    assert_eq!(g[0], 100_000);
    assert!(g.len() == 12 || g.len() == 13);
    for (k, v) in g.iter().enumerate() {
        let want = 100_000.0 * (2f64).powf(k as f64 / 12.0);
        assert!((*v as f64 - want).abs() / want < 0.001, "bin {} is {}", k, v);
    }
    assert_eq!(pitch_grid(100_000, 200_000, 0).unwrap_err(), PyinError::InvalidParameters);
    assert_eq!(pitch_grid(200_000, 100_000, 1).unwrap_err(), PyinError::InvalidParameters);
}

#[test]
fn frame_counts_follow_the_framing() {
    let centred = frame_count(1000, 256, 64, Framing::Center(PadMode::Constant(0)));
    assert_eq!(centred, Ok(16));
    let valid = frame_count(1000, 256, 64, Framing::Valid);
    assert_eq!(valid, Ok(12));
    assert_eq!(frame_count(100, 256, 64, Framing::Valid), Err(PyinError::InvalidInputShape));
    assert_eq!(
        frame_count(100, 256, 64, Framing::Center(PadMode::Reflect)),
        Err(PyinError::InvalidInputShape)
    );
    assert_eq!(frame_count(0, 256, 64, Framing::Center(PadMode::Constant(0))), Ok(1));
    assert_eq!(frame_count(0, 255, 64, Framing::Center(PadMode::Constant(0))), Err(PyinError::InvalidInputShape));
    assert_eq!(frame_count(0, 256, 64, Framing::Center(PadMode::Reflect)), Err(PyinError::InvalidInputShape));
    assert_eq!(frame_count(0, 256, 64, Framing::Valid), Err(PyinError::InvalidInputShape));
}

#[test]
fn padding_reflects_and_fills() {
    let x: Vec<i16> = vec![1, 2, 3, 4];
    assert_eq!(pad_signal(&x, 2, PadMode::Reflect), vec![3, 2, 1, 2, 3, 4, 3, 2]);
    assert_eq!(pad_signal(&x, 2, PadMode::Constant(7)), vec![7, 7, 1, 2, 3, 4, 7, 7]);
    assert_eq!(pad_signal(&x, 0, PadMode::Constant(7)), x);
}

#[test]
fn normalised_difference_exact_values() {
    let x: Vec<i16> = vec![0, 100, 0, -100, 0, 100, 0, -100];
    let q = cmnd(&x, 0, 8, 4, 3);
    assert_eq!(q, vec![65536, 65536, 87381, 49152]);
}

#[test]
fn candidates_are_refined_troughs() {
    let q: Vec<u64> = vec![65536, 60000, 30000, 40000, 20000, 20000, 50000, 65536];
    let c = find_candidates(&q, 1000, 1, 6);
    assert_eq!(
        c,
        vec![
            Candidate { lag: 2, value: 30000, freq_mhz: 444444 },
            Candidate { lag: 4, value: 20000, freq_mhz: 222222 },
        ]
    );
}

#[test]
fn observation_assigns_threshold_mass() {
    let cands = vec![
        Candidate { lag: 2, value: 30000, freq_mhz: 444444 },
        Candidate { lag: 4, value: 20000, freq_mhz: 222222 },
    ];
    let g = vec![200_000, 450_000];
    let o = observation(&cands, &g);
    assert_eq!(o, vec![32218, 296, 1016062]);
    assert_eq!(o.iter().sum::<u64>(), PRIOR_TOTAL);
    let none = observation(&vec![], &g);
    assert_eq!(none, vec![0, 0, PRIOR_TOTAL]);
}

#[test]
fn bins_split_at_geometric_midpoints() {
    let g = vec![100_000, 200_000, 400_000];
    assert_eq!(bin_index(&g, 50), 0);
    assert_eq!(bin_index(&g, 141_000), 0);
    assert_eq!(bin_index(&g, 141_500), 1);
    assert_eq!(bin_index(&g, 300_000), 2);
    assert_eq!(bin_index(&g, 9_000_000), 2);
}

#[test]
fn emission_cost_values() {
    let c = emission_costs(&vec![PRIOR_TOTAL, 0, PRIOR_TOTAL / 2, 1]);
    assert_eq!(c, vec![0, ZERO_COST, 6, 120]);
}

#[test]
fn decoder_prefers_cheap_switches() {
    let e = vec![vec![0, 100], vec![100, 0], vec![0, 100]];
    assert_eq!(decode(&e, 1), vec![0, 1, 0]);
    let e = vec![vec![0, 30], vec![30, 0], vec![0, 30]];
    assert_eq!(decode(&e, 1), vec![0, 0, 0]);
    let e = vec![vec![5, 5, 5]];
    assert_eq!(decode(&e, 2), vec![0]);
    let e = vec![vec![0, 50, 50], vec![50, 0, 50]];
    assert_eq!(decode(&e, 2), vec![0, 1]);
}

#[test]
fn multichannel_input_is_rejected() {
    let c = config();
    let x: Vec<i16> = vec![0; 2000];
    let r = track(&c, &vec![2, 1000], &x, Framing::Center(PadMode::Constant(0)));
    assert_eq!(r.unwrap_err(), PyinError::InvalidInputShape);
    let r = track(&c, &vec![1999], &x, Framing::Center(PadMode::Constant(0)));
    assert_eq!(r.unwrap_err(), PyinError::InvalidInputShape);
    let r = track(&c, &vec![100], &vec![0; 100], Framing::Valid);
    assert_eq!(r.unwrap_err(), PyinError::InvalidInputShape);
}

#[test]
fn output_lengths_match_frame_count() {
    let c = config();
    let x = sine(220.0, 4000);
    let t = track(&c, &vec![4000], &x, Framing::Center(PadMode::Reflect)).unwrap();
    assert_eq!(t.f0_mhz.len(), 16);
    assert_eq!(t.voiced.len(), 16);
    assert_eq!(t.voiced_mass.len(), 16);
    let t = track(&c, &vec![4000], &x, Framing::Valid).unwrap();
    assert_eq!(t.f0_mhz.len(), 1 + (4000 - 1024) / 256);
    assert_eq!(t.voiced.len(), t.f0_mhz.len());
    assert_eq!(t.voiced_mass.len(), t.f0_mhz.len());
}

#[test]
fn unvoiced_frames_have_no_frequency() {
    let mut x = sine(300.0, 3000);
    x.extend(vec![0i16; 3000]);
    let t = run(&x);
    for i in 0..t.voiced.len() {
        assert_eq!(t.voiced[i], t.f0_mhz[i].is_some());
        assert!(t.voiced_mass[i] <= PRIOR_TOTAL);
    }
    assert!(t.voiced.iter().any(|v| *v));
    assert!(t.voiced.iter().any(|v| !*v));
}

#[test]
fn sine_is_tracked_within_one_percent() {
    for f in [110.0, 220.0, 440.0] {
        let x = sine(f, 8000);
        let t = run(&x);
        let n = t.f0_mhz.len();
        for i in 1..n - 1 {
            assert!(t.voiced[i], "frame {} unvoiced at {} Hz", i, f);
            let got = t.f0_mhz[i].unwrap() as f64 / 1000.0;
            assert!((got - f).abs() / f < 0.01, "frame {}: {} Hz for {} Hz", i, got, f);
        }
    }
}

#[test]
fn silence_is_unvoiced() {
    let x: Vec<i16> = vec![0; 4000];
    for framing in [Framing::Center(PadMode::Constant(0)), Framing::Center(PadMode::Reflect), Framing::Valid] {
        let t = track(&config(), &vec![4000], &x, framing).unwrap();
        assert!(!t.f0_mhz.is_empty());
        for i in 0..t.voiced.len() {
            assert!(!t.voiced[i]);
            assert_eq!(t.f0_mhz[i], None);
            assert_eq!(t.voiced_mass[i], 0);
        }
    }
}

#[test]
fn resolution_keeps_voiced_mass() {
    let x = sine(220.0, 2048);
    let q = cmnd(&x, 0, FL, FL, 201);
    let cands = find_candidates(&q, SR, 20, 200);
    assert!(!cands.is_empty());
    let coarse = pitch_grid(80_000, 800_000, 1).unwrap();
    let fine = pitch_grid(80_000, 800_000, 20).unwrap();
    let a = observation(&cands, &coarse);
    let b = observation(&cands, &fine);
    assert_eq!(a[coarse.len()], b[fine.len()]);
    let va: u64 = a[..coarse.len()].iter().sum();
    let vb: u64 = b[..fine.len()].iter().sum();
    assert_eq!(va, vb);
    assert!(va > 0);
}

#[test]
fn tracking_twice_gives_identical_output() {
    let mut x = sine(180.0, 3000);
    x.extend(sine(260.0, 3000));
    let a = run(&x);
    let b = run(&x);
    assert_eq!(a.f0_mhz, b.f0_mhz);
    assert_eq!(a.voiced, b.voiced);
    assert_eq!(a.voiced_mass, b.voiced_mass);
}

#[test]
fn prepare_pads_and_counts() {
    let c = config();
    let x: Vec<i16> = (0..2000).map(|i| (i % 100) as i16).collect();
    let (xp, n) = prepare(&c, &vec![2000], &x, Framing::Center(PadMode::Reflect)).unwrap();
    assert_eq!(xp.len(), 2000 + 1024);
    assert_eq!(n, 8);
    assert_eq!(xp[511], x[1]);
    assert_eq!(xp[512], x[0]);
    let (xp, n) = prepare(&c, &vec![2000], &x, Framing::Valid).unwrap();
    assert_eq!(xp, x);
    assert_eq!(n, 4);
    let r = prepare(&c, &vec![1000, 2], &x, Framing::Valid);
    assert_eq!(r.unwrap_err(), PyinError::InvalidInputShape);
}

#[test]
fn staged_pipeline_matches_track() {
    let c = config();
    let x = sine(330.0, 5000);
    let shape = vec![x.len()];
    let framing = Framing::Center(PadMode::Constant(0));
    let (xp, n) = prepare(&c, &shape, &x, framing).unwrap();
    let mut costs = Vec::new();
    let mut masses = Vec::new();
    for i in 0..n {
        let (row, m) = analyse_frame(&c, &xp, i);
        assert_eq!(row.len(), c.grid.len() + 1);
        costs.push(row);
        masses.push(m);
    }
    let staged = assemble(&c, &costs, masses);
    let whole = track(&c, &shape, &x, framing).unwrap();
    assert_eq!(staged.f0_mhz, whole.f0_mhz);
    assert_eq!(staged.voiced, whole.voiced);
    assert_eq!(staged.voiced_mass, whole.voiced_mass);
}

#[test]
fn empty_waveform_gives_one_unvoiced_frame() {
    let c = config();
    let t = track(&c, &vec![0], &vec![], Framing::Center(PadMode::Constant(0))).unwrap();
    assert_eq!(t.f0_mhz, vec![None]);
    assert_eq!(t.voiced, vec![false]);
    assert_eq!(t.voiced_mass, vec![0]);
    let r = track(&c, &vec![0], &vec![], Framing::Valid);
    assert_eq!(r.unwrap_err(), PyinError::InvalidInputShape);
}

#[test]
fn grid_must_lie_between_fmin_and_fmax() {
    let below = PyinConfig::new(SR, FL, 80_000, 800_000, None, None, vec![70_000, 200_000]);
    assert_eq!(below.unwrap_err(), PyinError::InvalidParameters);
    let above = PyinConfig::new(SR, FL, 80_000, 800_000, None, None, vec![100_000, 900_000]);
    assert_eq!(above.unwrap_err(), PyinError::InvalidParameters);
    let edges = PyinConfig::new(SR, FL, 80_000, 800_000, None, None, vec![80_000, 800_000]);
    assert!(edges.is_ok());
}

#[test]
fn resolution_limits_are_enforced() {
    let zero = PyinConfig::with_resolution(SR, FL, 80_000, 800_000, None, None, Some(0));
    assert_eq!(zero.unwrap_err(), PyinError::InvalidParameters);
    let huge = PyinConfig::with_resolution(SR, FL, 80_000, 800_000, None, None, Some(1001));
    assert_eq!(huge.unwrap_err(), PyinError::InvalidParameters);
    assert_eq!(pitch_grid(1, 1_000_000_000, 1000).unwrap_err(), PyinError::InvalidParameters);
    let fine = PyinConfig::with_resolution(SR, FL, 80_000, 800_000, None, None, Some(20)).unwrap();
    assert_eq!(fine.grid, pitch_grid(80_000, 800_000, 20).unwrap());
}
