//! Probabilistic YIN pitch tracking on fixed-point audio.
//!
//! The engine frames a 16-bit waveform, extracts periodicity candidates from a
//! cumulative-mean-normalised difference function, turns them into a
//! probability distribution over a log-frequency pitch grid plus an unvoiced
//! state, and decodes the cheapest state path with a Viterbi smoother.
//! Frequencies are millihertz, probabilities are integer masses out of
//! `PRIOR_TOTAL`, difference values are Q16 fixed-point numbers and path
//! costs are negative log-probabilities in sixths of a bit.

pub mod config;
pub mod engine;
pub mod framing;
pub mod observe;
pub mod viterbi;
pub mod yin;

pub use config::{
    check_grid, pitch_grid, PyinConfig, PyinError, DEFAULT_BINS_PER_SEMITONE, MAX_FRAME_LENGTH,
    MAX_FREQ_MHZ,
};
pub use engine::{
    analyse_frame, assemble, lemma_silence_is_unvoiced, lemma_track_deterministic, prepare, track,
    PitchTrack, MAX_SAMPLES,
};
pub use framing::{frame_count, pad_signal, Framing, PadMode};
pub use observe::{
    bin_index, emission_costs, lemma_resolution_keeps_voiced_mass, observation, N_THRESHOLDS, PRIOR_TOTAL, ZERO_COST,
};
pub use viterbi::{decode, lemma_decoded_path_is_optimal, JUMP_COST, MAX_EMISSION, MAX_FRAMES, SWITCH_COST};
pub use yin::{cmnd, find_candidates, Candidate, ONE};

