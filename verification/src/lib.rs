//! The editing core of PeakMuncher, a zone-based peak clipper and wave editor.
//!
//! Every module holds plain data and the rules that work on it, each with its
//! contract. Single-precision numbers are held as their bit patterns, and the
//! arithmetic on them is part of the library. Transcendental functions, Fourier
//! transforms and arithmetic in double precision are supplied by the caller.
//! Windows, dialogs, files on disk and sound devices live in the program around
//! the library.

pub mod accuracy;
pub mod aiff;
pub mod arith;
pub mod audio_io;
pub mod body;
pub mod bytes;
pub mod canvas;
pub mod codecs;
pub mod columns;
pub mod controls;
pub mod corner;
pub mod correlation;
pub mod curves;
pub mod detect;
pub mod detection;
pub mod display;
pub mod double;
pub mod dsp;
pub mod editor;
pub mod effects;
pub mod envelope;
pub mod extended;
pub mod fft;
pub mod functions;
pub mod gonio;
pub mod heatmap;
pub mod heights;
pub mod impulse;
pub mod jobs;
pub mod keybindings;
pub mod labels;
pub mod levels;
pub mod line;
pub mod measures;
pub mod normalize;
pub mod outline;
pub mod oversample;
pub mod panels;
pub mod passband;
pub mod pcm;
pub mod places;
pub mod plan;
pub mod playback;
pub mod preview;
pub mod project;
pub mod recent;
pub mod render;
pub mod rounding;
pub mod ruler;
pub mod scalar;
pub mod scale;
pub mod session;
pub mod settings;
pub mod shelf;
pub mod shown;
pub mod single;
pub mod spectra;
pub mod stereo;
pub mod structure;
pub mod text;
pub mod timeline;
pub mod transfer;
pub mod transport;
pub mod trim;
pub mod viewport;
pub mod waveform;
pub mod weights;
pub mod wide;
pub mod windows;
pub mod worker;
pub mod zones;
