//! Verified core of a sample-accurate software synthesizer: node-graph
//! scheduling and input routing, MIDI tracks with a tempo map, voice
//! allocation, render lengths, and scores written out as tracks.
pub mod score;
pub mod topology;
pub mod schedule;
pub mod graph;
pub mod midi;
pub mod smf;
pub mod synth;
