//! Player-performance statistics from rhythm-game replay logs: a line parser
//! for replay files, a per-score analyzer, a weighted standard deviation over
//! timing histograms, and an ordered fold of many score results into one
//! aggregate.
pub mod histogram;
pub mod score;
pub mod combo;
pub mod replay;
pub mod aggregate;
