//! What comes into the simulator: recorded orders, typed commands, and the
//! bookkeeping of a replay.

pub mod binary_format;
pub mod checkpoint_laws;
pub mod cli;
pub mod download_cmd;
pub mod file_laws;
pub mod files;
pub mod intake_laws;
pub mod notation_laws;
pub mod progress;
pub mod record_laws;
pub mod replay;
pub mod replay_checkpoint;
pub mod replay_laws;
pub mod row_text_laws;
pub mod scan_cmd;
pub mod session;
pub mod session_laws;
pub mod shown;
pub mod shown_laws;
pub mod simulate_cmd;
pub mod simulator;
pub mod summary_text;
pub mod test_suite;
pub mod tool_laws;
