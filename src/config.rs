//! Run configuration handed in by the caller.
use vstd::prelude::*;

verus! {

/// Why a configuration is refused.
#[derive(PartialEq, Eq, Structural, Clone, Copy, Debug)]
pub enum ConfigError {
    /// The chunk count is zero.
    ZeroLinesPerChunk,
    /// The input file does not exist.
    MissingFile,
}

/// The input path and the chunk count.
pub struct Args {
    pub file_path: String,
    pub lines_per_chunk: usize,
}

impl Args {
    /// Checks the chunk count first, then whether the file exists (as found by the caller).
    pub fn validate(&self, file_exists: bool) -> (r: Result<(), ConfigError>)
        ensures
            r == if self.lines_per_chunk == 0 {
                Err::<(), ConfigError>(ConfigError::ZeroLinesPerChunk)
            } else if !file_exists {
                Err(ConfigError::MissingFile)
            } else {
                Ok(())
            },
    {
        if self.lines_per_chunk == 0 {
            return Err(ConfigError::ZeroLinesPerChunk);
        }
        if !file_exists {
            return Err(ConfigError::MissingFile);
        }
        Ok(())
    }
}

} // verus!
