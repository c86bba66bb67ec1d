//! The options of a generation run, as the command line gives them.
use vstd::prelude::*;

verus! {

/// The options of a generation run.
pub struct Args {
    /// A file of words, one per line or comma-separated.
    pub input: Option<String>,
    /// Words given directly.
    pub words: Vec<String>,
    /// Where the candidates are written.
    pub output: String,
    /// Candidates for WPA2: 8 to 63 bytes.
    pub wpa2: bool,
    pub min_length: usize,
    pub max_length: usize,
    /// Stop after this many candidates (0: no limit).
    pub limit: usize,
    /// Candidates buffered before each write.
    pub chunk_size: usize,
    pub quiet: bool,
    pub append: bool,
    /// The largest number of words combined (0: no limit).
    pub max_words: usize,
    pub no_special_chars: bool,
    pub force: bool,
}

impl Args {
    /// The length window: 8 to 63 for WPA2, else the given bounds.
    pub fn get_length_constraints(&self) -> (r: (usize, usize))
        ensures
            r == if self.wpa2 {
                (8usize, 63usize)
            } else {
                (self.min_length, self.max_length)
            },
    {
        if self.wpa2 {
            (8, 63)
        } else {
            (self.min_length, self.max_length)
        }
    }

    /// The largest number of words combined, `usize::MAX` standing for no
    /// limit.
    pub fn get_max_words(&self) -> (r: usize)
        ensures
            r == if self.max_words == 0 {
                usize::MAX
            } else {
                self.max_words
            },
    {
        if self.max_words == 0 {
            usize::MAX
        } else {
            self.max_words
        }
    }
}

} // verus!
