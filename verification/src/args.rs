//! The argument shapes of the command-line surface. Each command names
//! at most a key, a value, and the directory the store lives in. The
//! front end that parses a command line fills these in and hands them to
//! the functions in `commands`.

use vstd::prelude::*;

verus! {

/// A whole invocation: one command.
pub struct Cli {
    pub command: Commands,
}

/// The commands the store understands.
pub enum Commands {
    Create(CreateArgs),
    Init(InitArgs),
    Get(GetArgs),
    SetCmd(SetArgs),
    Delete(DeleteArgs),
    Merge(MergeArgs),
}

/// `create`: make a fresh store.
pub struct CreateArgs {
    pub base_dir: Option<String>,
}

/// `init`: open an existing store.
pub struct InitArgs {
    pub base_dir: Option<String>,
}

/// `get`: read one key.
pub struct GetArgs {
    pub key: String,
    pub base_dir: Option<String>,
}

/// `set`: write one key.
pub struct SetArgs {
    pub key: String,
    pub value: String,
    pub base_dir: Option<String>,
}

/// `delete`: remove one key.
pub struct DeleteArgs {
    pub key: String,
    pub base_dir: Option<String>,
}

/// `merge`: compact the sealed segments.
pub struct MergeArgs {
    pub base_dir: Option<String>,
}

} // verus!
