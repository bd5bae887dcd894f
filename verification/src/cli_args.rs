//! The commands of the tool, as plain values.

use vstd::prelude::*;

verus! {

/// What the tool was asked to do.
#[derive(Debug)]
pub struct CLIArgs {
    pub command: Commands,
}

/// The tool's commands.
#[derive(Debug)]
pub enum Commands {
    Encrypt(EncryptCommand),
    Decrypt(DecryptCommand),
    Clear(ClearDirectoryInBucketCommand),
    List(ListFilesInDirectoryInBucketCommand),
}

/// Encrypt a file.
#[derive(Debug)]
pub struct EncryptCommand {
    /// The path of the file to split.
    pub file_path: String,
    /// The size of each chunk, in bytes.
    pub chunk_size: usize,
    /// The directory or prefix under which the chunks are stored. Where none is
    /// given, a random one is made.
    pub output_dir: Option<String>,
    /// Whether the chunks go to the object store and not to the local system.
    pub use_aws: bool,
}

/// Decrypt a file from its key store.
#[derive(Debug)]
pub struct DecryptCommand {
    /// The path of the key store document.
    pub keystore_path: String,
    /// The name of the decrypted file. Where none is given, the name in the key
    /// store is used.
    pub output_file: Option<String>,
    /// Whether the chunks come from the object store and not from the local
    /// system.
    pub use_aws: bool,
    /// Whether the key store document and the chunks are removed once the file
    /// has been decrypted.
    pub delete_dir: bool,
}

/// Clear a directory in the bucket.
#[derive(Debug)]
pub struct ClearDirectoryInBucketCommand {
    /// The directory's name.
    pub dir_name: String,
}

/// List the files of a directory in the bucket.
#[derive(Debug)]
pub struct ListFilesInDirectoryInBucketCommand {
    /// The directory's name.
    pub dir_name: String,
}

} // verus!
