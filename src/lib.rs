//! A versioned, path-addressable file store on top of a size-limited,
//! reply-threaded remote content host: each root post is a file, each reply
//! a commit, and a local index of commits and paths speeds up traversal.

pub mod cache;
pub mod chunk;
pub mod commit;
pub mod encoding;
pub mod error;
pub mod fs;
pub mod graph;
pub mod hash;
pub mod host;
pub mod merge;
pub mod mock;
pub mod rate_limit;
pub mod remote;
pub mod retry;
pub mod store;

pub use cache::ContentCache;
pub use chunk::TWEET_MAX_SIZE;
pub use commit::{Commit, ContentRef, TweetId};
pub use encoding::ContentHeader;
pub use error::{Result, XFilesError};
pub use fs::{OpenMode, XFile, XFS};
pub use graph::CommitGraph;
pub use merge::{LastWriterWins, MergeStrategy};
pub use mock::MockAdapter;
pub use rate_limit::RateLimiter;
pub use remote::RemoteAdapter;
pub use retry::{RetryConfig, RetryDecision, RetryState};
pub use store::FileRegistry;
