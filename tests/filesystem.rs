use xfiles::fs::XFS;
use xfiles::error::XFilesError;
use xfiles::hash::compute_hash;
use xfiles::mock::MockAdapter;
use xfiles::remote::RemoteAdapter;
use xfiles::OpenMode;

fn new_fs() -> XFS<MockAdapter> {
    XFS::with_adapter("testuser", MockAdapter::new())
}

#[test]
fn test_create_and_read_file() {
    let mut fs = new_fs();
    let mut file = fs.open("test.txt", OpenMode::Create).unwrap();
    file.write(&mut fs, b"Hello, xfiles!").unwrap();
    let content = file.read(&mut fs).unwrap();
    assert_eq!(content, b"Hello, xfiles!");
}

#[test]
fn test_file_reopen_same_session() {
    let mut fs = new_fs();
    let mut file = fs.open("persistent.txt", OpenMode::Create).unwrap();
    file.write(&mut fs, b"Persisted data").unwrap();
    drop(file);

    let file = fs.open("persistent.txt", OpenMode::ReadOnly).unwrap();
    let content = file.read(&mut fs).unwrap();
    assert_eq!(content, b"Persisted data");
}

#[test]
fn test_multiple_writes() {
    let mut fs = new_fs();
    let mut file = fs.open("multi.txt", OpenMode::Create).unwrap();
    file.write(&mut fs, b"Version 1").unwrap();
    file.write(&mut fs, b"Version 2").unwrap();
    file.write(&mut fs, b"Version 3").unwrap();
    let content = file.read(&mut fs).unwrap();
    assert_eq!(content, b"Version 3");
}

#[test]
fn test_file_history() {
    let mut fs = new_fs();
    let mut file = fs.open("history.txt", OpenMode::Create).unwrap();
    file.write(&mut fs, b"Commit 1").unwrap();
    file.write(&mut fs, b"Commit 2").unwrap();
    file.write(&mut fs, b"Commit 3").unwrap();
    let history = fs.history("history.txt").unwrap();
    assert!(history.len() >= 3);
}

#[test]
fn three_writes_form_a_chain() {
    let mut fs = new_fs();
    let mut file = fs.open("chain.txt", OpenMode::Create).unwrap();
    let mut heads = vec![file.head.clone()];
    for data in [&b"one"[..], &b"two"[..], &b"three"[..]] {
        file.write(&mut fs, data).unwrap();
        heads.push(file.head.clone());
    }
    let history = fs.history("chain.txt").unwrap();
    assert_eq!(history.len(), 4);
    assert!(history[0].parents.is_empty());
    for i in 1..4 {
        let c = history.iter().find(|c| c.id == heads[i]).unwrap();
        assert_eq!(c.parents, vec![heads[i - 1].clone()]);
        assert_eq!(c.mime, "text/plain");
    }
    let last = history.iter().find(|c| c.id == heads[3]).unwrap();
    assert_eq!(last.hash, compute_hash(b"three"));
    assert_eq!(last.size, 5);
    assert_eq!(file.read(&mut fs).unwrap(), b"three");
    fs.clear_cache();
    assert_eq!(file.read(&mut fs).unwrap(), b"three");
}

#[test]
fn test_list_files() {
    let mut fs = new_fs();
    fs.open("file1.txt", OpenMode::Create).unwrap();
    fs.open("file2.txt", OpenMode::Create).unwrap();
    fs.open("logs/debug.log", OpenMode::Create).unwrap();

    let files = fs.list("").unwrap();
    assert!(files.contains(&"file1.txt".to_string()));
    assert!(files.contains(&"file2.txt".to_string()));
    assert!(files.contains(&"logs/debug.log".to_string()));

    let log_files = fs.list("logs").unwrap();
    assert_eq!(log_files.len(), 1);
    assert!(log_files.contains(&"logs/debug.log".to_string()));
}

#[test]
fn list_by_directory_prefix() {
    let mut fs = new_fs();
    fs.open("logs/a.log", OpenMode::Create).unwrap();
    fs.open("logs/b.log", OpenMode::Create).unwrap();
    fs.open("top.txt", OpenMode::Create).unwrap();
    let all = fs.list("").unwrap();
    assert_eq!(all, vec!["logs/a.log", "logs/b.log", "top.txt"]);
    let logs = fs.list("logs").unwrap();
    assert_eq!(logs, vec!["logs/a.log", "logs/b.log"]);
    assert_eq!(fs.list("logs/").unwrap().len(), 2);
    assert_eq!(fs.list("/").unwrap().len(), 3);
    assert!(fs.list("log").unwrap().is_empty());
}

#[test]
fn test_file_exists() {
    let mut fs = new_fs();
    assert!(!fs.file_exists("nonexistent.txt").unwrap());
    fs.open("exists.txt", OpenMode::Create).unwrap();
    assert!(fs.file_exists("exists.txt").unwrap());
}

#[test]
fn test_large_content_chunking() {
    let mut fs = new_fs();
    let mut file = fs.open("large.txt", OpenMode::Create).unwrap();
    let large_content = vec![b'x'; 1000];
    file.write(&mut fs, &large_content).unwrap();
    let read_content = file.read(&mut fs).unwrap();
    assert_eq!(read_content, large_content);
}

#[test]
fn large_content_is_reassembled_after_cache_loss() {
    let mut fs = new_fs();
    let mut file = fs.open("large2.txt", OpenMode::Create).unwrap();
    let content: Vec<u8> = (0..1000u32).map(|i| b'a' + (i % 26) as u8).collect();
    file.write(&mut fs, &content).unwrap();
    file.write(&mut fs, b"small").unwrap();
    drop(file);
    fs.clear_cache();
    let history = fs.history("large2.txt").unwrap();
    assert_eq!(history.len(), 3);
    let reopened = fs.open("large2.txt", OpenMode::ReadWrite).unwrap();
    assert_eq!(reopened.read(&mut fs).unwrap(), b"small");
    let mut at_big = reopened;
    at_big.head = history.iter().find(|c| c.size == 1000).unwrap().id.clone();
    assert_eq!(at_big.read(&mut fs).unwrap(), content);
}

#[test]
fn test_reopen_file() {
    let mut fs = new_fs();
    let mut file = fs.open("reopen.txt", OpenMode::Create).unwrap();
    file.write(&mut fs, b"Initial content").unwrap();
    drop(file);
    let file = fs.open("reopen.txt", OpenMode::ReadOnly).unwrap();
    let content = file.read(&mut fs).unwrap();
    assert_eq!(content, b"Initial content");
}

#[test]
fn test_create_existing_file_fails() {
    let mut fs = new_fs();
    fs.open("existing.txt", OpenMode::Create).unwrap();
    let result = fs.open("existing.txt", OpenMode::Create);
    assert!(result.is_err());
    assert!(matches!(result, Err(XFilesError::AlreadyExists(_))));
}

#[test]
fn test_open_nonexistent_file_fails() {
    let mut fs = new_fs();
    let result = fs.open("nonexistent.txt", OpenMode::ReadOnly);
    assert!(result.is_err());
    assert!(matches!(result, Err(XFilesError::FileNotFound(p)) if p == "nonexistent.txt"));
}

#[test]
fn delete_posts_tombstone_and_user_is_trimmed() {
    let mut fs = XFS::with_adapter("@@agent", MockAdapter::new());
    assert_eq!(fs.user(), "agent");
    let mut file = fs.open("gone.txt", OpenMode::Create).unwrap();
    let before = file.head.clone();
    file.delete(&mut fs).unwrap();
    assert_ne!(file.head, before);
    let history = fs.history("gone.txt").unwrap();
    let tomb = history.iter().find(|c| c.id == file.head).unwrap();
    assert_eq!(tomb.mime, "application/x-xfiles-tombstone");
    assert_eq!(tomb.parents, vec![before]);
    assert_eq!(tomb.author, "agent");
    assert_eq!(file.read(&mut fs).unwrap(), b"[DELETED]");
}

#[test]
fn history_of_missing_file_fails() {
    let fs = new_fs();
    assert!(matches!(fs.history("missing"), Err(XFilesError::FileNotFound(_))));
}

#[test]
fn read_of_post_without_record_skips_digest_check() {
    let mut adapter = MockAdapter::new();
    let _ = adapter.store(b"x").unwrap();
    let mut fs = XFS::with_adapter("u", adapter);
    let mut file = fs.open("h.txt", OpenMode::Create).unwrap();
    file.write(&mut fs, b"payload").unwrap();
    fs.clear_cache();
    let mut wrong = fs.open("h.txt", OpenMode::ReadOnly).unwrap();
    assert_eq!(wrong.read(&mut fs).unwrap(), b"payload");
    wrong.head = "mock_tweet_1".to_string();
    fs.clear_cache();
    // A post that is no commit carries no digest to check against.
    assert_eq!(wrong.read(&mut fs).unwrap(), b"x");
}

#[test]
fn smaller_segments_are_posted_as_a_reply_chain() {
    let mut fs = new_fs();
    fs.set_max_segment(4);
    let mut file = fs.open("seg.txt", OpenMode::Create).unwrap();
    file.write(&mut fs, b"0123456789").unwrap();
    assert_eq!(file.head, "mock_tweet_2");
    fs.clear_cache();
    assert_eq!(file.read(&mut fs).unwrap(), b"0123456789");
    let history = fs.history("seg.txt").unwrap();
    assert_eq!(history.len(), 2);
    assert_eq!(history[1].size, 10);
}

/// A host that answers like the mock until a given number of posts, then
/// fails every post.
struct FlakyHost {
    inner: MockAdapter,
    posts_left: usize,
}

impl RemoteAdapter for FlakyHost {
    fn fetch(&self, id: &String) -> xfiles::Result<Vec<u8>> {
        self.inner.fetch(id)
    }
    fn store(&mut self, content: &[u8]) -> xfiles::Result<String> {
        if self.posts_left == 0 {
            return Err(XFilesError::Http("down".to_string()));
        }
        self.posts_left -= 1;
        self.inner.store(content)
    }
    fn store_reply(&mut self, parent_id: &String, content: &[u8]) -> xfiles::Result<String> {
        if self.posts_left == 0 {
            return Err(XFilesError::Http("down".to_string()));
        }
        self.posts_left -= 1;
        self.inner.store_reply(parent_id, content)
    }
    fn fetch_replies(&self, id: &String) -> xfiles::Result<Vec<String>> {
        self.inner.fetch_replies(id)
    }
}

/// A host that gives every reply the identifier of the first post.
struct EchoHost {
    inner: MockAdapter,
}

impl RemoteAdapter for EchoHost {
    fn fetch(&self, id: &String) -> xfiles::Result<Vec<u8>> {
        self.inner.fetch(id)
    }
    fn store(&mut self, content: &[u8]) -> xfiles::Result<String> {
        self.inner.store(content)
    }
    fn store_reply(&mut self, _parent_id: &String, _content: &[u8]) -> xfiles::Result<String> {
        Ok("mock_tweet_1".to_string())
    }
    fn fetch_replies(&self, id: &String) -> xfiles::Result<Vec<String>> {
        self.inner.fetch_replies(id)
    }
}

#[test]
fn failed_post_error_is_returned_and_head_kept() {
    let mut fs = XFS::with_adapter("u", FlakyHost { inner: MockAdapter::new(), posts_left: 2 });
    let mut file = fs.open("f.txt", OpenMode::Create).unwrap();
    let root = file.head.clone();
    fs.set_max_segment(4);
    let result = file.write(&mut fs, b"0123456789");
    assert_eq!(result, Err(XFilesError::Http("down".to_string())));
    assert_eq!(file.head, root);
    assert_eq!(fs.history("f.txt").unwrap().len(), 1);
    assert_eq!(file.delete(&mut fs), Err(XFilesError::Http("down".to_string())));
    assert_eq!(fs.open("g.txt", OpenMode::Create).err(), Some(XFilesError::Http("down".to_string())));
    assert!(!fs.file_exists("g.txt").unwrap());
}

#[test]
fn reused_identifier_is_refused() {
    let mut fs = XFS::with_adapter("u", EchoHost { inner: MockAdapter::new() });
    let mut file = fs.open("f.txt", OpenMode::Create).unwrap();
    assert_eq!(file.head, "mock_tweet_1");
    match file.write(&mut fs, b"data") {
        Err(XFilesError::Other(msg)) => assert_eq!(msg, "the host returned a recorded identifier"),
        other => panic!("unexpected: {:?}", other),
    }
    assert_eq!(file.head, "mock_tweet_1");
    assert!(file.delete(&mut fs).is_err());
}
