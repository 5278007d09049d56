use xfiles::cache::ContentCache;
use xfiles::chunk::{chunk_content, chunk_content_with, recombine_chunks, TWEET_MAX_SIZE};
use xfiles::commit::Commit;
use xfiles::encoding::{frame_with_header, split_header, ContentHeader};
use xfiles::error::XFilesError;
use xfiles::graph::CommitGraph;
use xfiles::hash::{compute_hash, verify_hash};
use xfiles::host::{assemble, head_of_tree};
use xfiles::mock::MockAdapter;
use xfiles::rate_limit::RateLimiter;
use xfiles::remote::{replied_to, ReferencedTweet, RemoteAdapter, Tweet};
use xfiles::retry::{RetryConfig, RetryDecision, RetryState};
use xfiles::OpenMode;

#[test]
fn test_chunk_small_content() {
    let content = b"Hello, world!";
    let chunks = chunk_content(content).unwrap();
    assert_eq!(chunks.len(), 1);
    assert_eq!(chunks[0], content);
}

#[test]
fn test_chunk_large_content() {
    let content = vec![b'x'; 500];
    let chunks = chunk_content(&content).unwrap();
    assert!(chunks.len() > 1);

    let recombined = recombine_chunks(&chunks).unwrap();
    assert_eq!(recombined, content);
}

#[test]
fn chunk_exact_sizes() {
    let content: Vec<u8> = (0..600u32).map(|i| (i % 251) as u8).collect();
    let chunks = chunk_content(&content).unwrap();
    assert_eq!(chunks.len(), 3);
    assert_eq!(chunks[0].len(), 280);
    assert_eq!(chunks[1].len(), 280);
    assert_eq!(chunks[2].len(), 40);
    assert_eq!(chunks[1][0], content[280]);
    assert_eq!(recombine_chunks(&chunks).unwrap(), content);
}

#[test]
fn chunk_boundary_and_empty() {
    let exact = vec![7u8; TWEET_MAX_SIZE];
    assert_eq!(chunk_content(&exact).unwrap().len(), 1);
    let over = vec![7u8; TWEET_MAX_SIZE + 1];
    let chunks = chunk_content(&over).unwrap();
    assert_eq!(chunks.len(), 2);
    assert_eq!(chunks[1], vec![7u8]);
    let empty: Vec<u8> = Vec::new();
    let chunks = chunk_content(&empty).unwrap();
    assert_eq!(chunks, vec![Vec::<u8>::new()]);
    assert_eq!(recombine_chunks(&chunks).unwrap(), empty);
}

#[test]
fn chunk_with_other_limit() {
    let chunks = chunk_content_with(b"abcdefg", 3).unwrap();
    assert_eq!(chunks, vec![b"abc".to_vec(), b"def".to_vec(), b"g".to_vec()]);
    assert_eq!(recombine_chunks(&chunks).unwrap(), b"abcdefg".to_vec());
}

#[test]
fn test_open_mode() {
    assert_eq!(OpenMode::Create, OpenMode::Create);
    assert_ne!(OpenMode::Create, OpenMode::ReadOnly);
}

#[test]
fn test_compute_hash() {
    let content = b"Hello, world!";
    let hash = compute_hash(content);
    assert!(!hash.is_empty());
    assert_eq!(hash.len(), 64);
}

#[test]
fn known_digest_of_empty_input() {
    assert_eq!(
        compute_hash(b""),
        "af1349b9f5f9a1a6a0404dea36dcc9499bcb25c9adc112b7cc9a93cae41f3262"
    );
}

#[test]
fn test_verify_hash() {
    let content = b"test content";
    let hash = compute_hash(content);
    assert!(verify_hash(content, &hash));
    assert!(!verify_hash(b"different content", &hash));
}

#[test]
fn test_deterministic() {
    let content = b"deterministic test";
    let hash1 = compute_hash(content);
    let hash2 = compute_hash(content);
    assert_eq!(hash1, hash2);
}

#[test]
fn test_encode_decode() {
    let content = b"test content";
    let header = ContentHeader::for_content(content, "text/plain");
    assert_eq!(header.mime, "text/plain");
    assert_eq!(header.size, content.len());
    assert_eq!(header.hash, compute_hash(content));
    let encoded = frame_with_header(b"{\"mime\":\"text/plain\"}", content);
    let (head, decoded) = split_header(&encoded).unwrap();
    assert_eq!(head, b"{\"mime\":\"text/plain\"}".to_vec());
    assert_eq!(decoded, content);
}

#[test]
fn split_header_takes_first_separator_and_rejects_missing() {
    let (head, rest) = split_header(b"h\n---\na\n---\nb").unwrap();
    assert_eq!(head, b"h".to_vec());
    assert_eq!(rest, b"a\n---\nb".to_vec());
    match split_header(b"no separator here") {
        Err(XFilesError::InvalidEncoding(_)) => {}
        other => panic!("unexpected: {:?}", other),
    }
}

#[test]
fn cache_put_get_remove_clear() {
    let mut cache = ContentCache::new();
    assert_eq!(cache.size(), 0);
    assert_eq!(cache.get(&"a".to_string()), None);
    cache.put("a".to_string(), b"one".to_vec());
    cache.put("b".to_string(), b"two".to_vec());
    cache.put("a".to_string(), b"three".to_vec());
    assert_eq!(cache.size(), 2);
    assert_eq!(cache.get(&"a".to_string()), Some(b"three".to_vec()));
    cache.remove(&"a".to_string());
    assert_eq!(cache.get(&"a".to_string()), None);
    assert_eq!(cache.size(), 1);
    cache.clear();
    assert_eq!(cache.size(), 0);
    assert_eq!(cache.get(&"b".to_string()), None);
}

#[test]
fn test_mock_adapter_store_fetch() {
    let mut adapter = MockAdapter::new();
    let content = b"Hello, world!";

    let id = adapter.store(content).unwrap();
    let fetched = adapter.fetch(&id).unwrap();

    assert_eq!(fetched, content);
    assert_eq!(id, "mock_tweet_1");
}

#[test]
fn test_mock_adapter_replies() {
    let mut adapter = MockAdapter::new();

    let root_id = adapter.store(b"Root tweet").unwrap();
    let reply1_id = adapter.store_reply(&root_id, b"Reply 1").unwrap();
    let reply2_id = adapter.store_reply(&root_id, b"Reply 2").unwrap();

    let replies = adapter.fetch_replies(&root_id).unwrap();

    assert_eq!(replies.len(), 2);
    assert!(replies.contains(&reply1_id));
    assert!(replies.contains(&reply2_id));
}

#[test]
fn mock_get_tweet_and_missing_fetch() {
    let mut adapter = MockAdapter::new();
    let root = adapter.store(b"Root tweet").unwrap();
    let reply = adapter.store_reply(&root, b"Reply 1").unwrap();
    assert_eq!(reply, "mock_tweet_2");
    let t = adapter.get_tweet(&reply).unwrap();
    assert_eq!(t.text, "Reply 1");
    assert_eq!(t.in_reply_to, Some(root.clone()));
    assert_eq!(t.author_id, "mock_user");
    assert!(adapter.get_tweet(&"mock_tweet_9".to_string()).is_none());
    assert_eq!(adapter.get_replies(&reply), Vec::<String>::new());
    match adapter.fetch(&"nope".to_string()) {
        Err(XFilesError::TwitterApi(msg)) => assert_eq!(msg, "Tweet not found: nope"),
        other => panic!("unexpected: {:?}", other),
    }
}

#[test]
fn tweet_reply_target_is_first_replied_to_reference() {
    let refs = vec![
        ReferencedTweet { ref_type: "quoted".to_string(), id: "1".to_string() },
        ReferencedTweet { ref_type: "replied_to".to_string(), id: "2".to_string() },
        ReferencedTweet { ref_type: "replied_to".to_string(), id: "3".to_string() },
    ];
    assert_eq!(replied_to(&refs), Some("2".to_string()));
    let t = Tweet::from_parts("9".to_string(), "hi".to_string(), None, Some("t0".to_string()), Some(refs));
    assert_eq!(t.author_id, "");
    assert_eq!(t.created_at, "t0");
    assert_eq!(t.in_reply_to, Some("2".to_string()));
    let t = Tweet::from_parts("9".to_string(), "hi".to_string(), Some("a".to_string()), None, None);
    assert_eq!(t.author_id, "a");
    assert_eq!(t.in_reply_to, None);
}

fn commit(id: &str, parents: &[&str], ts: i64) -> Commit {
    let mut c = Commit::new(
        id.to_string(),
        parents.iter().map(|p| p.to_string()).collect(),
        "author".to_string(),
        compute_hash(b""),
        "text/plain".to_string(),
        0,
    );
    c.timestamp = ts;
    c
}

#[test]
fn find_head_of_linear_chain() {
    let mut g = CommitGraph::new();
    g.add_commit(commit("root", &[], 1));
    g.add_commit(commit("c1", &["root"], 2));
    g.add_commit(commit("c2", &["c1"], 3));
    g.add_commit(commit("c3", &["c2"], 4));
    assert_eq!(g.find_head(&"root".to_string()).unwrap().id, "c3");
    assert_eq!(g.find_head(&"c2".to_string()).unwrap().id, "c3");
    let mut ancestors: Vec<String> = g.get_ancestors(&"c2".to_string()).unwrap().into_iter().map(|c| c.id).collect();
    ancestors.sort();
    assert_eq!(ancestors, vec!["c1", "c2", "root"]);
}

#[test]
fn forks_are_detected_and_latest_head_wins() {
    let mut g = CommitGraph::new();
    g.add_commit(commit("root", &[], 1));
    g.add_commit(commit("left", &["root"], 20));
    g.add_commit(commit("right", &["root"], 10));
    let mut forks = g.detect_forks(&"root".to_string()).unwrap();
    forks.sort();
    assert_eq!(forks, vec!["left", "right"]);
    assert_eq!(g.find_head(&"root".to_string()).unwrap().id, "left");
}

#[test]
fn find_head_of_unknown_start_fails() {
    let mut g = CommitGraph::new();
    g.add_commit(commit("root", &[], 1));
    match g.find_head(&"other".to_string()) {
        Err(XFilesError::CommitNotFound(id)) => assert_eq!(id, "other"),
        Err(e) => panic!("unexpected error {:?}", e),
        Ok(c) => panic!("unexpected head {}", c.id),
    }
    assert_eq!(g.detect_forks(&"other".to_string()).unwrap(), vec!["other"]);
    assert!(g.get_ancestors(&"other".to_string()).unwrap().is_empty());
}

#[test]
fn add_commit_replaces_same_id_and_children_are_listed() {
    let mut g = CommitGraph::new();
    g.add_commit(commit("root", &[], 1));
    g.add_commit(commit("a", &["root"], 2));
    g.add_commit(commit("a", &["root"], 5));
    assert_eq!(g.len(), 2);
    assert_eq!(g.get_commit(&"a".to_string()).unwrap().timestamp, 5);
    let kids = g.get_children(&"root".to_string());
    assert_eq!(kids.len(), 1);
    assert_eq!(kids[0].id, "a");
    g.set_head(&"a".to_string());
    assert!(g.get_commit(&"a".to_string()).unwrap().is_head);
    assert!(!g.get_commit(&"root".to_string()).unwrap().is_head);
}

#[test]
fn test_rate_limiter() {
    let mut limiter = RateLimiter::new(2, 100);
    assert_eq!(limiter.acquire(0), 0);
    assert_eq!(limiter.acquire(0), 0);
    let wait = limiter.acquire(0);
    assert!(wait >= 90);
    assert_eq!(wait, 100);
    assert!(!limiter.can_proceed(50));
    assert_eq!(limiter.acquire(50), 50);
    assert!(limiter.can_proceed(100));
    assert_eq!(limiter.acquire(100), 0);
}

fn run_with_retry(config: &RetryConfig, fail_first: usize, waits: &mut Vec<u64>) -> (Result<i32, &'static str>, usize) {
    let mut state = RetryState::new(config);
    let mut calls = 0usize;
    loop {
        calls += 1;
        let outcome: Result<i32, &'static str> = if calls <= fail_first { Err("temporary error") } else { Ok(42) };
        match outcome {
            Ok(v) => return (Ok(v), calls),
            Err(e) => match state.on_failure(config) {
                RetryDecision::GiveUp => return (Err(e), calls),
                RetryDecision::Retry(ms) => waits.push(ms),
            },
        }
    }
}

#[test]
fn test_retry_success() {
    let config = RetryConfig::default();
    let mut waits = Vec::new();
    let (result, attempts) = run_with_retry(&config, 2, &mut waits);
    assert_eq!(result, Ok(42));
    assert_eq!(attempts, 3);
    assert_eq!(waits, vec![100, 200]);
}

#[test]
fn test_retry_max_attempts() {
    let config = RetryConfig { max_attempts: 2, ..Default::default() };
    let mut waits = Vec::new();
    let (result, attempts) = run_with_retry(&config, usize::MAX, &mut waits);
    assert_eq!(result, Err("temporary error"));
    assert_eq!(attempts, 2);
}

#[test]
fn retry_three_attempts_on_permanent_failure_and_backoff_cap() {
    let config = RetryConfig { max_attempts: 3, initial_backoff_ms: 100, max_backoff_ms: 150, multiplier_percent: 200 };
    let mut waits = Vec::new();
    let (result, attempts) = run_with_retry(&config, usize::MAX, &mut waits);
    assert!(result.is_err());
    assert_eq!(attempts, 3);
    assert_eq!(waits, vec![100, 150]);
}

#[test]
fn digest_check_reports_mismatch() {
    let good = compute_hash(b"abc");
    assert_eq!(xfiles::hash::check_digest(good.clone(), good.clone()), Ok(()));
    match xfiles::hash::check_digest(compute_hash(b"abd"), good.clone()) {
        Err(XFilesError::HashMismatch { expected, actual }) => {
            assert_eq!(expected, good);
            assert_eq!(actual, compute_hash(b"abd"));
        }
        other => panic!("unexpected: {:?}", other),
    }
}

#[test]
fn ancestors_start_with_the_start_commit() {
    let mut g = CommitGraph::new();
    g.add_commit(commit("c1", &["root"], 2));
    g.add_commit(commit("root", &[], 1));
    g.add_commit(commit("c2", &["c1"], 3));
    let ancestors = g.get_ancestors(&"c2".to_string()).unwrap();
    assert_eq!(ancestors.len(), 3);
    assert_eq!(ancestors[0].id, "c2");
}

#[test]
fn head_of_tree_follows_reply_lists() {
    let mut g = CommitGraph::new();
    g.add_commit(commit("root", &[], 1));
    g.add_commit(commit("a", &["root"], 2));
    g.add_commit(commit("b", &["a"], 3));
    g.add_commit(commit("x", &["root"], 9));
    let root = "root".to_string();
    let none: Vec<Vec<String>> = vec![vec![]];
    assert_eq!(head_of_tree(&g, &root, &none).unwrap(), "root");
    let lists = vec![vec!["a".to_string()], vec!["b".to_string()], vec![]];
    assert_eq!(head_of_tree(&g, &root, &lists).unwrap(), "b");
    let lists = vec![vec!["a".to_string(), "x".to_string()], vec!["b".to_string()], vec![], vec![]];
    assert_eq!(head_of_tree(&g, &root, &lists).unwrap(), "x");
    let unknown = vec![vec!["zzz".to_string()]];
    assert!(matches!(head_of_tree(&g, &"nope".to_string(), &unknown), Err(XFilesError::CommitNotFound(_))));
}

#[test]
fn assemble_stops_at_size_or_empty_segment() {
    let segs = vec![b"cd".to_vec(), b"ef".to_vec(), b"gh".to_vec()];
    assert_eq!(assemble(b"ab", &segs, 6), b"abcdef".to_vec());
    assert_eq!(assemble(b"ab", &segs, 2), b"ab".to_vec());
    let with_gap = vec![b"cd".to_vec(), Vec::new(), b"gh".to_vec()];
    assert_eq!(assemble(b"ab", &with_gap, 100), b"abcd".to_vec());
}

#[test]
fn registry_lists_paths_in_order() {
    let mut r = xfiles::FileRegistry::new();
    r.register_file("top.txt", &"3".to_string());
    r.register_file("logs/b.log", &"2".to_string());
    r.register_file("logs/a.log", &"1".to_string());
    r.register_file("Z", &"4".to_string());
    assert_eq!(r.list_files(), vec!["Z", "logs/a.log", "logs/b.log", "top.txt"]);
    assert_eq!(r.get_file_root("logs/a.log"), Some("1".to_string()));
    assert!(r.file_exists("top.txt"));
    assert!(!r.file_exists("logs"));
}
