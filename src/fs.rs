use vstd::prelude::*;

use crate::cache::ContentCache;
use crate::chunk::{chunk_content_with, lemma_chunk_round_trip, segments_of, segments_view, TWEET_MAX_SIZE};
use crate::commit::{commits_view, copy_ids, copy_string, ids_view, Commit, CommitView, TweetId};
use crate::error::{Result, XFilesError};
use crate::graph::{
    count_unset, flag_head, has_commit, is_head_of, is_not_found, lemma_count_unset_set, reached_exactly, upsert,
    CommitGraph,
};
use crate::hash::{blake3_hex, check_digest, compute_hash, hash_verifies};
use crate::host::{
    assemble, assembled, bytes_answer, bytes_view, fetched_payloads, head_of_tree, id_answer, ids_answer, lists_view,
    only_reply_queries, posted_chain, posted_id, reply_answers, tree_head, chain_parent, is_reply_post, HostCall,
    answered, call_error, chain_prefix, lemma_full_chain, lemma_log_step, is_reply_call, is_reused_id_error, lemma_chain_step, answered_before_last,
    all_answered, queries_follow_tree, tree_explored, queried, listed, lemma_query_step, lemma_listed_push,
    root_is_leaf, tree_graph,
};
use crate::remote::RemoteAdapter;
use crate::store::{sorted_texts, text_le, FileRegistry};

verus! {

/// How a file is opened.
#[derive(Debug, Clone, Copy, PartialEq, Eq, Structural)]
pub enum OpenMode {
    /// Create a new file; fails if the path is registered.
    Create,
    /// Open a registered file for reading.
    ReadOnly,
    /// Open a registered file for reading and writing.
    ReadWrite,
}

/// `s` without its leading `@` characters.
pub open spec fn trim_at(s: Seq<char>) -> Seq<char>
    decreases s.len(),
{
    if s.len() > 0 && s[0] == '@' {
        trim_at(s.drop_first())
    } else {
        s
    }
}

/// `s` begins with `prefix`.
pub open spec fn has_prefix(s: Seq<char>, prefix: Seq<char>) -> bool {
    prefix.len() <= s.len() && s.subrange(0, prefix.len() as int) == prefix
}

/// A listing of `path` names every file: the path is empty or `/`.
pub open spec fn lists_everything(path: Seq<char>) -> bool {
    path.len() == 0 || path == seq!['/']
}

/// The directory prefix that a listing of `path` filters by.
pub open spec fn dir_prefix(path: Seq<char>) -> Seq<char> {
    if path.len() > 0 && path.last() == '/' {
        path
    } else {
        path.push('/')
    }
}

/// File `p` is listed under `path`.
pub open spec fn listed_under(p: Seq<char>, path: Seq<char>) -> bool {
    lists_everything(path) || has_prefix(p, dir_prefix(path))
}

/// `v` is ordered by timestamp, oldest first.
pub open spec fn by_timestamp(v: Seq<Commit>) -> bool {
    forall|a: int, b: int| 0 <= a < b < v.len() ==> v[a].timestamp <= v[b].timestamp
}

/// `c` is a commit as the write path records it, before its head flag is set.
pub open spec fn is_recorded(
    c: CommitView,
    id: Seq<char>,
    parents: Seq<Seq<char>>,
    author: Seq<char>,
    hash: Seq<char>,
    mime: Seq<char>,
    size: nat,
) -> bool {
    &&& c.id == id
    &&& c.parents == parents
    &&& c.author == author
    &&& c.hash == hash
    &&& c.mime == mime
    &&& c.size == size
    &&& !c.is_head
}

/// The bytes posted to mark a file deleted.
pub open spec fn tombstone_bytes() -> Seq<u8> {
    seq![91u8, 68u8, 69u8, 76u8, 69u8, 84u8, 69u8, 68u8, 93u8]
}

fn tombstone() -> (r: Vec<u8>)
    ensures
        r@ == tombstone_bytes(),
{
    let r = vec![91u8, 68u8, 69u8, 76u8, 69u8, 84u8, 69u8, 68u8, 93u8];
    assert(r@ =~= tombstone_bytes());
    r
}

/// Appends the bytes of `more` to `v`.
fn append_bytes(v: &mut Vec<u8>, more: &Vec<u8>)
    ensures
        final(v)@ == old(v)@ + more@,
{
    let mut j: usize = 0;
    let ghost start = v@;
    while j < more.len()
        invariant
            j <= more@.len(),
            v@ == start + more@.subrange(0, j as int),
        decreases more@.len() - j,
    {
        v.push(more[j]);
        j = j + 1;
        assert(v@ =~= start + more@.subrange(0, j as int));
    }
    assert(more@.subrange(0, j as int) =~= more@);
}

/// The error for a new post given the identifier of a recorded commit.
fn reused_id_error() -> (e: XFilesError)
    ensures
        is_reused_id_error(e),
{
    XFilesError::Other(String::from_str("the host returned a recorded identifier"))
}

/// `s` without its leading `@` characters.
pub fn trim_leading_at(s: &str) -> (r: String)
    ensures
        r@ == trim_at(s@),
{
    let n = s.unicode_len();
    let mut k: usize = 0;
    assert(s@.skip(0) =~= s@);
    while k < n && s.get_char(k) == '@'
        invariant
            n == s@.len(),
            k <= n,
            trim_at(s@) == trim_at(s@.skip(k as int)),
        decreases n - k,
    {
        assert(s@.skip(k as int).drop_first() =~= s@.skip(k + 1));
        k = k + 1;
    }
    let rest = s.substring_char(k, n);
    assert(rest@ =~= s@.skip(k as int));
    String::from_str(rest)
}

/// `s` begins with `prefix`.
pub fn starts_with(s: &str, prefix: &str) -> (r: bool)
    ensures
        r == has_prefix(s@, prefix@),
{
    let n = s.unicode_len();
    let m = prefix.unicode_len();
    if m > n {
        return false;
    }
    let mut i: usize = 0;
    while i < m
        invariant
            n == s@.len(),
            m == prefix@.len(),
            m <= n,
            i <= m,
            forall|j: int| 0 <= j < i ==> s@[j] == prefix@[j],
        decreases m - i,
    {
        if s.get_char(i) != prefix.get_char(i) {
            assert(s@.subrange(0, m as int)[i as int] != prefix@[i as int]);
            return false;
        }
        i = i + 1;
    }
    assert(s@.subrange(0, m as int) =~= prefix@);
    true
}

/// `v` has no two commits with one identifier.
pub open spec fn distinct_ids(v: Seq<Commit>) -> bool {
    forall|a: int, b: int| 0 <= a < b < v.len() ==> v[a]@.id != v[b]@.id
}

/// Position `q` is among the first `n` entries of `src`.
spec fn hits(src: Seq<int>, n: int, q: int) -> bool {
    exists|a: int| 0 <= a < n && #[trigger] src[a] == q
}

/// Sorts `v` by timestamp, keeping the order of equal timestamps.
fn sort_by_timestamp(v: Vec<Commit>) -> (r: Vec<Commit>)
    ensures
        by_timestamp(r@),
        r@.len() == v@.len(),
        forall|q: int| 0 <= q < v@.len() ==> commits_view(r@).contains(#[trigger] v@[q]@),
        forall|a: int| 0 <= a < r@.len() ==> commits_view(v@).contains(#[trigger] r@[a]@),
        distinct_ids(v@) ==> distinct_ids(r@),
{
    let mut out: Vec<Commit> = Vec::new();
    let ghost mut src: Seq<int> = Seq::empty();
    let mut i: usize = 0;
    while i < v.len()
        invariant
            i <= v@.len(),
            out@.len() == i,
            src.len() == i,
            by_timestamp(out@),
            forall|a: int| 0 <= a < i ==> 0 <= #[trigger] src[a] < i && out@[a]@ == v@[src[a]]@,
            forall|a: int, b: int| 0 <= a < i && 0 <= b < i && a != b ==> src[a] != src[b],
            forall|q: int| 0 <= q < i ==> #[trigger] hits(src, i as int, q),
        decreases v@.len() - i,
    {
        let c = v[i].copy();
        let mut p: usize = 0;
        while p < out.len() && out[p].timestamp <= c.timestamp
            invariant
                p <= out@.len(),
                forall|j: int| 0 <= j < p ==> out@[j].timestamp <= c.timestamp,
            decreases out@.len() - p,
        {
            p = p + 1;
        }
        let ghost before = out@;
        let ghost src0 = src;
        proof {
            assert forall|j: int| p <= j < before.len() implies before[j].timestamp > c.timestamp by {
                assert(before[p as int].timestamp > c.timestamp);
                if j > p {
                    assert(before[p as int].timestamp <= before[j].timestamp);
                }
            }
        }
        out.insert(p, c);
        proof {
            src = src0.insert(p as int, i as int);
            assert(out@ =~= before.insert(p as int, c));
            assert forall|a: int, b: int| 0 <= a < b < out@.len() implies out@[a].timestamp <= out@[b].timestamp by {
                if b < p {
                } else if b == p {
                } else if a < p {
                    assert(out@[b] == before[b - 1]);
                } else if a == p {
                    assert(out@[b] == before[b - 1]);
                } else {
                    assert(out@[a] == before[a - 1] && out@[b] == before[b - 1]);
                }
            }
            assert forall|a: int| 0 <= a < i + 1 implies 0 <= #[trigger] src[a] < i + 1 && out@[a]@ == v@[src[a]]@ by {
                if a < p {
                    assert(src[a] == src0[a]);
                } else if a > p {
                    assert(src[a] == src0[a - 1]);
                }
            }
            assert forall|a: int, b: int| 0 <= a < i + 1 && 0 <= b < i + 1 && a != b implies src[a] != src[b] by {
                let a0 = if a < p { a } else { a - 1 };
                let b0 = if b < p { b } else { b - 1 };
                if a != p && b != p {
                    assert(src[a] == src0[a0] && src[b] == src0[b0]);
                } else if a == p {
                    assert(src[b] == src0[b0]);
                } else {
                    assert(src[a] == src0[a0]);
                }
            }
            assert forall|q: int| 0 <= q < i + 1 implies #[trigger] hits(src, i + 1, q) by {
                if q == i {
                    assert(src[p as int] == q);
                } else {
                    assert(hits(src0, i as int, q));
                    let a0 = choose|a: int| 0 <= a < i && #[trigger] src0[a] == q;
                    if a0 < p {
                        assert(src[a0] == q);
                    } else {
                        assert(src[a0 + 1] == q);
                    }
                }
            }
        }
        i = i + 1;
    }
    proof {
        assert forall|q: int| 0 <= q < v@.len() implies commits_view(out@).contains(#[trigger] v@[q]@) by {
            assert(hits(src, i as int, q));
            let a = choose|a: int| 0 <= a < i && #[trigger] src[a] == q;
            assert(commits_view(out@)[a] == v@[q]@);
        }
        assert forall|a: int| 0 <= a < out@.len() implies commits_view(v@).contains(#[trigger] out@[a]@) by {
            assert(commits_view(v@)[src[a]] == out@[a]@);
        }
        if distinct_ids(v@) {
            assert forall|a: int, b: int| 0 <= a < b < out@.len() implies out@[a]@.id != out@[b]@.id by {
                assert(src[a] != src[b]);
                if src[a] < src[b] {
                    assert(v@[src[a]]@.id != v@[src[b]]@.id);
                } else {
                    assert(v@[src[b]]@.id != v@[src[a]]@.id);
                }
            }
        }
    }
    out
}

/// The file store: registered paths, commit records, the content cache, and
/// the remote host that holds the posts.
pub struct XFS<A: RemoteAdapter> {
    user: String,
    commits: CommitGraph,
    files: FileRegistry,
    cache: ContentCache,
    adapter: A,
    max_segment: usize,
    log: Ghost<Seq<HostCall>>,
}

impl<A: RemoteAdapter> XFS<A> {
    /// The parts are well formed.
    pub closed spec fn wf(&self) -> bool {
        self.commits.wf() && self.files.wf() && self.cache.wf() && self.max_segment > 0
    }

    /// The largest segment posted, in bytes.
    pub closed spec fn segment_limit(&self) -> nat {
        self.max_segment as nat
    }

    /// The commit records.
    pub closed spec fn index(&self) -> Seq<CommitView> {
        self.commits@
    }

    /// The registered paths and their roots.
    pub closed spec fn registry(&self) -> Map<Seq<char>, Seq<char>> {
        self.files@
    }

    /// The cached payloads.
    pub closed spec fn cached(&self) -> Map<Seq<char>, Seq<u8>> {
        self.cache@
    }

    /// The account that authors new commits.
    pub closed spec fn user_name(&self) -> Seq<char> {
        self.user@
    }

    /// Every call made to the remote host, oldest first.
    pub closed spec fn host_log(&self) -> Seq<HostCall> {
        self.log@
    }

    /// The calls to the remote host made since the state `before`, whose
    /// log this one extends.
    pub open spec fn calls_since(&self, before: &XFS<A>) -> Seq<HostCall> {
        self.host_log().skip(before.host_log().len() as int)
    }

    /// This log is the log of `before` followed by further calls.
    pub open spec fn log_extends(&self, before: &XFS<A>) -> bool {
        &&& before.host_log().len() <= self.host_log().len()
        &&& self.host_log().subrange(0, before.host_log().len() as int) == before.host_log()
    }

    /// Records, registrations and cache are those of `other`.
    pub open spec fn keeps(&self, other: &XFS<A>) -> bool {
        &&& self.index() == other.index()
        &&& self.registry() == other.registry()
        &&& self.cached() == other.cached()
        &&& self.user_name() == other.user_name()
    }

    /// A store for account `user` (leading `@` dropped) over `adapter`, with
    /// no records yet.
    pub fn with_adapter(user: &str, adapter: A) -> (r: XFS<A>)
        ensures
            r.wf(),
            r.index() == Seq::<CommitView>::empty(),
            r.registry() == Map::<Seq<char>, Seq<char>>::empty(),
            r.cached() == Map::<Seq<char>, Seq<u8>>::empty(),
            r.user_name() == trim_at(user@),
            r.segment_limit() == TWEET_MAX_SIZE,
            r.host_log() == Seq::<HostCall>::empty(),
    {
        XFS {
            user: trim_leading_at(user),
            commits: CommitGraph::new(),
            files: FileRegistry::new(),
            cache: ContentCache::new(),
            adapter,
            max_segment: TWEET_MAX_SIZE,
            log: Ghost(Seq::empty()),
        }
    }

    /// A store for account `user` (leading `@` dropped) over `adapter`,
    /// holding the given records and an empty cache.
    pub fn with_records(user: &str, adapter: A, commits: CommitGraph, files: FileRegistry) -> (r: XFS<A>)
        requires
            commits.wf(),
            files.wf(),
        ensures
            r.wf(),
            r.index() == commits@,
            r.registry() == files@,
            r.cached() == Map::<Seq<char>, Seq<u8>>::empty(),
            r.user_name() == trim_at(user@),
            r.segment_limit() == TWEET_MAX_SIZE,
            r.host_log() == Seq::<HostCall>::empty(),
    {
        XFS {
            user: trim_leading_at(user),
            commits,
            files,
            cache: ContentCache::new(),
            adapter,
            max_segment: TWEET_MAX_SIZE,
            log: Ghost(Seq::empty()),
        }
    }

    /// Sets the largest segment posted to `max_segment` bytes, for hosts
    /// whose posts hold more or less than the default.
    pub fn set_max_segment(&mut self, max_segment: usize)
        requires
            old(self).wf(),
            max_segment > 0,
        ensures
            final(self).wf(),
            final(self).keeps(old(self)),
            final(self).segment_limit() == max_segment,
    {
        self.max_segment = max_segment;
    }

    /// The commit records.
    pub fn commits(&self) -> (r: &CommitGraph)
        ensures
            r@ == self.index(),
    {
        &self.commits
    }

    /// The registered files.
    pub fn files(&self) -> (r: &FileRegistry)
        ensures
            r@ == self.registry(),
    {
        &self.files
    }

    /// Empties the content cache; records and registrations stay.
    pub fn clear_cache(&mut self)
        requires
            old(self).wf(),
        ensures
            final(self).wf(),
            final(self).cached() == Map::<Seq<char>, Seq<u8>>::empty(),
            final(self).index() == old(self).index(),
            final(self).registry() == old(self).registry(),
            final(self).user_name() == old(self).user_name(),
    {
        self.cache.clear();
    }

    /// The account that authors new commits.
    pub fn user(&self) -> (r: &str)
        ensures
            r@ == self.user_name(),
    {
        self.user.as_str()
    }

    /// A file is registered at `path`.
    pub fn file_exists(&self, path: &str) -> (r: Result<bool>)
        requires
            self.wf(),
        ensures
            r matches Ok(b) && b == self.registry().contains_key(path@),
    {
        Ok(self.files.file_exists(path))
    }

    /// The registered paths under directory `path`; all of them for an empty
    /// path or `/`.
    pub fn list(&self, path: &str) -> (r: Result<Vec<String>>)
        requires
            self.wf(),
        ensures
            r matches Ok(v) && ids_view(v@).no_duplicates() && sorted_texts(ids_view(v@)) && forall|p: Seq<char>|
                #[trigger] ids_view(v@).contains(p) <==> (self.registry().contains_key(p) && listed_under(p, path@)),
    {
        let all = self.files.list_files();
        let n = path.unicode_len();
        if n == 0 || (n == 1 && path.get_char(0) == '/') {
            proof {
                if n == 1 {
                    assert(path@ =~= seq!['/']);
                }
            }
            return Ok(all);
        }
        let mut prefix = String::from_str(path);
        if path.get_char(n - 1) != '/' {
            prefix.append("/");
            proof {
                reveal_strlit("/");
            }
        }
        assert(prefix@ =~= dir_prefix(path@));
        let mut v: Vec<String> = Vec::new();
        let ghost mut src: Seq<int> = Seq::empty();
        let mut i: usize = 0;
        while i < all.len()
            invariant
                i <= all@.len(),
                prefix@ == dir_prefix(path@),
                !lists_everything(path@),
                ids_view(all@).no_duplicates(),
                sorted_texts(ids_view(all@)),
                sorted_texts(ids_view(v@)),
                src.len() == v@.len(),
                forall|j: int| 0 <= j < src.len() ==> 0 <= #[trigger] src[j] < i && v@[j]@ == all@[src[j]]@,
                forall|j: int, l: int| 0 <= j < l < src.len() ==> src[j] < src[l],
                forall|j: int| 0 <= j < v@.len() ==> has_prefix(#[trigger] v@[j]@, prefix@),
                forall|q: int| 0 <= q < i && has_prefix(#[trigger] all@[q]@, prefix@) ==> ids_view(v@).contains(all@[q]@),
            decreases all@.len() - i,
        {
            if starts_with(all[i].as_str(), prefix.as_str()) {
                let ghost before = v@;
                v.push(copy_string(&all[i]));
                proof {
                    assert forall|a: int, b: int| 0 <= a < b < ids_view(v@).len() implies text_le(
                        ids_view(v@)[a],
                        ids_view(v@)[b],
                    ) by {
                        if b < before.len() {
                            assert(ids_view(v@)[a] == ids_view(before)[a] && ids_view(v@)[b] == ids_view(before)[b]);
                        } else {
                            assert(ids_view(v@)[a] == ids_view(all@)[src[a]]);
                            assert(ids_view(v@)[b] == ids_view(all@)[i as int]);
                        }
                    }
                    src = src.push(i as int);
                    assert(ids_view(v@)[before.len() as int] == all@[i as int]@);
                    assert forall|q: int| 0 <= q <= i && has_prefix(#[trigger] all@[q]@, prefix@)
                        implies ids_view(v@).contains(all@[q]@) by {
                        if q < i {
                            let j = choose|j: int| 0 <= j < before.len() && #[trigger] ids_view(before)[j] == all@[q]@;
                            assert(ids_view(v@)[j] == ids_view(before)[j]);
                        }
                    }
                }
            }
            i = i + 1;
        }
        proof {
            let av = ids_view(all@);
            assert forall|p: Seq<char>| #[trigger] ids_view(v@).contains(p) <==> (self.registry().contains_key(p)
                && listed_under(p, path@)) by {
                if ids_view(v@).contains(p) {
                    let j = choose|j: int| 0 <= j < v@.len() && #[trigger] ids_view(v@)[j] == p;
                    assert(v@[j]@ == p);
                    assert(av[src[j]] == p);
                    assert(av.contains(p));
                }
                if self.registry().contains_key(p) && listed_under(p, path@) {
                    assert(av.contains(p));
                    let q = choose|q: int| 0 <= q < av.len() && #[trigger] av[q] == p;
                    assert(all@[q]@ == p);
                }
            }
            assert forall|a: int, b: int| 0 <= a < ids_view(v@).len() && 0 <= b < ids_view(v@).len() && a != b
                implies ids_view(v@)[a] != ids_view(v@)[b] by {
                assert(ids_view(v@)[a] == av[src[a]]);
                assert(ids_view(v@)[b] == av[src[b]]);
                if a < b {
                    assert(src[a] < src[b]);
                } else {
                    assert(src[b] < src[a]);
                }
            }
        }
        Ok(v)
    }

    /// Every commit reachable from the root of the file at `path`, oldest first.
    pub fn history(&self, path: &str) -> (r: Result<Vec<Commit>>)
        requires
            self.wf(),
        ensures
            match r {
                Ok(v) => {
                    &&& self.registry().contains_key(path@)
                    &&& reached_exactly(self.index(), true, self.registry()[path@], v@)
                    &&& by_timestamp(v@)
                },
                Err(e) => !self.registry().contains_key(path@) && (e matches XFilesError::FileNotFound(p) && p@ == path@),
            },
    {
        let root = match self.files.get_file_root(path) {
            Some(root) => root,
            None => {
                return Err(XFilesError::FileNotFound(String::from_str(path)));
            },
        };
        let found = self.commits.get_descendants(&root);
        let ghost cs = self.commits@;
        let sorted = sort_by_timestamp(found);
        proof {
            assert(distinct_ids(found@));
            assert forall|j: int| 0 <= j < sorted@.len() implies cs.contains(#[trigger] sorted@[j]@)
                && crate::graph::reaches(cs, true, root@, sorted@[j]@.id) by {
                assert(commits_view(found@).contains(sorted@[j]@));
                let q = choose|q: int| 0 <= q < found@.len() && #[trigger] commits_view(found@)[q] == sorted@[j]@;
                assert(found@[q]@ == sorted@[j]@);
            }
            assert forall|k: int| 0 <= k < cs.len() && crate::graph::reaches(cs, true, root@, #[trigger] cs[k].id)
                implies commits_view(sorted@).contains(cs[k]) by {
                assert(commits_view(found@).contains(cs[k]));
                let q = choose|q: int| 0 <= q < found@.len() && #[trigger] commits_view(found@)[q] == cs[k];
                assert(commits_view(sorted@).contains(found@[q]@));
            }
        }
        Ok(sorted)
    }

    /// Asks the host for the payload of `id`, and logs the call.
    fn host_fetch(&mut self, id: &TweetId) -> (r: Result<Vec<u8>>)
        ensures
            final(self).keeps(old(self)),
            final(self).wf() == old(self).wf(),
            final(self).segment_limit() == old(self).segment_limit(),
            final(self).host_log() == old(self).host_log().push(HostCall::Fetch { id: id@, answer: bytes_answer(r) }),
    {
        let r = self.adapter.fetch(id);
        self.log = Ghost(self.log@.push(HostCall::Fetch { id: id@, answer: bytes_answer(r) }));
        r
    }

    /// Asks the host for the replies to `id`, and logs the call.
    fn host_fetch_replies(&mut self, id: &TweetId) -> (r: Result<Vec<TweetId>>)
        ensures
            final(self).keeps(old(self)),
            final(self).wf() == old(self).wf(),
            final(self).segment_limit() == old(self).segment_limit(),
            final(self).host_log() == old(self).host_log().push(
                HostCall::FetchReplies { id: id@, answer: ids_answer(r) },
            ),
    {
        let r = self.adapter.fetch_replies(id);
        self.log = Ghost(self.log@.push(HostCall::FetchReplies { id: id@, answer: ids_answer(r) }));
        r
    }

    /// Posts `content` as a new root, and logs the call.
    fn host_store(&mut self, content: &[u8]) -> (r: Result<TweetId>)
        ensures
            final(self).keeps(old(self)),
            final(self).wf() == old(self).wf(),
            final(self).segment_limit() == old(self).segment_limit(),
            final(self).host_log() == old(self).host_log().push(
                HostCall::Store { content: content@, answer: id_answer(r) },
            ),
    {
        let r = self.adapter.store(content);
        self.log = Ghost(self.log@.push(HostCall::Store { content: content@, answer: id_answer(r) }));
        r
    }

    /// Posts `content` as a reply to `parent`, and logs the call.
    fn host_store_reply(&mut self, parent: &TweetId, content: &[u8]) -> (r: Result<TweetId>)
        ensures
            final(self).keeps(old(self)),
            final(self).wf() == old(self).wf(),
            final(self).segment_limit() == old(self).segment_limit(),
            final(self).host_log() == old(self).host_log().push(
                HostCall::StoreReply { parent: parent@, content: content@, answer: id_answer(r) },
            ),
    {
        let r = self.adapter.store_reply(parent, content);
        self.log = Ghost(
            self.log@.push(HostCall::StoreReply { parent: parent@, content: content@, answer: id_answer(r) }),
        );
        r
    }

    /// The head of the file rooted at `root`. The host is asked for the
    /// replies of the root and, transitively, of every recorded commit among
    /// the replies; the head then follows from those lists by [`head_of_tree`].
    fn resolve_head(&mut self, root: &TweetId) -> (r: Result<TweetId>)
        requires
            old(self).wf(),
        ensures
            final(self).wf(),
            final(self).keeps(old(self)),
            final(self).segment_limit() == old(self).segment_limit(),
            final(self).log_extends(old(self)),
            only_reply_queries(final(self).calls_since(old(self))),
            final(self).calls_since(old(self)).len() >= 1,
            final(self).calls_since(old(self))[0] matches HostCall::FetchReplies { id, .. } && id == root@,
            queries_follow_tree(final(self).calls_since(old(self)), old(self).index(), root@),
            answered_before_last(final(self).calls_since(old(self))),
            ({
                let calls = final(self).calls_since(old(self));
                !answered(calls.last()) ==> (r matches Err(e) && e == call_error(calls.last()))
            }),
            ({
                let calls = final(self).calls_since(old(self));
                let lists = reply_answers(calls);
                all_answered(calls) ==> {
                    &&& tree_explored(calls, old(self).index(), root@)
                    &&& (r is Ok <==> (root_is_leaf(lists) || exists|h: Seq<char>|
                        #[trigger] is_head_of(tree_graph(old(self).index(), root@, lists), root@, h)))
                    &&& (r matches Err(e) ==> is_not_found(e, root@))
                }
            }),
            r matches Ok(h) ==> tree_head(old(self).index(), root@, reply_answers(final(self).calls_since(old(self))), h@),
    {
        let ghost pre = *self;
        let ghost n0 = self.log@.len();
        let first = self.host_fetch_replies(root);
        let ghost fa = ids_answer(first);
        let ghost c0 = HostCall::FetchReplies { id: root@, answer: fa };
        proof {
            assert(self.log@.skip(n0 as int) =~= seq![c0]);
            assert(self.log@.subrange(0, n0 as int) =~= pre.log@);
            let c = self.log@.skip(n0 as int);
            assert(c.drop_last() =~= Seq::<HostCall>::empty());
            lemma_log_step(Seq::<HostCall>::empty(), c0);
            assert(Seq::<HostCall>::empty().push(c0) =~= c);
        }
        let replies = match first {
            Ok(v) => v,
            Err(e) => {
                proof {
                    let cs = self.calls_since(&pre);
                    assert(!answered(cs[cs.len() - 1]));
                }
                return Err(e);
            },
        };
        assert(fa == Ok::<Seq<Seq<char>>, XFilesError>(ids_view(replies@)));
        let mut lists: Vec<Vec<TweetId>> = Vec::new();
        lists.push(copy_ids(&replies));
        proof {
            let c = self.log@.skip(n0 as int);
            assert(c.last() == c0);
            assert(reply_answers(c.drop_last()) == Seq::<Seq<Seq<char>>>::empty());
            assert(reply_answers(c) == reply_answers(c.drop_last()).push(ids_view(replies@)));
            assert(lists_view(lists@)[0] == ids_view(lists@[0]@));
            assert(lists_view(lists@) =~= reply_answers(c));
        }
        let ghost cs = self.commits@;
        let n = self.commits.len();
        let mut loaded: Vec<bool> = Vec::new();
        let mut i: usize = 0;
        while i < n
            invariant
                n == cs.len(),
                i <= n,
                loaded@.len() == i,
                forall|q: int| 0 <= q < i ==> !loaded@[q],
            decreases n - i,
        {
            loaded.push(false);
            i = i + 1;
        }
        match self.commits.index_of(root) {
            Some(k) => {
                loaded.set(k, true);
            },
            None => {},
        }
        let mut pending = replies;
        proof {
            let lv = lists_view(lists@);
            assert(lv[0] == ids_view(pending@));
            assert forall|j: int| 0 <= j < pending@.len() implies #[trigger] listed(lv, pending@[j]@) by {
                assert(ids_view(pending@)[j] == pending@[j]@);
                assert(lv[0].contains(pending@[j]@));
            }
            assert forall|x: Seq<char>| #[trigger] listed(lv, x) && has_commit(cs, x) && x != root@
                implies ids_view(pending@).contains(x) || queried(self.calls_since(&pre), x) by {
                let q = choose|q: int| 0 <= q < lv.len() && #[trigger] lv[q].contains(x);
                assert(q == 0);
            }
            assert forall|k: int| 0 <= k < n && #[trigger] loaded@[k] implies cs[k].id == root@
                || queried(self.calls_since(&pre), cs[k].id) by {
            }
        }
        while pending.len() > 0
            invariant
                self.wf(),
                self.commits@ == cs,
                cs == pre.index(),
                self.keeps(&pre),
                self.segment_limit() == pre.segment_limit(),
                n == cs.len(),
                n0 == pre.host_log().len(),
                loaded@.len() == n,
                *old(self) == pre,
                lists@.len() >= 1,
                self.log_extends(&pre),
                only_reply_queries(self.calls_since(&pre)),
                self.calls_since(&pre).len() >= 1,
                self.calls_since(&pre)[0] matches HostCall::FetchReplies { id, .. } && id == root@,
                lists_view(lists@) == reply_answers(self.calls_since(&pre)),
                all_answered(self.calls_since(&pre)),
                queries_follow_tree(self.calls_since(&pre), cs, root@),
                forall|j: int| 0 <= j < pending@.len() ==> #[trigger] listed(lists_view(lists@), pending@[j]@),
                forall|x: Seq<char>| #[trigger] listed(lists_view(lists@), x) && has_commit(cs, x) && x != root@
                    ==> ids_view(pending@).contains(x) || queried(self.calls_since(&pre), x),
                forall|k: int| 0 <= k < n && #[trigger] loaded@[k] ==> cs[k].id == root@
                    || queried(self.calls_since(&pre), cs[k].id),
                forall|k: int| 0 <= k < n && cs[k].id == root@ ==> #[trigger] loaded@[k],
            decreases count_unset(loaded@), pending@.len(),
        {
            let ghost p0 = pending@;
            let ghost calls0 = self.calls_since(&pre);
            let ghost lv0 = lists_view(lists@);
            let id = pending.pop().unwrap();
            proof {
                assert(p0 == pending@.push(id));
                assert(listed(lv0, p0[p0.len() - 1]@));
                assert forall|j: int| 0 <= j < pending@.len() implies #[trigger] listed(lv0, pending@[j]@) by {
                    assert(p0[j] == pending@[j]);
                    assert(listed(lv0, p0[j]@));
                }
                assert forall|x: Seq<char>| #[trigger] listed(lv0, x) && has_commit(cs, x) && x != root@
                    && x != id@ implies ids_view(pending@).contains(x) || queried(calls0, x) by {
                    if ids_view(p0).contains(x) {
                        let j = choose|j: int| 0 <= j < ids_view(p0).len() && ids_view(p0)[j] == x;
                        if j < pending@.len() {
                            assert(p0[j] == pending@[j]);
                            assert(ids_view(pending@)[j] == x);
                        } else {
                            assert(p0[j] == id);
                        }
                    }
                }
            }
            match self.commits.index_of(&id) {
                Some(k) => {
                    if !loaded[k] {
                        proof {
                            lemma_count_unset_set(loaded@, k as int);
                            if id@ == root@ {
                                assert(loaded@[k as int]);
                            }
                            assert(has_commit(cs, id@));
                        }
                        let ghost l0 = loaded@;
                        loaded.set(k, true);
                        let ghost before = self.log@;
                        let answer = self.host_fetch_replies(&id);
                        let ghost call = HostCall::FetchReplies { id: id@, answer: ids_answer(answer) };
                        proof {
                            let old_new = before.skip(n0 as int);
                            assert(old_new == calls0);
                            assert(self.log@.skip(n0 as int) =~= old_new.push(call));
                            assert(self.log@.subrange(0, n0 as int) =~= before.subrange(0, n0 as int));
                            assert(old_new.push(call)[0] == old_new[0]);
                            assert forall|q: int| 0 <= q < old_new.push(call).len() implies #[trigger] old_new.push(call)[q] is FetchReplies by {
                                if q < old_new.len() {
                                    assert(old_new.push(call)[q] == old_new[q]);
                                }
                            }
                            lemma_log_step(old_new, call);
                            lemma_query_step(old_new, call, cs, root@);
                        }
                        let children = match answer {
                            Ok(v) => v,
                            Err(e) => {
                                proof {
                                    let cc = self.calls_since(&pre);
                                    assert(!answered(cc[cc.len() - 1]));
                                }
                                return Err(e);
                            },
                        };
                        let ghost lists0 = lists@;
                        lists.push(copy_ids(&children));
                        let ghost p1 = pending@;
                        let mut j: usize = 0;
                        while j < children.len()
                            invariant
                                j <= children@.len(),
                                pending@.len() == p1.len() + j,
                                forall|q: int| 0 <= q < p1.len() ==> pending@[q] == p1[q],
                                forall|q: int| 0 <= q < j ==> #[trigger] pending@[p1.len() + q]@ == children@[q]@,
                            decreases children@.len() - j,
                        {
                            pending.push(copy_string(&children[j]));
                            j = j + 1;
                        }
                        proof {
                            let calls1 = self.calls_since(&pre);
                            let lv1 = lists_view(lists@);
                            let ch = ids_view(children@);
                            assert(lv1 =~= lv0.push(ch));
                            assert(lists@[0] == lists0[0]);
                            assert(call matches HostCall::FetchReplies { answer: Ok(a), .. } && a == ch);
                            assert(reply_answers(calls1) == lv1);
                            assert forall|q: int| 0 <= q < pending@.len() implies #[trigger] listed(lv1, pending@[q]@) by {
                                if q < p1.len() {
                                    assert(pending@[q] == p1[q]);
                                    lemma_listed_push(lv0, ch, p1[q]@);
                                } else {
                                    let t = q - p1.len();
                                    assert(pending@[p1.len() + t]@ == children@[t]@);
                                    assert(ch[t] == children@[t]@);
                                    lemma_listed_push(lv0, ch, pending@[q]@);
                                }
                            }
                            assert forall|x: Seq<char>| #[trigger] listed(lv1, x) && has_commit(cs, x) && x != root@
                                implies ids_view(pending@).contains(x) || queried(calls1, x) by {
                                lemma_listed_push(lv0, ch, x);
                                if x == id@ {
                                } else if listed(lv0, x) {
                                    if ids_view(p1).contains(x) {
                                        let t = choose|t: int| 0 <= t < ids_view(p1).len() && ids_view(p1)[t] == x;
                                        assert(pending@[t] == p1[t]);
                                        assert(ids_view(pending@)[t] == x);
                                    }
                                } else {
                                    let t = choose|t: int| 0 <= t < ch.len() && ch[t] == x;
                                    assert(pending@[p1.len() + t]@ == children@[t]@);
                                    assert(ids_view(pending@)[p1.len() + t] == x);
                                }
                            }
                            assert forall|q: int| 0 <= q < n && #[trigger] loaded@[q] implies cs[q].id == root@
                                || queried(calls1, cs[q].id) by {
                                if q != k {
                                    assert(loaded@[q] == l0[q]);
                                } else {
                                    assert(cs[q].id == id@);
                                }
                            }
                        }
                    }
                },
                None => {},
            }
        }
        proof {
            assert(lists_view(lists@)[0] == ids_view(lists@[0]@));
            let calls = self.calls_since(&pre);
            assert forall|x: Seq<char>| #[trigger] listed(reply_answers(calls), x) && has_commit(cs, x) && x != root@
                implies queried(calls, x) by {
                assert(listed(lists_view(lists@), x));
            }
        }
        let r = head_of_tree(&self.commits, root, &lists);
        proof {
            match &r {
                Ok(h) => {
                    if !root_is_leaf(lists_view(lists@)) {
                        let g = tree_graph(cs, root@, lists_view(lists@));
                        let q = choose|q: int| 0 <= q < g.len() && g[q].id == h@ && is_head_of(g, root@, h@)
                            && forall|k: int| 0 <= k < g.len() && is_head_of(g, root@, #[trigger] g[k].id)
                                ==> g[k].timestamp <= g[q].timestamp;
                        assert(is_head_of(g, root@, h@));
                    }
                },
                Err(_) => {},
            }
        }
        r
    }

    /// The first of `ids` that is not a recorded commit.
    fn first_unrecorded(&self, ids: &Vec<TweetId>) -> (r: Option<TweetId>)
        requires
            self.wf(),
        ensures
            match r {
                Some(id) => exists|i: int|
                    0 <= i < ids@.len() && #[trigger] ids@[i]@ == id@ && !has_commit(self.index(), id@)
                        && forall|j: int| 0 <= j < i ==> has_commit(self.index(), #[trigger] ids@[j]@),
                None => forall|j: int| 0 <= j < ids@.len() ==> has_commit(self.index(), #[trigger] ids@[j]@),
            },
    {
        let mut i: usize = 0;
        while i < ids.len()
            invariant
                self.wf(),
                i <= ids@.len(),
                forall|j: int| 0 <= j < i ==> has_commit(self.index(), #[trigger] ids@[j]@),
            decreases ids@.len() - i,
        {
            if self.commits.index_of(&ids[i]).is_none() {
                return Some(copy_string(&ids[i]));
            }
            i = i + 1;
        }
        None
    }

    /// The payload of commit `head` from the host. Where the record of
    /// `head` gives a size beyond the first segment, the segments that
    /// follow are fetched along the chain of replies that are not commits,
    /// and the payload is reassembled by [`assemble`]; it must match the
    /// record's digest.
    fn fetch_verified(&mut self, head: &TweetId) -> (r: Result<Vec<u8>>)
        requires
            old(self).wf(),
        ensures
            final(self).wf(),
            final(self).keeps(old(self)),
            final(self).segment_limit() == old(self).segment_limit(),
            final(self).log_extends(old(self)),
            final(self).calls_since(old(self)).len() >= 1,
            final(self).calls_since(old(self))[0] matches HostCall::Fetch { id, .. } && id == head@,
            answered_before_last(final(self).calls_since(old(self))),
            ({
                let calls = final(self).calls_since(old(self));
                !answered(calls.last()) ==> (r matches Err(e) && e == call_error(calls.last()))
            }),
            ({
                let calls = final(self).calls_since(old(self));
                all_answered(calls) && !has_commit(old(self).index(), head@) ==> r is Ok
            }),
            ({
                let calls = final(self).calls_since(old(self));
                let p = fetched_payloads(calls);
                all_answered(calls) ==> forall|k: int| 0 <= k < old(self).index().len()
                    && #[trigger] old(self).index()[k].id == head@ ==> {
                    let a = assembled(p[0], p.drop_first(), old(self).index()[k].size);
                    &&& (r is Ok <==> hash_verifies(a, old(self).index()[k].hash))
                    &&& (r matches Err(e) ==> (e matches XFilesError::HashMismatch { expected, actual }
                        && expected@ == old(self).index()[k].hash && actual@ == blake3_hex(a)))
                }
            }),
            r matches Ok(v) ==> {
                let p = fetched_payloads(final(self).calls_since(old(self)));
                &&& p.len() >= 1
                &&& !has_commit(old(self).index(), head@) ==> v@ == p[0]
                &&& forall|k: int| 0 <= k < old(self).index().len() && #[trigger] old(self).index()[k].id == head@
                    ==> v@ == assembled(p[0], p.drop_first(), old(self).index()[k].size)
                        && hash_verifies(v@, old(self).index()[k].hash)
            },
    {
        let ghost pre = *self;
        let ghost n0 = self.log@.len();
        let answer = self.host_fetch(head);
        let ghost fa = bytes_answer(answer);
        proof {
            let c = self.log@.skip(n0 as int);
            assert(c =~= seq![HostCall::Fetch { id: head@, answer: bytes_answer(answer) }]);
            assert(self.log@.subrange(0, n0 as int) =~= pre.log@);
            assert(c.drop_last() =~= Seq::<HostCall>::empty());
            lemma_log_step(Seq::<HostCall>::empty(), c[0]);
            assert(Seq::<HostCall>::empty().push(c[0]) =~= c);
        }
        let first = match answer {
            Ok(b) => b,
            Err(e) => {
                proof {
                    let cs = self.calls_since(&pre);
                    assert(!answered(cs[cs.len() - 1]));
                }
                return Err(e);
            },
        };
        proof {
            let c = self.log@.skip(n0 as int);
            assert(fa == Ok::<Seq<u8>, XFilesError>(first@));
            assert(c.last() == HostCall::Fetch { id: head@, answer: fa });
            assert(fetched_payloads(c.drop_last()) == Seq::<Seq<u8>>::empty());
            assert(fetched_payloads(c) == fetched_payloads(c.drop_last()).push(first@));
            assert(fetched_payloads(c) =~= seq![first@]);
        }
        match self.commits.get_commit(head) {
            Some(rec) => {
                let size = rec.size;
                let expected = copy_string(&rec.hash);
                let ghost rv = rec@;
                let mut segments: Vec<Vec<u8>> = Vec::new();
                let mut total: usize = first.len();
                let mut cur = copy_string(head);
                while total < size
                    invariant
                        *old(self) == pre,
                        self.wf(),
                        self.keeps(&pre),
                        self.segment_limit() == pre.segment_limit(),
                        n0 == pre.host_log().len(),
                        self.log_extends(&pre),
                        self.calls_since(&pre).len() >= 1,
                        self.calls_since(&pre)[0] matches HostCall::Fetch { id, .. } && id == head@,
                        fetched_payloads(self.calls_since(&pre)) == seq![first@] + bytes_view(segments@),
                        all_answered(self.calls_since(&pre)),
                        rv.id == head@,
                        size == rv.size,
                        expected@ == rv.hash,
                        self.commits@.contains(rv),
                    decreases size - total,
                {
                    let ghost before = self.log@;
                    let replies = self.host_fetch_replies(&cur);
                    proof {
                        let c = HostCall::FetchReplies { id: cur@, answer: ids_answer(replies) };
                        let o = before.skip(n0 as int);
                        assert(self.log@.skip(n0 as int) =~= o.push(c));
                        assert(o.push(c).drop_last() =~= o);
                        assert(o.push(c)[0] == o[0]);
                        assert(o.push(c).last() == c);
                        assert(fetched_payloads(o.push(c)) == fetched_payloads(o));
                        lemma_log_step(o, c);
                        assert(self.log@.subrange(0, n0 as int) =~= before.subrange(0, n0 as int));
                    }
                    let replies = match replies {
                        Ok(v) => v,
                        Err(e) => {
                            proof {
                                let cs = self.calls_since(&pre);
                                assert(!answered(cs[cs.len() - 1]));
                            }
                            return Err(e);
                        },
                    };
                    let segment_id = match self.first_unrecorded(&replies) {
                        Some(id) => id,
                        None => {
                            break;
                        },
                    };
                    let ghost before2 = self.log@;
                    let segment = self.host_fetch(&segment_id);
                    let ghost sa = bytes_answer(segment);
                    proof {
                        let c = HostCall::Fetch { id: segment_id@, answer: bytes_answer(segment) };
                        let o = before2.skip(n0 as int);
                        assert(o.push(c).last() == c);
                        lemma_log_step(o, c);
                        assert(self.log@.skip(n0 as int) =~= o.push(c));
                        assert(o.push(c).drop_last() =~= o);
                        assert(o.push(c)[0] == o[0]);
                        assert(self.log@.subrange(0, n0 as int) =~= before2.subrange(0, n0 as int));
                    }
                    let segment = match segment {
                        Ok(b) => b,
                        Err(e) => {
                            proof {
                                let cs = self.calls_since(&pre);
                                assert(!answered(cs[cs.len() - 1]));
                            }
                            return Err(e);
                        },
                    };
                    proof {
                        let c = HostCall::Fetch { id: segment_id@, answer: sa };
                        let o = before2.skip(n0 as int);
                        assert(sa == Ok::<Seq<u8>, XFilesError>(segment@));
                        assert(o.push(c).drop_last() =~= o);
                        assert(fetched_payloads(o.push(c)) == fetched_payloads(o).push(segment@));
                    }
                    let seg_len = segment.len();
                    let ghost segs0 = segments@;
                    segments.push(segment);
                    proof {
                        assert(bytes_view(segments@) =~= bytes_view(segs0).push(segments@[segs0.len() as int]@));
                        assert(seq![first@] + bytes_view(segments@) =~= (seq![first@] + bytes_view(segs0)).push(
                            segments@[segs0.len() as int]@,
                        ));
                    }
                    if seg_len == 0 || seg_len >= size - total {
                        break;
                    }
                    total = total + seg_len;
                    cur = segment_id;
                }
                let content = assemble(first.as_slice(), &segments, size);
                proof {
                    let p = fetched_payloads(self.calls_since(&pre));
                    assert(p[0] == first@);
                    assert(p.drop_first() =~= bytes_view(segments@));
                    assert forall|k: int| 0 <= k < pre.index().len() && #[trigger] pre.index()[k].id == head@
                        implies pre.index()[k] == rv by {
                        let q = choose|q: int| 0 <= q < self.commits@.len() && self.commits@[q] == rv;
                        assert(q == k);
                    }
                }
                match check_digest(compute_hash(content.as_slice()), expected) {
                    Ok(()) => {},
                    Err(e) => {
                        return Err(e);
                    },
                }
                Ok(content)
            },
            None => Ok(first),
        }
    }

    /// Opens the file at `path`. `Create` posts one empty root, records it
    /// and registers it; the other modes resolve the current head of a
    /// registered file from its reply tree.
    pub fn open(&mut self, path: &str, mode: OpenMode) -> (r: Result<XFile>)
        requires
            old(self).wf(),
        ensures
            final(self).wf(),
            final(self).user_name() == old(self).user_name(),
            final(self).segment_limit() == old(self).segment_limit(),
            final(self).log_extends(old(self)),
            old(self).registry().contains_key(path@) && mode == OpenMode::Create ==> {
                &&& r matches Err(e) && e is AlreadyExists
                &&& final(self).keeps(old(self))
                &&& final(self).host_log() == old(self).host_log()
            },
            old(self).registry().contains_key(path@) && mode != OpenMode::Create ==> {
                let calls = final(self).calls_since(old(self));
                let root = old(self).registry()[path@];
                &&& final(self).keeps(old(self))
                &&& only_reply_queries(calls)
                &&& calls.len() >= 1
                &&& calls[0] matches HostCall::FetchReplies { id, .. } && id == root
                &&& queries_follow_tree(calls, old(self).index(), root)
                &&& answered_before_last(calls)
                &&& !answered(calls.last()) ==> (r matches Err(e) && e == call_error(calls.last()))
                &&& all_answered(calls) ==> {
                    &&& tree_explored(calls, old(self).index(), root)
                    &&& (r is Ok <==> (root_is_leaf(reply_answers(calls)) || exists|h: Seq<char>|
                        #[trigger] is_head_of(tree_graph(old(self).index(), root, reply_answers(calls)), root, h)))
                    &&& (r matches Err(e) ==> is_not_found(e, root))
                }
                &&& r matches Ok(f) ==> {
                    &&& f.path@ == path@
                    &&& f.author_name() == old(self).user_name()
                    &&& tree_head(old(self).index(), root, reply_answers(calls), f.head@)
                }
            },
            !old(self).registry().contains_key(path@) && mode != OpenMode::Create ==> {
                &&& r matches Err(e) && (e matches XFilesError::FileNotFound(p) && p@ == path@)
                &&& final(self).keeps(old(self))
                &&& final(self).host_log() == old(self).host_log()
            },
            !old(self).registry().contains_key(path@) && mode == OpenMode::Create ==> {
                let calls = final(self).calls_since(old(self));
                &&& calls.len() == 1
                &&& calls[0] matches HostCall::Store { content, .. } && content == Seq::<u8>::empty()
                &&& (r is Ok <==> answered(calls[0]) && !has_commit(old(self).index(), posted_id(calls[0])))
                &&& (r matches Err(e) ==> if answered(calls[0]) {
                    is_reused_id_error(e)
                } else {
                    e == call_error(calls[0])
                })
                &&& match r {
                    Ok(f) => {
                        &&& calls[0] == HostCall::Store { content: Seq::empty(), answer: Ok(f.head@) }
                        &&& !has_commit(old(self).index(), f.head@)
                        &&& f.path@ == path@
                        &&& f.author_name() == old(self).user_name()
                        &&& final(self).registry() == old(self).registry().insert(path@, f.head@)
                        &&& final(self).cached() == old(self).cached()
                        &&& exists|c: CommitView|
                            #[trigger] is_recorded(c, f.head@, Seq::empty(), old(self).user_name(),
                                blake3_hex(Seq::empty()), "text/plain"@, 0)
                                && final(self).index() == flag_head(upsert(old(self).index(), c), f.head@)
                    },
                    Err(_) => final(self).keeps(old(self)),
                }
            },
    {
        let ghost pre = *self;
        proof {
            assert(self.log@.subrange(0, self.log@.len() as int) =~= self.log@);
        }
        match self.files.get_file_root(path) {
            Some(root) => {
                match mode {
                    OpenMode::Create => Err(XFilesError::AlreadyExists(String::from_str(path))),
                    _ => {
                        let head = match self.resolve_head(&root) {
                            Ok(h) => h,
                            Err(e) => {
                                return Err(e);
                            },
                        };
                        Ok(XFile::new(String::from_str(path), head, copy_string(&self.user)))
                    },
                }
            },
            None => {
                match mode {
                    OpenMode::Create => {
                        let empty: Vec<u8> = Vec::new();
                        let n0 = Ghost(self.log@.len());
                        let answer = self.host_store(empty.as_slice());
                        proof {
                            assert(empty@ =~= Seq::<u8>::empty());
                            assert(self.log@.skip(n0@ as int) =~= seq![
                                HostCall::Store { content: Seq::empty(), answer: id_answer(answer) },
                            ]);
                            assert(self.log@.subrange(0, n0@ as int) =~= pre.log@);
                        }
                        let root = match answer {
                            Ok(id) => id,
                            Err(e) => {
                                return Err(e);
                            },
                        };
                        if self.commits.index_of(&root).is_some() {
                            return Err(reused_id_error());
                        }
                        let commit = Commit::new(
                            copy_string(&root),
                            Vec::new(),
                            copy_string(&self.user),
                            compute_hash(empty.as_slice()),
                            String::from_str("text/plain"),
                            0,
                        );
                        let ghost c = commit@;
                        proof {
                            assert(c.parents =~= Seq::<Seq<char>>::empty());
                        }
                        self.commits.add_commit(commit);
                        self.files.register_file(path, &root);
                        self.commits.set_head(&root);
                        proof {
                            assert(is_recorded(c, root@, Seq::empty(), self.user@,
                                blake3_hex(Seq::empty()), "text/plain"@, 0));
                        }
                        Ok(XFile::new(String::from_str(path), root, copy_string(&self.user)))
                    },
                    _ => Err(XFilesError::FileNotFound(String::from_str(path))),
                }
            },
        }
    }
}

/// A handle on one file, positioned at the file's current head.
pub struct XFile {
    /// Path of the file.
    pub path: String,
    /// Current head commit.
    pub head: TweetId,
    /// Account that authors this handle's commits.
    pub author: String,
}

impl XFile {
    /// The account that authors this handle's commits.
    pub open spec fn author_name(&self) -> Seq<char> {
        self.author@
    }

    /// A handle on `path` at `head`, writing as `author`.
    pub fn new(path: String, head: TweetId, author: String) -> (r: XFile)
        ensures
            r.path@ == path@,
            r.head@ == head@,
            r.author_name() == author@,
    {
        XFile { path, head, author }
    }

    /// The current head commit.
    pub fn head(&self) -> (r: &TweetId)
        ensures
            r@ == self.head@,
    {
        &self.head
    }

    /// The path of the file.
    pub fn path(&self) -> (r: &str)
        ensures
            r@ == self.path@,
    {
        self.path.as_str()
    }
    /// The payload at the current head: from the cache when present,
    /// otherwise fetched from the host. A payload that was split into
    /// segments on writing is reassembled by following the chain of replies
    /// that are not commits, and a payload fetched for a recorded commit is
    /// checked against that commit's digest before it is cached.
    pub fn read<A: RemoteAdapter>(&self, fs: &mut XFS<A>) -> (r: Result<Vec<u8>>)
        requires
            old(fs).wf(),
        ensures
            final(fs).wf(),
            final(fs).index() == old(fs).index(),
            final(fs).registry() == old(fs).registry(),
            final(fs).user_name() == old(fs).user_name(),
            final(fs).segment_limit() == old(fs).segment_limit(),
            final(fs).log_extends(old(fs)),
            old(fs).cached().contains_key(self.head@) ==> {
                &&& r matches Ok(v) && v@ == old(fs).cached()[self.head@]
                &&& final(fs).cached() == old(fs).cached()
                &&& final(fs).host_log() == old(fs).host_log()
            },
            !old(fs).cached().contains_key(self.head@) ==> {
                let calls = final(fs).calls_since(old(fs));
                let p = fetched_payloads(calls);
                &&& calls.len() >= 1
                &&& calls[0] matches HostCall::Fetch { id, .. } && id == self.head@
                &&& answered_before_last(calls)
                &&& !answered(calls.last()) ==> (r matches Err(e) && e == call_error(calls.last()))
                &&& all_answered(calls) && !has_commit(old(fs).index(), self.head@) ==> r is Ok
                &&& all_answered(calls) ==> forall|k: int| 0 <= k < old(fs).index().len()
                    && #[trigger] old(fs).index()[k].id == self.head@ ==> {
                    let a = assembled(p[0], p.drop_first(), old(fs).index()[k].size);
                    &&& (r is Ok <==> hash_verifies(a, old(fs).index()[k].hash))
                    &&& (r matches Err(e) ==> (e matches XFilesError::HashMismatch { expected, actual }
                        && expected@ == old(fs).index()[k].hash && actual@ == blake3_hex(a)))
                }
                &&& match r {
                    Ok(v) => {
                        let p = fetched_payloads(calls);
                        &&& final(fs).cached() == old(fs).cached().insert(self.head@, v@)
                        &&& p.len() >= 1
                        &&& !has_commit(old(fs).index(), self.head@) ==> v@ == p[0]
                        &&& forall|k: int| 0 <= k < old(fs).index().len() && #[trigger] old(fs).index()[k].id == self.head@
                            ==> v@ == assembled(p[0], p.drop_first(), old(fs).index()[k].size)
                                && hash_verifies(v@, old(fs).index()[k].hash)
                    },
                    Err(_) => final(fs).cached() == old(fs).cached(),
                }
            },
    {
        proof {
            assert(fs.log@.subrange(0, fs.log@.len() as int) =~= fs.log@);
        }
        match fs.cache.get(&self.head) {
            Some(v) => {
                return Ok(v);
            },
            None => {},
        }
        let content = match fs.fetch_verified(&self.head) {
            Ok(b) => b,
            Err(e) => {
                return Err(e);
            },
        };
        fs.cache.put(copy_string(&self.head), vstd::slice::slice_to_vec(content.as_slice()));
        Ok(content)
    }

    /// Records `data` as a new commit on top of the current head. The first
    /// segment is posted as a reply to the head and every further segment as
    /// a reply to the one before; the commit takes the first segment's
    /// identifier and the digest and size of the whole of `data`, becomes the
    /// head, and `data` is cached under it. A failed post ends the write with
    /// the host's error; a first identifier that is already recorded, or is
    /// the head itself, is refused.
    pub fn write<A: RemoteAdapter>(&mut self, fs: &mut XFS<A>, data: &[u8]) -> (r: Result<()>)
        requires
            old(fs).wf(),
        ensures
            final(fs).wf(),
            final(fs).registry() == old(fs).registry(),
            final(fs).user_name() == old(fs).user_name(),
            final(fs).segment_limit() == old(fs).segment_limit(),
            final(fs).log_extends(old(fs)),
            final(self).path == old(self).path,
            final(self).author == old(self).author,
            chain_prefix(final(fs).calls_since(old(fs)), old(self).head@, segments_of(data@, old(fs).segment_limit())),
            ({
                let calls = final(fs).calls_since(old(fs));
                r is Ok <==> {
                    &&& calls.len() == segments_of(data@, old(fs).segment_limit()).len()
                    &&& answered(calls.last())
                    &&& !has_commit(old(fs).index(), posted_id(calls[0]))
                    &&& posted_id(calls[0]) != old(self).head@
                }
            }),
            ({
                let calls = final(fs).calls_since(old(fs));
                r matches Err(e) ==> if answered(calls.last()) {
                    is_reused_id_error(e)
                } else {
                    e == call_error(calls.last())
                }
            }),
            match r {
                Ok(()) => {
                    let calls = final(fs).calls_since(old(fs));
                    &&& posted_chain(calls, old(self).head@, segments_of(data@, old(fs).segment_limit()))
                    &&& final(self).head@ == posted_id(calls[0])
                    &&& final(self).head@ != old(self).head@
                    &&& !has_commit(old(fs).index(), final(self).head@)
                    &&& final(fs).cached() == old(fs).cached().insert(final(self).head@, data@)
                    &&& exists|c: CommitView|
                        #[trigger] is_recorded(c, final(self).head@, seq![old(self).head@], old(self).author@,
                            blake3_hex(data@), "text/plain"@, data@.len())
                            && final(fs).index() == flag_head(upsert(old(fs).index(), c), final(self).head@)
                },
                Err(_) => {
                    &&& final(fs).index() == old(fs).index()
                    &&& final(fs).cached() == old(fs).cached()
                    &&& final(self).head == old(self).head
                },
            },
    {
        let ghost pre = *fs;
        let ghost n0 = fs.log@.len();
        let hash = compute_hash(data);
        let chunks = match chunk_content_with(data, fs.max_segment) {
            Ok(c) => c,
            Err(e) => {
                return Err(e);
            },
        };
        let ghost segs = segments_of(data@, fs.max_segment as nat);
        proof {
            lemma_chunk_round_trip(data@, fs.max_segment as nat);
            assert(chunks@.len() >= 1);
            assert(fs.log@.skip(n0 as int) =~= Seq::<HostCall>::empty());
            assert(fs.log@.subrange(0, n0 as int) =~= pre.log@);
            assert(posted_chain(Seq::<HostCall>::empty(), self.head@, segs.subrange(0, 0)));
        }
        let mut prev = copy_string(&self.head);
        let mut first = String::new();
        let mut i: usize = 0;
        while i < chunks.len()
            invariant
                *old(fs) == pre,
                fs.wf(),
                fs.commits@ == pre.commits@,
                fs.cache@ == pre.cache@,
                fs.files@ == pre.files@,
                fs.user@ == pre.user@,
                fs.max_segment == pre.max_segment,
                n0 == pre.log@.len(),
                fs.log_extends(&pre),
                segments_view(chunks@) == segs,
                segs == segments_of(data@, pre.max_segment as nat),
                i <= chunks@.len(),
                fs.calls_since(&pre).len() == i,
                posted_chain(fs.calls_since(&pre), self.head@, segs.subrange(0, i as int)),
                i == 0 ==> prev@ == self.head@,
                i > 0 ==> prev@ == posted_id(fs.calls_since(&pre)[i - 1]),
                i > 0 ==> first@ == posted_id(fs.calls_since(&pre)[0]),
            decreases chunks@.len() - i,
        {
            let ghost o = fs.calls_since(&pre);
            let ghost before = fs.log@;
            let answer = fs.host_store_reply(&prev, chunks[i].as_slice());
            let ghost c = HostCall::StoreReply { parent: prev@, content: chunks@[i as int]@, answer: id_answer(answer) };
            proof {
                assert(fs.log@.skip(n0 as int) =~= o.push(c));
                assert(fs.log@.subrange(0, n0 as int) =~= before.subrange(0, n0 as int));
                assert(segments_view(chunks@)[i as int] == chunks@[i as int]@);
                if i > 0 {
                    assert(o.push(c)[i - 1] == o[i - 1]);
                }
                lemma_chain_step(o, self.head@, segs, c);
                assert(o.push(c).last() == c);
                assert(o.push(c)[0] == if i == 0 { c } else { o[0] });
            }
            let id = match answer {
                Ok(id) => id,
                Err(e) => {
                    return Err(e);
                },
            };
            if i == 0 {
                first = copy_string(&id);
            }
            prev = id;
            i = i + 1;
        }
        proof {
            assert(segs.subrange(0, i as int) =~= segs);
            let calls = fs.calls_since(&pre);
            lemma_full_chain(calls, self.head@, segs);
        }
        if fs.commits.index_of(&first).is_some() || first == self.head {
            return Err(reused_id_error());
        }
        let mut parents: Vec<TweetId> = Vec::new();
        parents.push(copy_string(&self.head));
        let commit = Commit::new(
            copy_string(&first),
            parents,
            copy_string(&self.author),
            hash,
            String::from_str("text/plain"),
            data.len(),
        );
        let ghost c = commit@;
        proof {
            assert(c.parents =~= seq![self.head@]);
            assert(is_recorded(c, first@, seq![self.head@], self.author@, blake3_hex(data@), "text/plain"@, data@.len()));
        }
        fs.commits.add_commit(commit);
        fs.commits.set_head(&first);
        self.head = first;
        fs.cache.put(copy_string(&self.head), vstd::slice::slice_to_vec(data));
        Ok(())
    }

    /// Marks the file deleted: posts a tombstone as a reply to the head and
    /// records it as a commit of the tombstone type, which becomes the head.
    /// A failed post ends it with the host's error; an identifier that is
    /// already recorded, or is the head itself, is refused.
    pub fn delete<A: RemoteAdapter>(&mut self, fs: &mut XFS<A>) -> (r: Result<()>)
        requires
            old(fs).wf(),
        ensures
            final(fs).wf(),
            final(fs).registry() == old(fs).registry(),
            final(fs).cached() == old(fs).cached(),
            final(fs).user_name() == old(fs).user_name(),
            final(fs).segment_limit() == old(fs).segment_limit(),
            final(fs).log_extends(old(fs)),
            final(fs).calls_since(old(fs)).len() == 1,
            is_reply_call(final(fs).calls_since(old(fs))[0], old(self).head@, tombstone_bytes()),
            ({
                let c = final(fs).calls_since(old(fs))[0];
                r is Ok <==> answered(c) && !has_commit(old(fs).index(), posted_id(c)) && posted_id(c) != old(self).head@
            }),
            ({
                let c = final(fs).calls_since(old(fs))[0];
                r matches Err(e) ==> if answered(c) {
                    is_reused_id_error(e)
                } else {
                    e == call_error(c)
                }
            }),
            final(self).path == old(self).path,
            final(self).author == old(self).author,
            match r {
                Ok(()) => {
                    let calls = final(fs).calls_since(old(fs));
                    &&& posted_chain(calls, old(self).head@, seq![tombstone_bytes()])
                    &&& final(self).head@ == posted_id(calls[0])
                    &&& final(self).head@ != old(self).head@
                    &&& !has_commit(old(fs).index(), final(self).head@)
                    &&& exists|c: CommitView|
                        #[trigger] is_recorded(c, final(self).head@, seq![old(self).head@], old(self).author@,
                            blake3_hex(tombstone_bytes()), "application/x-xfiles-tombstone"@, tombstone_bytes().len())
                            && final(fs).index() == flag_head(upsert(old(fs).index(), c), final(self).head@)
                },
                Err(_) => final(fs).index() == old(fs).index() && final(self).head == old(self).head,
            },
    {
        let ghost pre = *fs;
        let ghost n0 = fs.log@.len();
        let marker = tombstone();
        let answer = fs.host_store_reply(&self.head, marker.as_slice());
        let ghost c0 = HostCall::StoreReply { parent: self.head@, content: marker@, answer: id_answer(answer) };
        proof {
            assert(fs.log@.skip(n0 as int) =~= seq![c0]);
            assert(fs.log@.subrange(0, n0 as int) =~= pre.log@);
        }
        let id = match answer {
            Ok(id) => id,
            Err(e) => {
                return Err(e);
            },
        };
        proof {
            assert(is_reply_post(seq![c0][0], chain_parent(seq![c0], self.head@, 0), seq![tombstone_bytes()][0]));
        }
        if fs.commits.index_of(&id).is_some() || id == self.head {
            return Err(reused_id_error());
        }
        let mut parents: Vec<TweetId> = Vec::new();
        parents.push(copy_string(&self.head));
        let commit = Commit::new(
            copy_string(&id),
            parents,
            copy_string(&self.author),
            compute_hash(marker.as_slice()),
            String::from_str("application/x-xfiles-tombstone"),
            marker.len(),
        );
        let ghost c = commit@;
        proof {
            assert(c.parents =~= seq![self.head@]);
            assert(is_recorded(c, id@, seq![self.head@], self.author@, blake3_hex(tombstone_bytes()),
                "application/x-xfiles-tombstone"@, tombstone_bytes().len()));
        }
        fs.commits.add_commit(commit);
        fs.commits.set_head(&id);
        self.head = id;
        assert(fs.commits@ == flag_head(upsert(old(fs).commits@, c), self.head@));
        Ok(())
    }
}

} // verus!
