use vstd::prelude::*;

verus! {

/// Identifier of a post on the remote host.
pub type TweetId = String;

/// Content digest, as lower-case hexadecimal text.
pub type Hash = String;

/// One versioned change to a file.
#[derive(Debug, Clone)]
pub struct Commit {
    /// Post identifier of this commit.
    pub id: TweetId,
    /// Parent commit identifiers, in order; empty for a root.
    pub parents: Vec<TweetId>,
    /// Creation time, in milliseconds since the Unix epoch.
    pub timestamp: i64,
    /// Digest of the commit's logical payload.
    pub hash: Hash,
    /// Author account.
    pub author: String,
    /// MIME type of the payload.
    pub mime: String,
    /// Byte length of the payload.
    pub size: usize,
    /// Informational head flag.
    pub is_head: bool,
}

/// Mathematical model of a [`Commit`].
pub struct CommitView {
    pub id: Seq<char>,
    pub parents: Seq<Seq<char>>,
    pub timestamp: int,
    pub hash: Seq<char>,
    pub author: Seq<char>,
    pub mime: Seq<char>,
    pub size: nat,
    pub is_head: bool,
}

/// The text of each identifier in `ids`.
pub open spec fn ids_view(ids: Seq<String>) -> Seq<Seq<char>> {
    ids.map_values(|s: String| s@)
}

/// The model of each commit in `cs`.
pub open spec fn commits_view(cs: Seq<Commit>) -> Seq<CommitView> {
    cs.map_values(|c: Commit| c@)
}

impl View for Commit {
    type V = CommitView;

    open spec fn view(&self) -> CommitView {
        CommitView {
            id: self.id@,
            parents: ids_view(self.parents@),
            timestamp: self.timestamp as int,
            hash: self.hash@,
            author: self.author@,
            mime: self.mime@,
            size: self.size as nat,
            is_head: self.is_head,
        }
    }
}

/// Relies on chrono's `Utc::now` and `DateTime::timestamp_millis`: the
/// current time, which nothing here can predict.
#[verifier::external_body]
fn current_millis() -> i64 {
    chrono::Utc::now().timestamp_millis()
}

/// A deep copy of `s`, with equal text.
pub fn copy_string(s: &String) -> (r: String)
    ensures
        r@ == s@,
{
    s.clone()
}

/// A deep copy of a list of identifiers.
pub fn copy_ids(ids: &Vec<TweetId>) -> (r: Vec<TweetId>)
    ensures
        ids_view(r@) == ids_view(ids@),
{
    let mut r: Vec<TweetId> = Vec::new();
    let mut i: usize = 0;
    while i < ids.len()
        invariant
            i <= ids@.len(),
            r@.len() == i,
            forall|j: int| 0 <= j < i ==> r@[j]@ == ids@[j]@,
        decreases ids@.len() - i,
    {
        r.push(ids[i].clone());
        i = i + 1;
    }
    assert(ids_view(r@) =~= ids_view(ids@));
    r
}

impl Commit {
    /// A commit stamped with the current time, not flagged as head.
    pub fn new(
        id: TweetId,
        parents: Vec<TweetId>,
        author: String,
        hash: Hash,
        mime: String,
        size: usize,
    ) -> (r: Commit)
        ensures
            r.id@ == id@,
            ids_view(r.parents@) == ids_view(parents@),
            r.author@ == author@,
            r.hash@ == hash@,
            r.mime@ == mime@,
            r.size == size,
            !r.is_head,
    {
        Commit {
            id,
            parents,
            timestamp: current_millis(),
            hash,
            author,
            mime,
            size,
            is_head: false,
        }
    }

    /// A copy of this commit with the same model.
    pub fn copy(&self) -> (r: Commit)
        ensures
            r@ == self@,
    {
        Commit {
            id: self.id.clone(),
            parents: copy_ids(&self.parents),
            timestamp: self.timestamp,
            hash: self.hash.clone(),
            author: self.author.clone(),
            mime: self.mime.clone(),
            size: self.size,
            is_head: self.is_head,
        }
    }
}

/// How one logical write maps onto the segments that were posted.
#[derive(Debug, Clone)]
pub struct ContentRef {
    /// Post identifiers of the segments, in order.
    pub chunks: Vec<TweetId>,
    /// Digest of the complete content.
    pub hash: Hash,
    /// Total size in bytes.
    pub size: usize,
}

} // verus!
