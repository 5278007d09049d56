use vstd::prelude::*;

use crate::commit::{copy_string, TweetId};
use crate::error::Result;

verus! {

/// The capabilities of a reply-threaded remote content host.
///
/// The host decides what each call returns, so callers rely on no more
/// than the shape of the results.
pub trait RemoteAdapter {
    /// The payload of post `id`.
    fn fetch(&self, id: &TweetId) -> Result<Vec<u8>>;

    /// Posts `content` as a new root and returns its identifier.
    fn store(&mut self, content: &[u8]) -> Result<TweetId>;

    /// Posts `content` as a reply to `parent_id` and returns its identifier.
    fn store_reply(&mut self, parent_id: &TweetId, content: &[u8]) -> Result<TweetId>;

    /// The identifiers of the direct replies to post `id`.
    fn fetch_replies(&self, id: &TweetId) -> Result<Vec<TweetId>>;
}

/// A post as the host describes it.
#[derive(Debug, Clone)]
pub struct Tweet {
    pub id: TweetId,
    pub author_id: String,
    pub text: String,
    pub created_at: String,
    pub in_reply_to: Option<TweetId>,
}

/// A post's reference to another post: its kind and the other post.
#[derive(Debug, Clone)]
pub struct ReferencedTweet {
    pub ref_type: String,
    pub id: TweetId,
}

/// The text of an optional identifier.
pub open spec fn opt_view(o: Option<String>) -> Option<Seq<char>> {
    match o {
        Some(s) => Some(s@),
        None => None,
    }
}

/// The kind of reference that marks the post replied to.
pub open spec fn replied_to_kind() -> Seq<char> {
    seq!['r', 'e', 'p', 'l', 'i', 'e', 'd', '_', 't', 'o']
}

/// The post replied to: the first reference of the replied-to kind.
pub open spec fn first_replied_to(refs: Seq<ReferencedTweet>) -> Option<Seq<char>>
    decreases refs.len(),
{
    if refs.len() == 0 {
        None
    } else if refs[0].ref_type@ == replied_to_kind() {
        Some(refs[0].id@)
    } else {
        first_replied_to(refs.drop_first())
    }
}

/// The post that `refs` marks as replied to, if any.
pub fn replied_to(refs: &Vec<ReferencedTweet>) -> (r: Option<TweetId>)
    ensures
        opt_view(r) == first_replied_to(refs@),
{
    let kind = String::from_str("replied_to");
    proof {
        reveal_strlit("replied_to");
        assert(kind@ =~= replied_to_kind());
    }
    let mut i: usize = 0;
    assert(refs@.skip(0) =~= refs@);
    while i < refs.len()
        invariant
            i <= refs@.len(),
            kind@ == replied_to_kind(),
            first_replied_to(refs@) == first_replied_to(refs@.skip(i as int)),
        decreases refs@.len() - i,
    {
        assert(refs@.skip(i as int).drop_first() =~= refs@.skip(i + 1));
        if refs[i].ref_type == kind {
            return Some(copy_string(&refs[i].id));
        }
        i = i + 1;
    }
    None
}

/// The text, or empty text where there is none.
pub fn text_or_empty(s: Option<String>) -> (r: String)
    ensures
        r@ == match s {
            Some(t) => t@,
            None => Seq::<char>::empty(),
        },
{
    match s {
        Some(t) => t,
        None => String::new(),
    }
}

impl Tweet {
    /// A post from the fields the host reports: a missing author or time
    /// becomes empty text, and the post replied to is taken from `refs`.
    pub fn from_parts(
        id: TweetId,
        text: String,
        author_id: Option<String>,
        created_at: Option<String>,
        refs: Option<Vec<ReferencedTweet>>,
    ) -> (r: Tweet)
        ensures
            r.id@ == id@,
            r.text@ == text@,
            r.author_id@ == (match author_id {
                Some(a) => a@,
                None => Seq::<char>::empty(),
            }),
            r.created_at@ == (match created_at {
                Some(c) => c@,
                None => Seq::<char>::empty(),
            }),
            opt_view(r.in_reply_to) == (match refs {
                Some(v) => first_replied_to(v@),
                None => None,
            }),
    {
        let in_reply_to = match &refs {
            Some(v) => replied_to(v),
            None => None,
        };
        Tweet {
            id,
            author_id: text_or_empty(author_id),
            text,
            created_at: text_or_empty(created_at),
            in_reply_to,
        }
    }
}

} // verus!
