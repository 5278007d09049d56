use vstd::prelude::*;
use vstd::slice::slice_to_vec;

use crate::commit::{copy_string, ids_view, TweetId};
use crate::error::{Result, XFilesError};
use crate::remote::{opt_view, RemoteAdapter, Tweet};

verus! {

/// The decimal digit `d`.
pub open spec fn digit_char(d: int) -> char {
    if d == 0 {
        '0'
    } else if d == 1 {
        '1'
    } else if d == 2 {
        '2'
    } else if d == 3 {
        '3'
    } else if d == 4 {
        '4'
    } else if d == 5 {
        '5'
    } else if d == 6 {
        '6'
    } else if d == 7 {
        '7'
    } else if d == 8 {
        '8'
    } else {
        '9'
    }
}

/// The decimal numeral of `n`, without leading zeros.
pub open spec fn decimal(n: nat) -> Seq<char>
    decreases n,
{
    if n < 10 {
        seq![digit_char(n as int)]
    } else {
        decimal(n / 10).push(digit_char((n % 10) as int))
    }
}

proof fn lemma_decimal_len(n: nat)
    ensures
        decimal(n).len() >= 1,
        n < 10 <==> decimal(n).len() == 1,
    decreases n,
{
    if n >= 10 {
        lemma_decimal_len(n / 10);
    }
}

proof fn lemma_digit_injective(x: int, y: int)
    requires
        0 <= x < 10,
        0 <= y < 10,
        digit_char(x) == digit_char(y),
    ensures
        x == y,
{
}

proof fn lemma_decimal_injective(a: nat, b: nat)
    requires
        decimal(a) == decimal(b),
    ensures
        a == b,
    decreases a,
{
    lemma_decimal_len(a);
    lemma_decimal_len(b);
    if a >= 10 {
        assert(b >= 10);
        let da = decimal(a);
        assert(da.drop_last() =~= decimal(a / 10));
        assert(decimal(b).drop_last() =~= decimal(b / 10));
        assert(da.last() == digit_char((a % 10) as int));
        assert(decimal(b).last() == digit_char((b % 10) as int));
        lemma_decimal_injective(a / 10, b / 10);
        lemma_digit_injective((a % 10) as int, (b % 10) as int);
        assert(a == 10 * (a / 10) + a % 10);
        assert(b == 10 * (b / 10) + b % 10);
    } else {
        assert(b < 10);
        assert(decimal(a) == seq![digit_char(a as int)]);
        assert(decimal(b) == seq![digit_char(b as int)]);
        assert(decimal(a)[0] == digit_char(a as int));
        assert(decimal(b)[0] == digit_char(b as int));
        lemma_digit_injective(a as int, b as int);
    }
}

/// No two posts share an identifier.
pub open spec fn distinct_posts(posts: Seq<MockPost>) -> bool {
    forall|i: int, j: int| 0 <= i < posts.len() && 0 <= j < posts.len() && i != j ==> posts[i].id != posts[j].id
}

/// Some post among `posts` with identifier `id` replies to `parent`.
pub open spec fn is_reply_to(posts: Seq<MockPost>, parent: Seq<char>, id: Seq<char>) -> bool {
    exists|i: int| 0 <= i < posts.len() && posts[i].parent == Some(parent) && posts[i].id == id
}

/// The identifier the mock host gives its `n`-th post.
pub open spec fn mock_id(n: nat) -> Seq<char> {
    seq!['m', 'o', 'c', 'k', '_', 't', 'w', 'e', 'e', 't', '_'] + decimal(n)
}

proof fn lemma_mock_id_injective(a: nat, b: nat)
    requires
        mock_id(a) == mock_id(b),
    ensures
        a == b,
{
    let pre = seq!['m', 'o', 'c', 'k', '_', 't', 'w', 'e', 'e', 't', '_'];
    assert(decimal(a) =~= mock_id(a).skip(pre.len() as int));
    assert(decimal(b) =~= mock_id(b).skip(pre.len() as int));
    lemma_decimal_injective(a, b);
}

/// The numeral of the decimal digit `d`.
fn digit_text(d: u64) -> (r: String)
    requires
        d < 10,
    ensures
        r@ == seq![digit_char(d as int)],
{
    let r = if d == 0 {
        proof {
            reveal_strlit("0");
        }
        String::from_str("0")
    } else if d == 1 {
        proof {
            reveal_strlit("1");
        }
        String::from_str("1")
    } else if d == 2 {
        proof {
            reveal_strlit("2");
        }
        String::from_str("2")
    } else if d == 3 {
        proof {
            reveal_strlit("3");
        }
        String::from_str("3")
    } else if d == 4 {
        proof {
            reveal_strlit("4");
        }
        String::from_str("4")
    } else if d == 5 {
        proof {
            reveal_strlit("5");
        }
        String::from_str("5")
    } else if d == 6 {
        proof {
            reveal_strlit("6");
        }
        String::from_str("6")
    } else if d == 7 {
        proof {
            reveal_strlit("7");
        }
        String::from_str("7")
    } else if d == 8 {
        proof {
            reveal_strlit("8");
        }
        String::from_str("8")
    } else {
        proof {
            reveal_strlit("9");
        }
        String::from_str("9")
    };
    assert(r@ =~= seq![digit_char(d as int)]);
    r
}

/// The decimal numeral of `n`, without sign or leading zeros.
fn decimal_text(n: u64) -> (r: String)
    ensures
        r@ == decimal(n as nat),
    decreases n,
{
    if n < 10 {
        digit_text(n)
    } else {
        let mut s = decimal_text(n / 10);
        let d = digit_text(n % 10);
        s.append(d.as_str());
        assert(s@ =~= decimal((n / 10) as nat).push(digit_char((n % 10) as int)));
        s
    }
}

/// The text decoded from `b` as UTF-8, invalid sequences replaced.
pub uninterp spec fn utf8_lossy(b: Seq<u8>) -> Seq<char>;

/// Relies on `String::from_utf8_lossy`: the text decoded from the bytes,
/// which depends on the bytes alone.
#[verifier::external_body]
fn lossy_text(b: &[u8]) -> (r: String)
    ensures
        r@ == utf8_lossy(b@),
{
    String::from_utf8_lossy(b).to_string()
}

/// A post held by the mock host.
#[derive(Debug, Clone)]
struct MockTweet {
    id: TweetId,
    content: Vec<u8>,
    parent_id: Option<TweetId>,
}

impl View for MockTweet {
    type V = MockPost;

    closed spec fn view(&self) -> MockPost {
        MockPost { id: self.id@, content: self.content@, parent: opt_view(self.parent_id) }
    }
}

/// Model of a post held by the mock host.
pub struct MockPost {
    pub id: Seq<char>,
    pub content: Seq<u8>,
    pub parent: Option<Seq<char>>,
}

/// An in-memory host with incrementing identifiers, for running without a
/// network.
pub struct MockAdapter {
    tweets: Vec<MockTweet>,
    next_id: u64,
}

impl MockAdapter {
    /// The posts, oldest first.
    pub closed spec fn posts(&self) -> Seq<MockPost> {
        self.tweets@.map_values(|t: MockTweet| t@)
    }

    /// The number given to the next post.
    pub closed spec fn next(&self) -> nat {
        self.next_id as nat
    }

    /// Every post carries an identifier numbered below the counter, and no
    /// two posts share one.
    #[verifier::type_invariant]
    closed spec fn inv(&self) -> bool {
        &&& forall|i: int| 0 <= i < self.tweets@.len() ==> exists|n: nat|
            n < self.next_id && mock_id(n) == (#[trigger] self.tweets@[i]).id@
        &&& forall|i: int, j: int| 0 <= i < self.tweets@.len() && 0 <= j < self.tweets@.len() && i != j
            ==> self.tweets@[i].id@ != self.tweets@[j].id@
    }

    proof fn lemma_distinct(&self)
        requires
            self.inv(),
        ensures
            distinct_posts(self.posts()),
    {
        assert forall|i: int, j: int| 0 <= i < self.posts().len() && 0 <= j < self.posts().len() && i != j
            implies self.posts()[i].id != self.posts()[j].id by {
            assert(self.posts()[i].id == self.tweets@[i].id@);
            assert(self.posts()[j].id == self.tweets@[j].id@);
        }
    }

    /// A host with no posts, whose first identifier ends in 1.
    pub fn new() -> (r: MockAdapter)
        ensures
            distinct_posts(r.posts()),
            r.posts() == Seq::<MockPost>::empty(),
            r.next() == 1,
    {
        let r = MockAdapter { tweets: Vec::new(), next_id: 1 };
        assert(r.posts() =~= Seq::<MockPost>::empty());
        r
    }

    /// The identifier of post number `n`.
    fn generate_id(n: u64) -> (r: TweetId)
        ensures
            r@ == mock_id(n as nat),
    {
        let mut id = String::from_str("mock_tweet_");
        let digits = decimal_text(n);
        id.append(digits.as_str());
        proof {
            reveal_strlit("mock_tweet_");
            assert(id@ =~= mock_id(n as nat));
        }
        id
    }

    fn position(&self, id: &TweetId) -> (r: Option<usize>)
        ensures
            match r {
                Some(i) => i < self.posts().len() && self.posts()[i as int].id == id@,
                None => forall|i: int| 0 <= i < self.posts().len() ==> #[trigger] self.posts()[i].id != id@,
            },
    {
        let mut i: usize = 0;
        while i < self.tweets.len()
            invariant
                i <= self.tweets@.len(),
                forall|j: int| 0 <= j < i ==> #[trigger] self.posts()[j].id != id@,
            decreases self.tweets@.len() - i,
        {
            if self.tweets[i].id == *id {
                return Some(i);
            }
            i = i + 1;
        }
        None
    }

    /// The post with identifier `id`, as the host would describe it.
    pub fn get_tweet(&self, id: &TweetId) -> (r: Option<Tweet>)
        ensures
            distinct_posts(self.posts()),
            match r {
                Some(t) => exists|i: int|
                    0 <= i < self.posts().len() && #[trigger] self.posts()[i].id == id@ && t.id@ == id@
                        && t.text@ == utf8_lossy(self.posts()[i].content)
                        && opt_view(t.in_reply_to) == self.posts()[i].parent
                        && t.author_id@ == "mock_user"@
                        && t.created_at@ == "2024-01-01T00:00:00Z"@,
                None => forall|i: int| 0 <= i < self.posts().len() ==> #[trigger] self.posts()[i].id != id@,
            },
    {
        proof {
            use_type_invariant(self);
            self.lemma_distinct();
        }
        match self.position(id) {
            Some(i) => {
                let t = &self.tweets[i];
                let parent = match &t.parent_id {
                    Some(p) => Some(copy_string(p)),
                    None => None,
                };
                let r = Tweet {
                    id: copy_string(&t.id),
                    author_id: String::from_str("mock_user"),
                    text: lossy_text(t.content.as_slice()),
                    created_at: String::from_str("2024-01-01T00:00:00Z"),
                    in_reply_to: parent,
                };
                assert(self.posts()[i as int].id == id@);
                Some(r)
            },
            None => None,
        }
    }

    /// The identifiers of the direct replies to `id`, oldest first.
    pub fn get_replies(&self, id: &TweetId) -> (r: Vec<TweetId>)
        ensures
            distinct_posts(self.posts()),
            ids_view(r@).no_duplicates(),
            forall|j: int| 0 <= j < r@.len() ==> is_reply_to(self.posts(), id@, #[trigger] r@[j]@),
            forall|i: int| 0 <= i < self.posts().len() && (#[trigger] self.posts()[i]).parent == Some(id@)
                ==> ids_view(r@).contains(self.posts()[i].id),
    {
        proof {
            use_type_invariant(self);
            self.lemma_distinct();
        }
        let mut r: Vec<TweetId> = Vec::new();
        let ghost mut src: Seq<int> = Seq::empty();
        let mut i: usize = 0;
        while i < self.tweets.len()
            invariant
                i <= self.tweets@.len(),
                src.len() == r@.len(),
                forall|j: int| 0 <= j < src.len() ==> 0 <= #[trigger] src[j] < i,
                forall|j: int, l: int| 0 <= j < l < src.len() ==> src[j] < src[l],
                forall|j: int| 0 <= j < src.len() ==> r@[j]@ == self.posts()[#[trigger] src[j]].id
                    && self.posts()[src[j]].parent == Some(id@),
                forall|q: int| 0 <= q < i && (#[trigger] self.posts()[q]).parent == Some(id@)
                    ==> ids_view(r@).contains(self.posts()[q].id),
            decreases self.tweets@.len() - i,
        {
            let is_reply = match &self.tweets[i].parent_id {
                Some(p) => *p == *id,
                None => false,
            };
            if is_reply {
                let ghost before = r@;
                r.push(copy_string(&self.tweets[i].id));
                proof {
                    src = src.push(i as int);
                    assert(ids_view(r@)[before.len() as int] == self.posts()[i as int].id);
                    assert forall|q: int| 0 <= q <= i && (#[trigger] self.posts()[q]).parent == Some(id@)
                        implies ids_view(r@).contains(self.posts()[q].id) by {
                        if q < i {
                            let j = choose|j: int| 0 <= j < before.len() && #[trigger] ids_view(before)[j] == self.posts()[q].id;
                            assert(ids_view(r@)[j] == ids_view(before)[j]);
                        }
                    }
                }
            }
            i = i + 1;
        }
        proof {
            assert forall|j: int| 0 <= j < r@.len() implies is_reply_to(self.posts(), id@, #[trigger] r@[j]@) by {
                assert(r@[j]@ == self.posts()[src[j]].id);
            }
            assert forall|a: int, b: int| 0 <= a < ids_view(r@).len() && 0 <= b < ids_view(r@).len() && a != b
                implies ids_view(r@)[a] != ids_view(r@)[b] by {
                assert(ids_view(r@)[a] == self.posts()[src[a]].id);
                assert(ids_view(r@)[b] == self.posts()[src[b]].id);
                assert(self.posts()[src[a]].id == self.tweets@[src[a]].id@);
                assert(self.posts()[src[b]].id == self.tweets@[src[b]].id@);
                if a < b {
                    assert(src[a] < src[b]);
                } else {
                    assert(src[b] < src[a]);
                }
            }
        }
        r
    }

    /// Adds a post under the next number, replying to `parent_id` if given.
    fn post(&mut self, parent_id: Option<TweetId>, content: &[u8]) -> (r: Result<TweetId>)
        ensures
            distinct_posts(final(self).posts()),
            match r {
                Ok(id) => {
                    &&& id@ == mock_id(old(self).next())
                    &&& final(self).next() == old(self).next() + 1
                    &&& final(self).posts() == old(self).posts().push(
                        MockPost { id: id@, content: content@, parent: opt_view(parent_id) },
                    )
                },
                Err(_) => {
                    &&& final(self).posts() == old(self).posts()
                    &&& final(self).next() == old(self).next()
                    &&& old(self).next() == u64::MAX
                },
            },
    {
        proof {
            use_type_invariant(&*self);
        }
        if self.next_id == u64::MAX {
            proof {
                self.lemma_distinct();
            }
            return Err(XFilesError::Other(String::from_str("identifier space exhausted")));
        }
        let ghost pre = self.posts();
        let n = self.next_id;
        let id = MockAdapter::generate_id(n);
        self.next_id = n + 1;
        let tweet = MockTweet {
            id: copy_string(&id),
            content: slice_to_vec(content),
            parent_id,
        };
        proof {
            assert forall|i: int| 0 <= i < self.tweets@.len() implies self.tweets@[i].id@ != id@ by {
                let m = choose|m: nat| m < n && mock_id(m) == (#[trigger] self.tweets@[i]).id@;
                if self.tweets@[i].id@ == id@ {
                    lemma_mock_id_injective(m, n as nat);
                }
            }
        }
        let ghost old_tweets = self.tweets@;
        let mut taken = MockAdapter { tweets: Vec::new(), next_id: n + 1 };
        core::mem::swap(self, &mut taken);
        let mut tweets = taken.tweets;
        tweets.push(tweet);
        proof {
            assert(tweets@ == old_tweets.push(tweet));
            assert forall|i: int, j: int| 0 <= i < tweets@.len() && 0 <= j < tweets@.len() && i != j
                implies tweets@[i].id@ != tweets@[j].id@ by {
                if i < old_tweets.len() {
                    assert(tweets@[i] == old_tweets[i]);
                }
                if j < old_tweets.len() {
                    assert(tweets@[j] == old_tweets[j]);
                }
            }
            assert forall|i: int| 0 <= i < tweets@.len() implies exists|m: nat|
                m < n + 1 && mock_id(m) == (#[trigger] tweets@[i]).id@ by {
                if i < old_tweets.len() {
                    assert(tweets@[i] == old_tweets[i]);
                    let m = choose|m: nat| m < n && mock_id(m) == (#[trigger] old_tweets[i]).id@;
                    assert(mock_id(m) == tweets@[i].id@);
                } else {
                    assert(mock_id(n as nat) == tweets@[i].id@);
                }
            }
        }
        *self = MockAdapter { tweets, next_id: n + 1 };
        proof {
            assert(self.posts() =~= pre.push(
                MockPost { id: id@, content: content@, parent: opt_view(parent_id) },
            ));
        }
        proof {
            use_type_invariant(&*self);
            self.lemma_distinct();
        }
        Ok(id)
    }
}

impl RemoteAdapter for MockAdapter {
    fn fetch(&self, id: &TweetId) -> (r: Result<Vec<u8>>)
        ensures
            distinct_posts(self.posts()),
            match r {
                Ok(v) => exists|i: int|
                    0 <= i < self.posts().len() && #[trigger] self.posts()[i].id == id@ && v@ == self.posts()[i].content,
                Err(e) => e is TwitterApi && forall|i: int| 0 <= i < self.posts().len() ==> #[trigger] self.posts()[i].id != id@,
            },
    {
        proof {
            use_type_invariant(self);
            self.lemma_distinct();
        }
        match self.position(id) {
            Some(i) => Ok(slice_to_vec(self.tweets[i].content.as_slice())),
            None => {
                let msg = String::from_str("Tweet not found: ").concat(id.as_str());
                Err(XFilesError::TwitterApi(msg))
            },
        }
    }

    fn store(&mut self, content: &[u8]) -> (r: Result<TweetId>)
        ensures
            distinct_posts(final(self).posts()),
            match r {
                Ok(id) => {
                    &&& id@ == mock_id(old(self).next())
                    &&& final(self).next() == old(self).next() + 1
                    &&& final(self).posts() == old(self).posts().push(
                        MockPost { id: id@, content: content@, parent: None },
                    )
                },
                Err(_) => final(self).posts() == old(self).posts() && old(self).next() == u64::MAX,
            },
    {
        self.post(None, content)
    }

    fn store_reply(&mut self, parent_id: &TweetId, content: &[u8]) -> (r: Result<TweetId>)
        ensures
            distinct_posts(final(self).posts()),
            match r {
                Ok(id) => {
                    &&& id@ == mock_id(old(self).next())
                    &&& final(self).next() == old(self).next() + 1
                    &&& final(self).posts() == old(self).posts().push(
                        MockPost { id: id@, content: content@, parent: Some(parent_id@) },
                    )
                },
                Err(_) => final(self).posts() == old(self).posts() && old(self).next() == u64::MAX,
            },
    {
        self.post(Some(copy_string(parent_id)), content)
    }

    fn fetch_replies(&self, id: &TweetId) -> (r: Result<Vec<TweetId>>)
        ensures
            distinct_posts(self.posts()),
            r matches Ok(v) && ids_view(v@).no_duplicates()
                && (forall|j: int| 0 <= j < v@.len() ==> is_reply_to(self.posts(), id@, #[trigger] v@[j]@))
                && (forall|i: int| 0 <= i < self.posts().len() && (#[trigger] self.posts()[i]).parent == Some(id@)
                    ==> ids_view(v@).contains(self.posts()[i].id)),
    {
        proof {
            use_type_invariant(self);
            self.lemma_distinct();
        }
        Ok(self.get_replies(id))
    }
}

} // verus!
