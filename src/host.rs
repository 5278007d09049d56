use vstd::prelude::*;
use vstd::slice::slice_to_vec;

use crate::commit::{commits_view, copy_string, ids_view, CommitView, TweetId};
use crate::error::{Result, XFilesError};
use crate::graph::{has_commit, is_head_of, is_not_found, unique_ids, upsert, CommitGraph};

verus! {

/// One call the file store made to the remote host, with the host's answer
/// (the host's error when the call failed).
pub enum HostCall {
    Fetch { id: Seq<char>, answer: core::result::Result<Seq<u8>, XFilesError> },
    Store { content: Seq<u8>, answer: core::result::Result<Seq<char>, XFilesError> },
    StoreReply { parent: Seq<char>, content: Seq<u8>, answer: core::result::Result<Seq<char>, XFilesError> },
    FetchReplies { id: Seq<char>, answer: core::result::Result<Seq<Seq<char>>, XFilesError> },
}

/// The host's answer to a fetch.
pub open spec fn bytes_answer(r: Result<Vec<u8>>) -> core::result::Result<Seq<u8>, XFilesError> {
    match r {
        Ok(v) => Ok(v@),
        Err(e) => Err(e),
    }
}

/// The host's answer to a reply query.
pub open spec fn ids_answer(r: Result<Vec<TweetId>>) -> core::result::Result<Seq<Seq<char>>, XFilesError> {
    match r {
        Ok(v) => Ok(ids_view(v@)),
        Err(e) => Err(e),
    }
}

/// The host's answer to a post.
pub open spec fn id_answer(r: Result<TweetId>) -> core::result::Result<Seq<char>, XFilesError> {
    match r {
        Ok(v) => Ok(v@),
        Err(e) => Err(e),
    }
}

/// The identifier a successful post was given.
pub open spec fn posted_id(c: HostCall) -> Seq<char> {
    match c {
        HostCall::Store { answer: Ok(a), .. } => a,
        HostCall::StoreReply { answer: Ok(a), .. } => a,
        _ => Seq::empty(),
    }
}

/// The host answered call `c` without an error.
pub open spec fn answered(c: HostCall) -> bool {
    match c {
        HostCall::Fetch { answer, .. } => answer is Ok,
        HostCall::Store { answer, .. } => answer is Ok,
        HostCall::StoreReply { answer, .. } => answer is Ok,
        HostCall::FetchReplies { answer, .. } => answer is Ok,
    }
}

/// The error the host gave for call `c`.
pub open spec fn call_error(c: HostCall) -> XFilesError {
    match c {
        HostCall::Fetch { answer: Err(e), .. } => e,
        HostCall::Store { answer: Err(e), .. } => e,
        HostCall::StoreReply { answer: Err(e), .. } => e,
        HostCall::FetchReplies { answer: Err(e), .. } => e,
        _ => arbitrary(),
    }
}

/// Every call of `calls` but the last was answered without an error.
pub open spec fn answered_before_last(calls: Seq<HostCall>) -> bool {
    forall|i: int| 0 <= i < calls.len() - 1 ==> #[trigger] answered(calls[i])
}

/// Every call of `calls` was answered without an error.
pub open spec fn all_answered(calls: Seq<HostCall>) -> bool {
    forall|i: int| 0 <= i < calls.len() ==> #[trigger] answered(calls[i])
}

/// `c` posts `content` as a reply to `parent`, whatever the answer.
pub open spec fn is_reply_call(c: HostCall, parent: Seq<char>, content: Seq<u8>) -> bool {
    c matches HostCall::StoreReply { parent: p, content: b, .. } && p == parent && b == content
}

/// `calls` are the first posts of the chain that posts `segs` from
/// `start`: each but the last was answered, and at least one was made.
pub open spec fn chain_prefix(calls: Seq<HostCall>, start: Seq<char>, segs: Seq<Seq<u8>>) -> bool {
    &&& 1 <= calls.len() <= segs.len()
    &&& forall|i: int| 0 <= i < calls.len() ==> #[trigger] is_reply_call(calls[i], chain_parent(calls, start, i), segs[i])
    &&& answered_before_last(calls)
}

/// The error returned when the host gives a new post the identifier of a
/// recorded commit.
pub open spec fn is_reused_id_error(e: XFilesError) -> bool {
    e matches XFilesError::Other(s) && s@ == "the host returned a recorded identifier"@
}

/// Adding one more post `c` to a chain whose posts so far all succeeded:
/// the calls stay a prefix of the chain, and a complete one if `c` succeeded.
pub proof fn lemma_chain_step(calls: Seq<HostCall>, start: Seq<char>, segs: Seq<Seq<u8>>, c: HostCall)
    requires
        calls.len() < segs.len(),
        posted_chain(calls, start, segs.subrange(0, calls.len() as int)),
        is_reply_call(c, chain_parent(calls.push(c), start, calls.len() as int), segs[calls.len() as int]),
    ensures
        chain_prefix(calls.push(c), start, segs),
        answered(c) ==> posted_chain(calls.push(c), start, segs.subrange(0, calls.len() + 1 as int)),
{
    let c2 = calls.push(c);
    let n = calls.len() as int;
    assert forall|i: int| 0 <= i < c2.len() implies #[trigger] is_reply_call(c2[i], chain_parent(c2, start, i), segs[i]) by {
        if i < n {
            assert(c2[i] == calls[i]);
            assert(is_reply_post(calls[i], chain_parent(calls, start, i), segs.subrange(0, n)[i]));
            if i > 0 {
                assert(c2[i - 1] == calls[i - 1]);
            }
        }
    }
    assert forall|i: int| 0 <= i < c2.len() - 1 implies #[trigger] answered(c2[i]) by {
        assert(c2[i] == calls[i]);
        assert(is_reply_post(calls[i], chain_parent(calls, start, i), segs.subrange(0, n)[i]));
    }
    if answered(c) {
        assert forall|i: int| 0 <= i < c2.len() implies #[trigger] is_reply_post(
            c2[i],
            chain_parent(c2, start, i),
            segs.subrange(0, n + 1)[i],
        ) by {
            if i < n {
                assert(c2[i] == calls[i]);
                assert(is_reply_post(calls[i], chain_parent(calls, start, i), segs.subrange(0, n)[i]));
                if i > 0 {
                    assert(c2[i - 1] == calls[i - 1]);
                }
            } else {
                assert(c2[i] == c);
            }
        }
    }
}

/// One more call after calls that were all answered.
pub proof fn lemma_log_step(o: Seq<HostCall>, c: HostCall)
    requires
        all_answered(o),
    ensures
        answered_before_last(o.push(c)),
        o.push(c).last() == c,
        answered(c) ==> all_answered(o.push(c)),
{
    assert forall|i: int| 0 <= i < o.push(c).len() - 1 implies #[trigger] answered(o.push(c)[i]) by {
        assert(o.push(c)[i] == o[i]);
    }
    if answered(c) {
        assert forall|i: int| 0 <= i < o.push(c).len() implies #[trigger] answered(o.push(c)[i]) by {
            if i < o.len() {
                assert(o.push(c)[i] == o[i]);
            }
        }
    }
}

/// A complete chain of successful posts is also a prefix of itself.
pub proof fn lemma_full_chain(calls: Seq<HostCall>, start: Seq<char>, segs: Seq<Seq<u8>>)
    requires
        posted_chain(calls, start, segs),
        calls.len() >= 1,
    ensures
        chain_prefix(calls, start, segs),
        answered(calls.last()),
{
    assert forall|i: int| 0 <= i < calls.len() implies #[trigger] is_reply_call(calls[i], chain_parent(calls, start, i), segs[i]) by {
        assert(is_reply_post(calls[i], chain_parent(calls, start, i), segs[i]));
    }
    assert forall|i: int| 0 <= i < calls.len() implies #[trigger] answered(calls[i]) by {
        assert(is_reply_post(calls[i], chain_parent(calls, start, i), segs[i]));
    }
    assert(answered(calls[calls.len() - 1]));
}

/// `c` is a successful post of `content` as a reply to `parent`.
pub open spec fn is_reply_post(c: HostCall, parent: Seq<char>, content: Seq<u8>) -> bool {
    c matches HostCall::StoreReply { parent: p, content: b, answer: Ok(_) } && p == parent && b == content
}

/// `calls` post `segs` in order: the first as a reply to `start`, each
/// further one as a reply to the post before it.
pub open spec fn posted_chain(calls: Seq<HostCall>, start: Seq<char>, segs: Seq<Seq<u8>>) -> bool {
    &&& calls.len() == segs.len()
    &&& forall|i: int| 0 <= i < calls.len() ==> #[trigger] is_reply_post(calls[i], chain_parent(calls, start, i), segs[i])
}

/// The parent of the `i`-th post of a chain that starts at `start`.
pub open spec fn chain_parent(calls: Seq<HostCall>, start: Seq<char>, i: int) -> Seq<char> {
    if i == 0 {
        start
    } else {
        posted_id(calls[i - 1])
    }
}

/// Every call of `calls` asks for the replies of a post.
pub open spec fn only_reply_queries(calls: Seq<HostCall>) -> bool {
    forall|i: int| 0 <= i < calls.len() ==> #[trigger] calls[i] is FetchReplies
}

/// The reply lists that the successful reply queries of `calls` returned, in order.
pub open spec fn reply_answers(calls: Seq<HostCall>) -> Seq<Seq<Seq<char>>>
    decreases calls.len(),
{
    if calls.len() == 0 {
        Seq::empty()
    } else {
        match calls.last() {
            HostCall::FetchReplies { answer: Ok(a), .. } => reply_answers(calls.drop_last()).push(a),
            _ => reply_answers(calls.drop_last()),
        }
    }
}

/// The payloads that the successful fetches of `calls` returned, in order.
pub open spec fn fetched_payloads(calls: Seq<HostCall>) -> Seq<Seq<u8>>
    decreases calls.len(),
{
    if calls.len() == 0 {
        Seq::empty()
    } else {
        match calls.last() {
            HostCall::Fetch { answer: Ok(a), .. } => fetched_payloads(calls.drop_last()).push(a),
            _ => fetched_payloads(calls.drop_last()),
        }
    }
}

/// Reassembling a payload of `size` bytes from its first segment and the
/// segments fetched after it: each segment is appended until the payload
/// reaches `size` or an empty segment comes. The flag tells whether the
/// walk has stopped.
pub open spec fn walk(first: Seq<u8>, segs: Seq<Seq<u8>>, size: nat) -> (Seq<u8>, bool)
    decreases segs.len(),
{
    if segs.len() == 0 {
        (first, first.len() >= size)
    } else {
        let (a, stopped) = walk(first, segs.drop_last(), size);
        if stopped || segs.last().len() == 0 {
            (a, true)
        } else {
            let b = a + segs.last();
            (b, b.len() >= size)
        }
    }
}

/// The payload reassembled from `first` and `segs`.
pub open spec fn assembled(first: Seq<u8>, segs: Seq<Seq<u8>>, size: nat) -> Seq<u8> {
    walk(first, segs, size).0
}

/// The bytes of each segment.
pub open spec fn bytes_view(v: Seq<Vec<u8>>) -> Seq<Seq<u8>> {
    v.map_values(|s: Vec<u8>| s@)
}

/// Reassembles a payload of `size` bytes from its first segment and the
/// segments fetched after it.
pub fn assemble(first: &[u8], segments: &Vec<Vec<u8>>, size: usize) -> (r: Vec<u8>)
    ensures
        r@ == assembled(first@, bytes_view(segments@), size as nat),
{
    let mut content = slice_to_vec(first);
    let mut stopped = content.len() >= size;
    let mut i: usize = 0;
    while i < segments.len()
        invariant
            i <= segments@.len(),
            (content@, stopped) == walk(first@, bytes_view(segments@.subrange(0, i as int)), size as nat),
        decreases segments@.len() - i,
    {
        proof {
            let s = bytes_view(segments@.subrange(0, i + 1));
            assert(s.drop_last() =~= bytes_view(segments@.subrange(0, i as int)));
            assert(s.last() == segments@[i as int]@);
        }
        if !stopped && segments[i].len() > 0 {
            let mut j: usize = 0;
            let ghost before = content@;
            while j < segments[i].len()
                invariant
                    i < segments@.len(),
                    j <= segments@[i as int]@.len(),
                    content@ == before + segments@[i as int]@.subrange(0, j as int),
                decreases segments@[i as int]@.len() - j,
            {
                content.push(segments[i][j]);
                j = j + 1;
                assert(content@ =~= before + segments@[i as int]@.subrange(0, j as int));
            }
            assert(segments@[i as int]@.subrange(0, j as int) =~= segments@[i as int]@);
            stopped = content.len() >= size;
        } else {
            stopped = true;
        }
        i = i + 1;
    }
    assert(segments@.subrange(0, i as int) =~= segments@);
    content
}

/// `id` is the root or appears in one of the reply lists `lists`.
pub open spec fn in_tree(root: Seq<char>, lists: Seq<Seq<Seq<char>>>, id: Seq<char>) -> bool {
    id == root || exists|i: int| 0 <= i < lists.len() && #[trigger] lists[i].contains(id)
}

/// The records of `records` that the reply lists reach from `root`.
pub open spec fn tree_graph(records: Seq<CommitView>, root: Seq<char>, lists: Seq<Seq<Seq<char>>>) -> Seq<CommitView> {
    records.filter(|c: CommitView| in_tree(root, lists, c.id))
}

/// `id` is a head of `cs` reachable from `start`, with no later-stamped head.
pub open spec fn is_latest_head(cs: Seq<CommitView>, start: Seq<char>, id: Seq<char>) -> bool {
    exists|q: int|
        0 <= q < cs.len() && cs[q].id == id && is_head_of(cs, start, id) && forall|k: int|
            0 <= k < cs.len() && is_head_of(cs, start, #[trigger] cs[k].id) ==> cs[k].timestamp <= cs[q].timestamp
}

/// The root has no reply in `lists`, whose first entry is the root's list.
pub open spec fn root_is_leaf(lists: Seq<Seq<Seq<char>>>) -> bool {
    lists.len() == 0 || lists[0].len() == 0
}

/// The head that reply lists `lists` give the file rooted at `root`.
pub open spec fn tree_head(records: Seq<CommitView>, root: Seq<char>, lists: Seq<Seq<Seq<char>>>, h: Seq<char>) -> bool {
    if root_is_leaf(lists) {
        h == root
    } else {
        is_latest_head(tree_graph(records, root, lists), root, h)
    }
}

/// `id` appears in one of the reply lists `lists`.
pub open spec fn listed(lists: Seq<Seq<Seq<char>>>, id: Seq<char>) -> bool {
    exists|i: int| 0 <= i < lists.len() && #[trigger] lists[i].contains(id)
}

/// The post whose replies call `c` asks for.
pub open spec fn queried_id(c: HostCall) -> Seq<char> {
    match c {
        HostCall::FetchReplies { id, .. } => id,
        _ => Seq::empty(),
    }
}

/// A call after the first of `calls` asks for the replies of `id`.
pub open spec fn queried(calls: Seq<HostCall>, id: Seq<char>) -> bool {
    exists|i: int| 1 <= i < calls.len() && #[trigger] queried_id(calls[i]) == id
}

/// Every reply query after the first is for a recorded commit other than
/// the root, found in one of the answers.
pub open spec fn queries_follow_tree(calls: Seq<HostCall>, records: Seq<CommitView>, root: Seq<char>) -> bool {
    forall|i: int|
        1 <= i < calls.len() ==> has_commit(records, #[trigger] queried_id(calls[i])) && queried_id(calls[i]) != root
            && listed(reply_answers(calls), queried_id(calls[i]))
}

/// The replies of every recorded commit other than the root found in an
/// answer were asked for.
pub open spec fn tree_explored(calls: Seq<HostCall>, records: Seq<CommitView>, root: Seq<char>) -> bool {
    forall|id: Seq<char>|
        #[trigger] listed(reply_answers(calls), id) && has_commit(records, id) && id != root ==> queried(calls, id)
}

/// A list of `lists` names `id`, also once another list is added.
pub proof fn lemma_listed_push(lists: Seq<Seq<Seq<char>>>, l: Seq<Seq<char>>, id: Seq<char>)
    ensures
        listed(lists, id) ==> listed(lists.push(l), id),
        l.contains(id) ==> listed(lists.push(l), id),
        listed(lists.push(l), id) ==> listed(lists, id) || l.contains(id),
{
    if listed(lists, id) {
        let i = choose|i: int| 0 <= i < lists.len() && #[trigger] lists[i].contains(id);
        assert(lists.push(l)[i] == lists[i]);
    }
    if l.contains(id) {
        assert(lists.push(l)[lists.len() as int] == l);
    }
    if listed(lists.push(l), id) {
        let i = choose|i: int| 0 <= i < lists.push(l).len() && #[trigger] lists.push(l)[i].contains(id);
        if i < lists.len() {
            assert(lists.push(l)[i] == lists[i]);
        }
    }
}

/// One more reply query `c` for a recorded commit other than the root that
/// an earlier answer named.
pub proof fn lemma_query_step(o: Seq<HostCall>, c: HostCall, records: Seq<CommitView>, root: Seq<char>)
    requires
        c is FetchReplies,
        o.len() >= 1,
        queries_follow_tree(o, records, root),
        has_commit(records, queried_id(c)),
        queried_id(c) != root,
        listed(reply_answers(o), queried_id(c)),
    ensures
        queries_follow_tree(o.push(c), records, root),
        queried(o.push(c), queried_id(c)),
        forall|id: Seq<char>| queried(o, id) ==> queried(o.push(c), id),
        forall|id: Seq<char>| listed(reply_answers(o), id) ==> listed(reply_answers(o.push(c)), id),
        match c {
            HostCall::FetchReplies { answer: Ok(a), .. } => reply_answers(o.push(c)) == reply_answers(o).push(a),
            _ => reply_answers(o.push(c)) == reply_answers(o),
        },
{
    let o2 = o.push(c);
    assert(o2.drop_last() =~= o);
    assert(o2.last() == c);
    let ra = reply_answers(o);
    assert forall|id: Seq<char>| listed(ra, id) implies listed(reply_answers(o2), id) by {
        match c {
            HostCall::FetchReplies { answer: Ok(a), .. } => {
                lemma_listed_push(ra, a, id);
            },
            _ => {},
        }
    }
    assert forall|id: Seq<char>| queried(o, id) implies queried(o2, id) by {
        let i = choose|i: int| 1 <= i < o.len() && #[trigger] queried_id(o[i]) == id;
        assert(o2[i] == o[i]);
    }
    assert(queried_id(o2[o.len() as int]) == queried_id(c));
    assert forall|i: int| 1 <= i < o2.len() implies has_commit(records, #[trigger] queried_id(o2[i]))
        && queried_id(o2[i]) != root && listed(reply_answers(o2), queried_id(o2[i])) by {
        if i < o.len() {
            assert(o2[i] == o[i]);
        }
    }
}

/// The text of each reply list.
pub open spec fn lists_view(lists: Seq<Vec<TweetId>>) -> Seq<Seq<Seq<char>>> {
    lists.map_values(|l: Vec<TweetId>| ids_view(l@))
}

fn in_tree_exec(root: &TweetId, lists: &Vec<Vec<TweetId>>, id: &TweetId) -> (r: bool)
    ensures
        r == in_tree(root@, lists_view(lists@), id@),
{
    if *id == *root {
        return true;
    }
    let mut i: usize = 0;
    while i < lists.len()
        invariant
            i <= lists@.len(),
            id@ != root@,
            forall|q: int| 0 <= q < i ==> !(#[trigger] lists_view(lists@)[q]).contains(id@),
        decreases lists@.len() - i,
    {
        if crate::graph::contains_id(&lists[i], id) {
            assert(lists_view(lists@)[i as int].contains(id@));
            return true;
        }
        i = i + 1;
    }
    false
}

/// The head of the file rooted at `root`, from the reply lists fetched for
/// it (the root's own list first) and the commit records: the root when it
/// has no reply, otherwise the latest head among the records the lists
/// reach.
pub fn head_of_tree(records: &CommitGraph, root: &TweetId, lists: &Vec<Vec<TweetId>>) -> (r: Result<TweetId>)
    requires
        records.wf(),
    ensures
        match r {
            Ok(h) => tree_head(records@, root@, lists_view(lists@), h@),
            Err(e) => {
                &&& !root_is_leaf(lists_view(lists@))
                &&& is_not_found(e, root@)
                &&& forall|id: Seq<char>| !#[trigger] is_head_of(tree_graph(records@, root@, lists_view(lists@)), root@, id)
            },
        },
{
    if lists.len() == 0 || lists[0].len() == 0 {
        return Ok(copy_string(root));
    }
    let ghost ls = lists_view(lists@);
    let ghost pred = |c: CommitView| in_tree(root@, ls, c.id);
    let all = records.all();
    let ghost cs = records@;
    let mut g = CommitGraph::new();
    let mut i: usize = 0;
    assert(cs.subrange(0, 0) =~= Seq::<CommitView>::empty());
    proof {
        reveal(Seq::filter);
    }
    while i < all.len()
        invariant
            commits_view(all@) == cs,
            unique_ids(cs),
            ls == lists_view(lists@),
            pred == (|c: CommitView| in_tree(root@, ls, c.id)),
            i <= all@.len(),
            g.wf(),
            g@ == cs.subrange(0, i as int).filter(pred),
        decreases all@.len() - i,
    {
        let ghost sub = cs.subrange(0, i as int);
        proof {
            reveal(Seq::filter);
            assert(cs.subrange(0, i + 1).drop_last() =~= sub);
            assert(cs.subrange(0, i + 1).last() == cs[i as int]);
            assert(commits_view(all@)[i as int] == all@[i as int]@);
        }
        if in_tree_exec(root, lists, &all[i].id) {
            let c = all[i].copy();
            proof {
                if has_commit(g@, c@.id) {
                    let k = choose|k: int| 0 <= k < g@.len() && g@[k].id == c@.id;
                    assert(g@.contains(g@[k]));
                    sub.lemma_filter_contains_rev(pred, g@[k]);
                    let j = choose|j: int| 0 <= j < sub.len() && sub[j] == g@[k];
                    assert(cs[j] == sub[j]);
                }
                assert(upsert(g@, c@) == g@.push(c@));
            }
            g.add_commit(c);
        }
        i = i + 1;
    }
    assert(cs.subrange(0, i as int) =~= cs);
    match g.find_head(root) {
        Ok(c) => {
            proof {
                let q = choose|q: int| 0 <= q < g@.len() && g@[q] == c@;
                assert(g@[q].id == c@.id);
            }
            Ok(copy_string(&c.id))
        },
        Err(e) => Err(e),
    }
}

} // verus!
