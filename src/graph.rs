use vstd::prelude::*;

use crate::commit::{commits_view, ids_view, Commit, CommitView, TweetId};
use crate::error::{Result, XFilesError};

verus! {

/// Some loaded commit has identifier `id`.
pub open spec fn has_commit(cs: Seq<CommitView>, id: Seq<char>) -> bool {
    exists|k: int| 0 <= k < cs.len() && cs[k].id == id
}

/// Some loaded commit names `id` among its parents.
pub open spec fn has_children(cs: Seq<CommitView>, id: Seq<char>) -> bool {
    exists|k: int| 0 <= k < cs.len() && #[trigger] cs[k].parents.contains(id)
}

/// Loaded commit `k` is a neighbour of loaded commit `i`: its child when
/// walking `forward`, its parent otherwise.
pub open spec fn adjacent(cs: Seq<CommitView>, forward: bool, i: int, k: int) -> bool {
    if forward {
        cs[k].parents.contains(cs[i].id)
    } else {
        cs[i].parents.contains(cs[k].id)
    }
}

/// One traversal step from identifier `a` to identifier `b`, both loaded.
pub open spec fn step(cs: Seq<CommitView>, forward: bool, a: Seq<char>, b: Seq<char>) -> bool {
    exists|i: int, k: int|
        0 <= i < cs.len() && 0 <= k < cs.len() && cs[i].id == a && cs[k].id == b
            && adjacent(cs, forward, i, k)
}

/// `w` is a sequence of identifiers, each one step from the one before.
pub open spec fn is_walk(cs: Seq<CommitView>, forward: bool, w: Seq<Seq<char>>) -> bool {
    &&& w.len() >= 1
    &&& forall|j: int| 0 <= j < w.len() - 1 ==> #[trigger] step(cs, forward, w[j], w[j + 1])
}

/// Identifier `b` is reached from `a` by zero or more steps.
pub open spec fn reaches(cs: Seq<CommitView>, forward: bool, a: Seq<char>, b: Seq<char>) -> bool {
    exists|w: Seq<Seq<char>>| #[trigger] is_walk(cs, forward, w) && w[0] == a && w.last() == b
}

/// `id` is reachable from `start` and no loaded commit names it as a parent.
pub open spec fn is_tip(cs: Seq<CommitView>, start: Seq<char>, id: Seq<char>) -> bool {
    reaches(cs, true, start, id) && !has_children(cs, id)
}

/// `id` is a loaded commit with no child, reachable from `start`.
pub open spec fn is_head_of(cs: Seq<CommitView>, start: Seq<char>, id: Seq<char>) -> bool {
    is_tip(cs, start, id) && has_commit(cs, id)
}

/// No two loaded commits share an identifier.
pub open spec fn unique_ids(cs: Seq<CommitView>) -> bool {
    forall|i: int, j: int| 0 <= i < cs.len() && 0 <= j < cs.len() && i != j ==> cs[i].id != cs[j].id
}

/// The commits of `cs` with `c` added, replacing a commit of the same identifier.
pub open spec fn upsert(cs: Seq<CommitView>, c: CommitView) -> Seq<CommitView> {
    if has_commit(cs, c.id) {
        let k = choose|k: int| 0 <= k < cs.len() && cs[k].id == c.id;
        cs.update(k, c)
    } else {
        cs.push(c)
    }
}

/// `v` holds the loaded commits reached from `id`, each once.
pub open spec fn reached_exactly(cs: Seq<CommitView>, forward: bool, id: Seq<char>, v: Seq<Commit>) -> bool {
    &&& forall|j: int| 0 <= j < v.len() ==> cs.contains(#[trigger] v[j]@) && reaches(cs, forward, id, v[j]@.id)
    &&& forall|k: int| 0 <= k < cs.len() && reaches(cs, forward, id, #[trigger] cs[k].id)
        ==> commits_view(v).contains(cs[k])
    &&& forall|a: int, b: int| 0 <= a < b < v.len() ==> v[a]@.id != v[b]@.id
}

/// `cs` with the head flag set on the commit with identifier `id`.
pub open spec fn flag_head(cs: Seq<CommitView>, id: Seq<char>) -> Seq<CommitView> {
    Seq::new(cs.len(), |k: int| if cs[k].id == id { CommitView { is_head: true, ..cs[k] } } else { cs[k] })
}

/// The commit error for identifier `id`.
pub open spec fn is_not_found(e: XFilesError, id: Seq<char>) -> bool {
    match e {
        XFilesError::CommitNotFound(s) => s@ == id,
        _ => false,
    }
}

/// The number of unset flags.
pub open spec fn count_unset(m: Seq<bool>) -> nat
    decreases m.len(),
{
    if m.len() == 0 {
        0
    } else {
        count_unset(m.drop_last()) + if m.last() {
            0nat
        } else {
            1nat
        }
    }
}

pub proof fn lemma_count_unset_set(m: Seq<bool>, k: int)
    requires
        0 <= k < m.len(),
        !m[k],
    ensures
        count_unset(m.update(k, true)) + 1 == count_unset(m),
    decreases m.len(),
{
    let u = m.update(k, true);
    if k == m.len() - 1 {
        assert(u.drop_last() =~= m.drop_last());
    } else {
        assert(u.drop_last() =~= m.drop_last().update(k, true));
        lemma_count_unset_set(m.drop_last(), k);
    }
}

proof fn lemma_walk_extend(cs: Seq<CommitView>, forward: bool, a: Seq<char>, b: Seq<char>, c: Seq<char>)
    requires
        reaches(cs, forward, a, b),
        step(cs, forward, b, c),
    ensures
        reaches(cs, forward, a, c),
{
    let w = choose|w: Seq<Seq<char>>| #[trigger] is_walk(cs, forward, w) && w[0] == a && w.last() == b;
    let w2 = w.push(c);
    assert forall|j: int| 0 <= j < w2.len() - 1 implies #[trigger] step(cs, forward, w2[j], w2[j + 1]) by {
        if j < w.len() - 1 {
            assert(w2[j] == w[j] && w2[j + 1] == w[j + 1]);
        } else {
            assert(w2[j] == b && w2[j + 1] == c);
        }
    }
    assert(is_walk(cs, forward, w2));
}

proof fn lemma_reaches_self(cs: Seq<CommitView>, forward: bool, a: Seq<char>)
    ensures
        reaches(cs, forward, a, a),
{
    let w = seq![a];
    assert(is_walk(cs, forward, w));
}

/// From an identifier that is not loaded, only that identifier is reached.
proof fn lemma_reaches_from_unloaded(cs: Seq<CommitView>, forward: bool, a: Seq<char>, b: Seq<char>)
    requires
        !has_commit(cs, a),
        reaches(cs, forward, a, b),
    ensures
        b == a,
{
    let w = choose|w: Seq<Seq<char>>| #[trigger] is_walk(cs, forward, w) && w[0] == a && w.last() == b;
    if w.len() > 1 {
        let j: int = 0;
        assert(step(cs, forward, w[j], w[j + 1]));
    }
}

/// With the flags closed under steps, every walk from a flagged commit
/// stays among flagged commits.
proof fn lemma_closed_walk(cs: Seq<CommitView>, forward: bool, marks: Seq<bool>, w: Seq<Seq<char>>, n: int)
    requires
        unique_ids(cs),
        marks.len() == cs.len(),
        forall|i: int, k: int|
            0 <= i < cs.len() && 0 <= k < cs.len() && marks[i] && #[trigger] adjacent(cs, forward, i, k)
                ==> marks[k],
        is_walk(cs, forward, w),
        exists|s: int| 0 <= s < cs.len() && marks[s] && cs[s].id == w[0],
        0 <= n < w.len(),
    ensures
        exists|k: int| 0 <= k < cs.len() && marks[k] && cs[k].id == w[n],
    decreases n,
{
    if n > 0 {
        lemma_closed_walk(cs, forward, marks, w, n - 1);
        let p = choose|k: int| 0 <= k < cs.len() && marks[k] && cs[k].id == w[n - 1];
        let j = n - 1;
        assert(step(cs, forward, w[j], w[j + 1]));
        assert(w[j + 1] == w[n]);
        let (i, k) = choose|i: int, k: int|
            0 <= i < cs.len() && 0 <= k < cs.len() && cs[i].id == w[n - 1] && cs[k].id == w[n]
                && adjacent(cs, forward, i, k);
        assert(i == p);
        assert(marks[k]);
    }
}

/// Every identifier reached from a loaded commit is loaded.
proof fn lemma_reaches_loaded(cs: Seq<CommitView>, forward: bool, a: Seq<char>, b: Seq<char>)
    requires
        has_commit(cs, a),
        reaches(cs, forward, a, b),
    ensures
        has_commit(cs, b),
{
    let w = choose|w: Seq<Seq<char>>| #[trigger] is_walk(cs, forward, w) && w[0] == a && w.last() == b;
    if w.len() > 1 {
        let j = w.len() - 2;
        assert(step(cs, forward, w[j], w[j + 1]));
        assert(w[j + 1] == b);
    }
}

/// `ids` names `id`.
pub fn contains_id(ids: &Vec<TweetId>, id: &TweetId) -> (r: bool)
    ensures
        r == ids_view(ids@).contains(id@),
{
    let mut i: usize = 0;
    while i < ids.len()
        invariant
            i <= ids@.len(),
            forall|j: int| 0 <= j < i ==> ids@[j]@ != id@,
        decreases ids@.len() - i,
    {
        if ids[i] == *id {
            assert(ids_view(ids@)[i as int] == id@);
            return true;
        }
        i = i + 1;
    }
    assert forall|j: int| 0 <= j < ids_view(ids@).len() implies ids_view(ids@)[j] != id@ by {
        assert(ids_view(ids@)[j] == ids@[j]@);
    }
    false
}

/// The in-memory commit graph of one or more files.
pub struct CommitGraph {
    commits: Vec<Commit>,
}

impl View for CommitGraph {
    type V = Seq<CommitView>;

    closed spec fn view(&self) -> Seq<CommitView> {
        self.commits@.map_values(|c: Commit| c@)
    }
}

impl CommitGraph {
    /// Identifiers are unique.
    pub open spec fn wf(&self) -> bool {
        unique_ids(self@)
    }

    /// An empty graph.
    pub fn new() -> (r: CommitGraph)
        ensures
            r.wf(),
            r@ == Seq::<CommitView>::empty(),
    {
        let r = CommitGraph { commits: Vec::new() };
        assert(r@ =~= Seq::<CommitView>::empty());
        r
    }

    /// The position of the commit with identifier `id`, if loaded.
    pub fn index_of(&self, id: &TweetId) -> (r: Option<usize>)
        requires
            self.wf(),
        ensures
            match r {
                Some(k) => k < self@.len() && self@[k as int].id == id@,
                None => !has_commit(self@, id@),
            },
    {
        let mut i: usize = 0;
        while i < self.commits.len()
            invariant
                i <= self@.len(),
                self@.len() == self.commits@.len(),
                forall|j: int| 0 <= j < i ==> self@[j].id != id@,
            decreases self@.len() - i,
        {
            if self.commits[i].id == *id {
                return Some(i);
            }
            i = i + 1;
        }
        None
    }

    /// Copies of all loaded commits, in the graph's order.
    pub fn all(&self) -> (r: Vec<Commit>)
        ensures
            commits_view(r@) == self@,
    {
        let mut r: Vec<Commit> = Vec::new();
        let mut i: usize = 0;
        while i < self.commits.len()
            invariant
                i <= self.commits@.len(),
                r@.len() == i,
                forall|j: int| 0 <= j < i ==> #[trigger] r@[j]@ == self.commits@[j]@,
            decreases self.commits@.len() - i,
        {
            r.push(self.commits[i].copy());
            i = i + 1;
        }
        assert(commits_view(r@) =~= self@);
        r
    }

    /// The number of loaded commits.
    pub fn len(&self) -> (r: usize)
        ensures
            r == self@.len(),
    {
        self.commits.len()
    }

    /// Adds `commit`, replacing any commit with the same identifier.
    pub fn add_commit(&mut self, commit: Commit)
        requires
            old(self).wf(),
        ensures
            final(self).wf(),
            final(self)@ == upsert(old(self)@, commit@),
    {
        let ghost cs = self@;
        match self.index_of(&commit.id) {
            Some(k) => {
                let ghost c = commit@;
                self.commits.set(k, commit);
                let ghost j = choose|j: int| 0 <= j < cs.len() && cs[j].id == c.id;
                assert(j == k as int);
                assert(self@ =~= cs.update(k as int, c));
            },
            None => {
                self.commits.push(commit);
                assert(self@ =~= cs.push(commit@));
            },
        }
    }

    /// The commit with identifier `id`, if loaded.
    pub fn get_commit(&self, id: &TweetId) -> (r: Option<&Commit>)
        requires
            self.wf(),
        ensures
            match r {
                Some(c) => self@.contains(c@) && c@.id == id@,
                None => !has_commit(self@, id@),
            },
    {
        match self.index_of(id) {
            Some(k) => {
                assert(self@[k as int] == self.commits@[k as int]@);
                Some(&self.commits[k])
            },
            None => None,
        }
    }

    /// Some loaded commit names `id` as a parent.
    fn has_children_exec(&self, id: &TweetId) -> (r: bool)
        ensures
            r == has_children(self@, id@),
    {
        let mut i: usize = 0;
        while i < self.commits.len()
            invariant
                i <= self@.len(),
                self@.len() == self.commits@.len(),
                forall|j: int| 0 <= j < i ==> !self@[j].parents.contains(id@),
            decreases self@.len() - i,
        {
            if contains_id(&self.commits[i].parents, id) {
                assert(self@[i as int].parents.contains(id@));
                return true;
            }
            i = i + 1;
        }
        false
    }

    /// Commit `k` is adjacent to commit `i` in the given direction.
    fn adjacent_exec(&self, forward: bool, i: usize, k: usize) -> (r: bool)
        requires
            i < self@.len(),
            k < self@.len(),
        ensures
            r == adjacent(self@, forward, i as int, k as int),
    {
        if forward {
            contains_id(&self.commits[k].parents, &self.commits[i].id)
        } else {
            contains_id(&self.commits[i].parents, &self.commits[k].id)
        }
    }

    /// Flags every loaded commit reached from commit `s`.
    fn mark_reached(&self, s: usize, forward: bool) -> (marks: Vec<bool>)
        requires
            self.wf(),
            s < self@.len(),
        ensures
            marks@.len() == self@.len(),
            forall|k: int| 0 <= k < self@.len() ==>
                (marks@[k] <==> reaches(self@, forward, self@[s as int].id, #[trigger] self@[k].id)),
    {
        let ghost cs = self@;
        let ghost start = cs[s as int].id;
        let n = self.commits.len();
        let mut marks: Vec<bool> = Vec::new();
        let mut i: usize = 0;
        while i < n
            invariant
                n == cs.len(),
                i <= n,
                marks@.len() == i,
                forall|j: int| 0 <= j < i ==> !marks@[j],
            decreases n - i,
        {
            marks.push(false);
            i = i + 1;
        }
        marks.set(s, true);
        proof {
            lemma_reaches_self(cs, forward, start);
        }
        let mut pending: Vec<usize> = vec![s];
        while pending.len() > 0
            invariant
                self@ == cs,
                self.wf(),
                n == cs.len(),
                s < n,
                start == cs[s as int].id,
                marks@.len() == n,
                marks@[s as int],
                forall|j: int| 0 <= j < pending@.len() ==> pending@[j] < n && marks@[pending@[j] as int],
                forall|k: int| 0 <= k < n && #[trigger] marks@[k] ==> reaches(cs, forward, start, cs[k].id),
                forall|i: int, k: int|
                    0 <= i < n && 0 <= k < n && marks@[i] && !pending@.contains(i as usize)
                        && #[trigger] adjacent(cs, forward, i, k) ==> marks@[k],
            decreases 2 * count_unset(marks@) + pending@.len(),
        {
            let ghost before = pending@;
            let cur = pending.pop().unwrap();
            let ghost popped = pending@;
            proof {
                assert forall|i: int, q: int|
                    0 <= i < n && 0 <= q < n && marks@[i] && i != cur && !pending@.contains(i as usize)
                        && #[trigger] adjacent(cs, forward, i, q) implies marks@[q] by {
                    if before.contains(i as usize) {
                        let j = choose|j: int| 0 <= j < before.len() && #[trigger] before[j] == i as usize;
                        if j < before.len() - 1 {
                            assert(pending@[j] == i as usize);
                        }
                    }
                }
            }
            let ghost budget = 2 * count_unset(marks@) + pending@.len();
            let mut k: usize = 0;
            while k < n
                invariant
                    self@ == cs,
                    n == cs.len(),
                    s < n,
                    cur < n,
                    start == cs[s as int].id,
                    k <= n,
                    marks@.len() == n,
                    marks@[s as int],
                    marks@[cur as int],
                    pending@.len() >= popped.len(),
                    popped =~= pending@.subrange(0, popped.len() as int),
                    forall|j: int| 0 <= j < pending@.len() ==> pending@[j] < n && marks@[pending@[j] as int],
                    forall|j: int| popped.len() <= j < pending@.len() ==> pending@[j] != cur,
                    forall|q: int| 0 <= q < n && #[trigger] marks@[q] ==> reaches(cs, forward, start, cs[q].id),
                    forall|i: int, q: int|
                        0 <= i < n && 0 <= q < n && marks@[i] && i != cur && !pending@.contains(i as usize)
                            && #[trigger] adjacent(cs, forward, i, q) ==> marks@[q],
                    forall|q: int| 0 <= q < k && adjacent(cs, forward, cur as int, q) ==> marks@[q],
                    2 * count_unset(marks@) + pending@.len() <= budget,
                decreases n - k,
            {
                if !marks[k] && self.adjacent_exec(forward, cur, k) {
                    proof {
                        lemma_count_unset_set(marks@, k as int);
                        assert(step(cs, forward, cs[cur as int].id, cs[k as int].id));
                        lemma_walk_extend(cs, forward, start, cs[cur as int].id, cs[k as int].id);
                    }
                    marks.set(k, true);
                    let ghost prev = pending@;
                    pending.push(k);
                    proof {
                        assert forall|i: int, q: int|
                            0 <= i < n && 0 <= q < n && marks@[i] && i != cur && !pending@.contains(i as usize)
                                && #[trigger] adjacent(cs, forward, i, q) implies marks@[q] by {
                            if prev.contains(i as usize) {
                                let j = choose|j: int| 0 <= j < prev.len() && #[trigger] prev[j] == i as usize;
                                assert(pending@[j] == i as usize);
                            }
                            if i == k {
                                assert(pending@[pending@.len() - 1] == k);
                            }
                        }
                    }
                }
                k = k + 1;
            }
            proof {
                assert forall|i: int, q: int|
                    0 <= i < n && 0 <= q < n && marks@[i] && !pending@.contains(i as usize)
                        && #[trigger] adjacent(cs, forward, i, q) implies marks@[q] by {
                    if i == cur as int {
                    } else {
                    }
                }
            }
        }
        proof {
            assert forall|k: int| 0 <= k < n implies (marks@[k] <==> reaches(cs, forward, start, #[trigger] cs[k].id)) by {
                if reaches(cs, forward, start, cs[k].id) {
                    let w = choose|w: Seq<Seq<char>>|
                        #[trigger] is_walk(cs, forward, w) && w[0] == start && w.last() == cs[k].id;
                    lemma_closed_walk(cs, forward, marks@, w, w.len() - 1);
                    let q = choose|q: int| 0 <= q < cs.len() && marks@[q] && cs[q].id == w[w.len() - 1];
                    assert(q == k);
                }
            }
        }
        marks
    }

    /// The latest-stamped childless commit reachable from `start`.
    pub fn find_head(&self, start: &TweetId) -> (r: Result<&Commit>)
        requires
            self.wf(),
        ensures
            match r {
                Ok(c) => {
                    &&& self@.contains(c@)
                    &&& is_head_of(self@, start@, c@.id)
                    &&& forall|k: int| 0 <= k < self@.len() && is_head_of(self@, start@, #[trigger] self@[k].id)
                        ==> self@[k].timestamp <= c@.timestamp
                },
                Err(e) => {
                    &&& is_not_found(e, start@)
                    &&& forall|id: Seq<char>| !#[trigger] is_head_of(self@, start@, id)
                },
            },
    {
        let ghost cs = self@;
        match self.index_of(start) {
            None => {
                proof {
                    assert forall|id: Seq<char>| !#[trigger] is_head_of(cs, start@, id) by {
                        if is_head_of(cs, start@, id) {
                            lemma_reaches_from_unloaded(cs, true, start@, id);
                        }
                    }
                }
                Err(XFilesError::CommitNotFound(start.clone()))
            },
            Some(s) => {
                let marks = self.mark_reached(s, true);
                let n = self.commits.len();
                let mut best: Option<usize> = None;
                let mut k: usize = 0;
                while k < n
                    invariant
                        self@ == cs,
                        self.wf(),
                        n == cs.len(),
                        s < n,
                        cs[s as int].id == start@,
                        k <= n,
                        marks@.len() == n,
                        forall|q: int| 0 <= q < n ==>
                            (marks@[q] <==> reaches(cs, true, start@, #[trigger] cs[q].id)),
                        match best {
                            Some(b) => b < k && is_head_of(cs, start@, cs[b as int].id)
                                && forall|q: int| 0 <= q < k && is_head_of(cs, start@, #[trigger] cs[q].id)
                                    ==> cs[q].timestamp <= cs[b as int].timestamp,
                            None => forall|q: int| 0 <= q < k ==> !is_head_of(cs, start@, #[trigger] cs[q].id),
                        },
                    decreases n - k,
                {
                    if marks[k] && !self.has_children_exec(&self.commits[k].id) {
                        assert(cs[k as int].id == self.commits@[k as int].id@);
                        assert(is_head_of(cs, start@, cs[k as int].id));
                        match best {
                            Some(b) => {
                                if self.commits[k].timestamp >= self.commits[b].timestamp {
                                    best = Some(k);
                                }
                            },
                            None => {
                                best = Some(k);
                            },
                        }
                    }
                    k = k + 1;
                }
                match best {
                    Some(b) => {
                        assert(cs[b as int] == self.commits@[b as int]@);
                        Ok(&self.commits[b])
                    },
                    None => {
                        proof {
                            assert forall|id: Seq<char>| !#[trigger] is_head_of(cs, start@, id) by {
                                if is_head_of(cs, start@, id) {
                                    let q = choose|q: int| 0 <= q < cs.len() && cs[q].id == id;
                                    assert(is_head_of(cs, start@, cs[q].id));
                                }
                            }
                        }
                        Err(XFilesError::CommitNotFound(start.clone()))
                    },
                }
            },
        }
    }

    /// Every childless identifier reachable from `root`, each once.
    pub fn detect_forks(&self, root: &TweetId) -> (r: Result<Vec<TweetId>>)
        requires
            self.wf(),
        ensures
            match r {
                Ok(v) => {
                    &&& ids_view(v@).no_duplicates()
                    &&& forall|j: int| 0 <= j < v@.len() ==> is_tip(self@, root@, #[trigger] v@[j]@)
                    &&& forall|id: Seq<char>| #[trigger] is_tip(self@, root@, id) ==> ids_view(v@).contains(id)
                },
                Err(_) => false,
            },
    {
        let ghost cs = self@;
        match self.index_of(root) {
            None => {
                let mut v: Vec<TweetId> = Vec::new();
                if !self.has_children_exec(root) {
                    proof {
                        lemma_reaches_self(cs, true, root@);
                    }
                    v.push(root.clone());
                }
                proof {
                    assert forall|id: Seq<char>| #[trigger] is_tip(cs, root@, id) implies ids_view(v@).contains(id) by {
                        lemma_reaches_from_unloaded(cs, true, root@, id);
                        assert(ids_view(v@)[0] == id);
                    }
                    assert(ids_view(v@).no_duplicates());
                }
                Ok(v)
            },
            Some(s) => {
                let marks = self.mark_reached(s, true);
                let n = self.commits.len();
                let mut v: Vec<TweetId> = Vec::new();
                let ghost mut src: Seq<int> = Seq::empty();
                let mut k: usize = 0;
                while k < n
                    invariant
                        self@ == cs,
                        self.wf(),
                        n == cs.len(),
                        s < n,
                        cs[s as int].id == root@,
                        k <= n,
                        marks@.len() == n,
                        forall|q: int| 0 <= q < n ==>
                            (marks@[q] <==> reaches(cs, true, root@, #[trigger] cs[q].id)),
                        src.len() == v@.len(),
                        forall|j: int| 0 <= j < src.len() ==> 0 <= #[trigger] src[j] < k,
                        forall|j: int, l: int| 0 <= j < l < src.len() ==> src[j] < src[l],
                        forall|j: int| 0 <= j < src.len() ==> v@[j]@ == cs[#[trigger] src[j]].id,
                        forall|j: int| 0 <= j < v@.len() ==> is_tip(cs, root@, #[trigger] v@[j]@),
                        forall|q: int| 0 <= q < k && is_tip(cs, root@, #[trigger] cs[q].id)
                            ==> ids_view(v@).contains(cs[q].id),
                    decreases n - k,
                {
                    if marks[k] && !self.has_children_exec(&self.commits[k].id) {
                        assert(cs[k as int].id == self.commits@[k as int].id@);
                        let ghost before = v@;
                        v.push(self.commits[k].id.clone());
                        proof {
                            src = src.push(k as int);
                            assert forall|q: int| 0 <= q <= k && is_tip(cs, root@, #[trigger] cs[q].id)
                                implies ids_view(v@).contains(cs[q].id) by {
                                if q < k {
                                    let j = choose|j: int| 0 <= j < before.len() && #[trigger] ids_view(before)[j] == cs[q].id;
                                    assert(ids_view(v@)[j] == ids_view(before)[j]);
                                } else {
                                    assert(ids_view(v@)[before.len() as int] == cs[q].id);
                                }
                            }
                        }
                    }
                    k = k + 1;
                }
                proof {
                    assert forall|id: Seq<char>| #[trigger] is_tip(cs, root@, id) implies ids_view(v@).contains(id) by {
                        lemma_reaches_loaded(cs, true, root@, id);
                        let q = choose|q: int| 0 <= q < cs.len() && cs[q].id == id;
                        assert(is_tip(cs, root@, cs[q].id));
                    }
                    assert forall|a: int, b: int| 0 <= a < ids_view(v@).len() && 0 <= b < ids_view(v@).len() && a != b
                        implies ids_view(v@)[a] != ids_view(v@)[b] by {
                        assert(ids_view(v@)[a] == cs[src[a]].id);
                        assert(ids_view(v@)[b] == cs[src[b]].id);
                        if a < b {
                            assert(src[a] < src[b]);
                        } else {
                            assert(src[b] < src[a]);
                        }
                    }
                }
                Ok(v)
            },
        }
    }

    /// Copies of every loaded commit reached from `id` in the given
    /// direction, each once, `id`'s own commit first.
    fn collect_reached(&self, id: &TweetId, forward: bool) -> (v: Vec<Commit>)
        requires
            self.wf(),
        ensures
            reached_exactly(self@, forward, id@, v@),
            has_commit(self@, id@) ==> v@.len() >= 1 && v@[0]@.id == id@,
            !has_commit(self@, id@) ==> v@.len() == 0,
    {
        let ghost cs = self@;
        let mut v: Vec<Commit> = Vec::new();
        match self.index_of(id) {
            None => {
                proof {
                    assert forall|k: int| 0 <= k < cs.len() && reaches(cs, forward, id@, #[trigger] cs[k].id)
                        implies commits_view(v@).contains(cs[k]) by {
                        lemma_reaches_from_unloaded(cs, forward, id@, cs[k].id);
                        assert(has_commit(cs, id@));
                    }
                }
            },
            Some(s) => {
                let marks = self.mark_reached(s, forward);
                let n = self.commits.len();
                let mut k: usize = 0;
                assert(cs[s as int] == self.commits@[s as int]@);
                v.push(self.commits[s].copy());
                let ghost mut src: Seq<int> = seq![s as int];
                proof {
                    lemma_reaches_self(cs, forward, id@);
                }
                while k < n
                    invariant
                        self@ == cs,
                        self.wf(),
                        n == cs.len(),
                        s < n,
                        cs[s as int].id == id@,
                        k <= n,
                        marks@.len() == n,
                        forall|q: int| 0 <= q < n ==>
                            (marks@[q] <==> reaches(cs, forward, id@, #[trigger] cs[q].id)),
                        src.len() == v@.len(),
                        src.len() >= 1,
                        src[0] == s,
                        forall|j: int| 0 <= j < src.len() ==> 0 <= #[trigger] src[j] < n && (j == 0 || src[j] < k),
                        forall|j: int, l: int| 0 <= j < l < src.len() ==> src[j] != src[l],
                        forall|j: int| 0 <= j < src.len() ==> v@[j]@ == cs[#[trigger] src[j]] && marks@[src[j]],
                        forall|q: int| 0 <= q < k && marks@[q] ==> exists|j: int| 0 <= j < v@.len() && #[trigger] src[j] == q,
                    decreases n - k,
                {
                    if marks[k] && k != s {
                        assert(cs[k as int] == self.commits@[k as int]@);
                        let ghost before = src;
                        v.push(self.commits[k].copy());
                        proof {
                            src = src.push(k as int);
                            assert forall|q: int| 0 <= q <= k && marks@[q]
                                implies exists|j: int| 0 <= j < v@.len() && #[trigger] src[j] == q by {
                                if q < k {
                                    let j = choose|j: int| 0 <= j < before.len() && #[trigger] before[j] == q;
                                    assert(src[j] == q);
                                } else {
                                    assert(src[before.len() as int] == q);
                                }
                            }
                        }
                    } else if k == s {
                        assert(src[0] == k);
                    }
                    k = k + 1;
                }
                proof {
                    assert forall|j: int| 0 <= j < v@.len() implies cs.contains(#[trigger] v@[j]@)
                        && reaches(cs, forward, id@, v@[j]@.id) by {
                        assert(cs[src[j]] == v@[j]@);
                    }
                    assert forall|q: int| 0 <= q < cs.len() && reaches(cs, forward, id@, #[trigger] cs[q].id)
                        implies commits_view(v@).contains(cs[q]) by {
                        assert(marks@[q]);
                        let j = choose|j: int| 0 <= j < v@.len() && #[trigger] src[j] == q;
                        assert(commits_view(v@)[j] == cs[q]);
                    }
                    assert forall|a: int, b: int| 0 <= a < b < v@.len() implies v@[a]@.id != v@[b]@.id by {
                        assert(src[a] != src[b]);
                        assert(v@[a]@ == cs[src[a]]);
                        assert(v@[b]@ == cs[src[b]]);
                    }
                    assert(v@[0]@ == cs[s as int]);
                }
            },
        }
        v
    }

    /// Copies of every loaded commit reached from `id` by following parents,
    /// each once, `id`'s own commit first.
    pub fn get_ancestors(&self, id: &TweetId) -> (r: Result<Vec<Commit>>)
        requires
            self.wf(),
        ensures
            r matches Ok(v) && reached_exactly(self@, false, id@, v@)
                && (has_commit(self@, id@) ==> v@.len() >= 1 && v@[0]@.id == id@)
                && (!has_commit(self@, id@) ==> v@.len() == 0),
    {
        Ok(self.collect_reached(id, false))
    }

    /// Copies of every loaded commit reached from `id` by following children,
    /// each once, `id`'s own commit first.
    pub fn get_descendants(&self, id: &TweetId) -> (r: Vec<Commit>)
        requires
            self.wf(),
        ensures
            reached_exactly(self@, true, id@, r@),
            has_commit(self@, id@) ==> r@.len() >= 1 && r@[0]@.id == id@,
            !has_commit(self@, id@) ==> r@.len() == 0,
    {
        self.collect_reached(id, true)
    }

    /// Copies of every loaded commit that names `parent` among its parents.
    pub fn get_children(&self, parent: &TweetId) -> (r: Vec<Commit>)
        ensures
            forall|j: int| 0 <= j < r@.len() ==> self@.contains(#[trigger] r@[j]@)
                && r@[j]@.parents.contains(parent@),
            forall|k: int| 0 <= k < self@.len() && (#[trigger] self@[k]).parents.contains(parent@)
                ==> commits_view(r@).contains(self@[k]),
    {
        let ghost cs = self@;
        let mut v: Vec<Commit> = Vec::new();
        let mut k: usize = 0;
        while k < self.commits.len()
            invariant
                self@ == cs,
                k <= cs.len(),
                cs.len() == self.commits@.len(),
                forall|j: int| 0 <= j < v@.len() ==> cs.contains(#[trigger] v@[j]@)
                    && v@[j]@.parents.contains(parent@),
                forall|q: int| 0 <= q < k && (#[trigger] cs[q]).parents.contains(parent@)
                    ==> commits_view(v@).contains(cs[q]),
            decreases cs.len() - k,
        {
            assert(cs[k as int] == self.commits@[k as int]@);
            if contains_id(&self.commits[k].parents, parent) {
                let ghost before = v@;
                v.push(self.commits[k].copy());
                proof {
                    assert(commits_view(v@)[before.len() as int] == cs[k as int]);
                    assert forall|q: int| 0 <= q <= k && (#[trigger] cs[q]).parents.contains(parent@)
                        implies commits_view(v@).contains(cs[q]) by {
                        if q < k {
                            let j = choose|j: int| 0 <= j < before.len() && #[trigger] commits_view(before)[j] == cs[q];
                            assert(commits_view(v@)[j] == commits_view(before)[j]);
                        }
                    }
                    assert forall|j: int| 0 <= j < v@.len() implies cs.contains(#[trigger] v@[j]@)
                        && v@[j]@.parents.contains(parent@) by {
                        if j == before.len() {
                            assert(cs[k as int] == v@[j]@);
                        } else {
                            assert(v@[j] == before[j]);
                        }
                    }
                }
            }
            k = k + 1;
        }
        v
    }

    /// Sets the head flag of the commit with identifier `id`, if loaded.
    pub fn set_head(&mut self, id: &TweetId)
        requires
            old(self).wf(),
        ensures
            final(self).wf(),
            final(self)@ == flag_head(old(self)@, id@),
    {
        let ghost cs = self@;
        match self.index_of(id) {
            Some(i) => {
                let mut c = self.commits[i].copy();
                c.is_head = true;
                self.commits.set(i, c);
                proof {
                    assert forall|k: int| 0 <= k < cs.len() implies #[trigger] self@[k] == flag_head(cs, id@)[k] by {
                        if k != i {
                            assert(cs[k].id != id@);
                        }
                    }
                    assert(self@ =~= flag_head(cs, id@));
                }
            },
            None => {
                assert(self@ =~= flag_head(cs, id@));
            },
        }
    }
}

} // verus!
