use vstd::prelude::*;

use crate::commit::{copy_string, ids_view, TweetId};

verus! {

/// `a` comes no later than `b` in the order of their characters' code
/// points, a prefix first.
pub open spec fn text_le(a: Seq<char>, b: Seq<char>) -> bool
    decreases a.len(),
{
    if a.len() == 0 {
        true
    } else if b.len() == 0 {
        false
    } else if a[0] as u32 != b[0] as u32 {
        (a[0] as u32) < (b[0] as u32)
    } else {
        text_le(a.drop_first(), b.drop_first())
    }
}

/// `v` is ordered by [`text_le`].
pub open spec fn sorted_texts(v: Seq<Seq<char>>) -> bool {
    forall|a: int, b: int| 0 <= a < b < v.len() ==> text_le(v[a], v[b])
}

proof fn lemma_text_le_total(a: Seq<char>, b: Seq<char>)
    ensures
        text_le(a, b) || text_le(b, a),
    decreases a.len(),
{
    if a.len() > 0 && b.len() > 0 && a[0] as u32 == b[0] as u32 {
        lemma_text_le_total(a.drop_first(), b.drop_first());
    }
}

proof fn lemma_text_le_trans(a: Seq<char>, b: Seq<char>, c: Seq<char>)
    requires
        text_le(a, b),
        text_le(b, c),
    ensures
        text_le(a, c),
    decreases a.len(),
{
    if a.len() > 0 && b.len() > 0 && c.len() > 0 && a[0] as u32 == b[0] as u32 && b[0] as u32 == c[0] as u32 {
        lemma_text_le_trans(a.drop_first(), b.drop_first(), c.drop_first());
    }
}

/// Whether `a` comes no later than `b`.
fn text_le_exec(a: &String, b: &String) -> (r: bool)
    ensures
        r == text_le(a@, b@),
{
    let sa = a.as_str();
    let sb = b.as_str();
    let n = sa.unicode_len();
    let m = sb.unicode_len();
    let mut i: usize = 0;
    assert(a@.skip(0) =~= a@);
    assert(b@.skip(0) =~= b@);
    while i < n && i < m
        invariant
            n == a@.len(),
            m == b@.len(),
            sa@ == a@,
            sb@ == b@,
            i <= n,
            i <= m,
            text_le(a@, b@) == text_le(a@.skip(i as int), b@.skip(i as int)),
        decreases n - i,
    {
        let x = sa.get_char(i);
        let y = sb.get_char(i);
        assert(a@.skip(i as int)[0] == x && b@.skip(i as int)[0] == y);
        if x as u32 != y as u32 {
            return (x as u32) < (y as u32);
        }
        assert(a@.skip(i as int).drop_first() =~= a@.skip(i + 1));
        assert(b@.skip(i as int).drop_first() =~= b@.skip(i + 1));
        i = i + 1;
    }
    i == n
}

/// Position `q` is among the first `n` entries of `src`.
spec fn hits(src: Seq<int>, n: int, q: int) -> bool {
    exists|a: int| 0 <= a < n && #[trigger] src[a] == q
}

/// `v` sorted by [`text_le`].
pub fn sort_texts(v: &Vec<String>) -> (r: Vec<String>)
    ensures
        sorted_texts(ids_view(r@)),
        r@.len() == v@.len(),
        forall|p: Seq<char>| ids_view(r@).contains(p) <==> ids_view(v@).contains(p),
        ids_view(v@).no_duplicates() ==> ids_view(r@).no_duplicates(),
{
    let mut out: Vec<String> = Vec::new();
    let ghost mut src: Seq<int> = Seq::empty();
    let mut i: usize = 0;
    while i < v.len()
        invariant
            i <= v@.len(),
            out@.len() == i,
            src.len() == i,
            sorted_texts(ids_view(out@)),
            forall|a: int| 0 <= a < i ==> 0 <= #[trigger] src[a] < i && out@[a]@ == v@[src[a]]@,
            forall|a: int, b: int| 0 <= a < i && 0 <= b < i && a != b ==> src[a] != src[b],
            forall|q: int| 0 <= q < i ==> #[trigger] hits(src, i as int, q),
        decreases v@.len() - i,
    {
        let c = copy_string(&v[i]);
        let mut p: usize = 0;
        while p < out.len() && text_le_exec(&out[p], &c)
            invariant
                p <= out@.len(),
                forall|j: int| 0 <= j < p ==> text_le(out@[j]@, c@),
            decreases out@.len() - p,
        {
            p = p + 1;
        }
        let ghost before = out@;
        let ghost src0 = src;
        proof {
            assert forall|j: int| p <= j < before.len() implies text_le(c@, before[j]@) by {
                assert(!text_le(before[p as int]@, c@));
                lemma_text_le_total(before[p as int]@, c@);
                if j > p {
                    assert(ids_view(before)[p as int] == before[p as int]@);
                    assert(ids_view(before)[j] == before[j]@);
                    lemma_text_le_trans(c@, before[p as int]@, before[j]@);
                }
            }
        }
        out.insert(p, c);
        proof {
            src = src0.insert(p as int, i as int);
            assert(out@ =~= before.insert(p as int, c));
            assert forall|a: int, b: int| 0 <= a < b < ids_view(out@).len() implies text_le(
                ids_view(out@)[a],
                ids_view(out@)[b],
            ) by {
                assert(ids_view(out@)[a] == out@[a]@ && ids_view(out@)[b] == out@[b]@);
                if b < p {
                    assert(ids_view(before)[a] == before[a]@ && ids_view(before)[b] == before[b]@);
                } else if b == p {
                } else if a < p {
                    assert(out@[b] == before[b - 1]);
                    lemma_text_le_trans(out@[a]@, c@, out@[b]@);
                } else if a == p {
                    assert(out@[b] == before[b - 1]);
                } else {
                    assert(out@[a] == before[a - 1] && out@[b] == before[b - 1]);
                    assert(ids_view(before)[a - 1] == before[a - 1]@ && ids_view(before)[b - 1] == before[b - 1]@);
                }
            }
            assert forall|a: int| 0 <= a < i + 1 implies 0 <= #[trigger] src[a] < i + 1 && out@[a]@ == v@[src[a]]@ by {
                if a < p {
                    assert(src[a] == src0[a]);
                } else if a > p {
                    assert(src[a] == src0[a - 1]);
                }
            }
            assert forall|a: int, b: int| 0 <= a < i + 1 && 0 <= b < i + 1 && a != b implies src[a] != src[b] by {
                let a0 = if a < p { a } else { a - 1 };
                let b0 = if b < p { b } else { b - 1 };
                if a != p && b != p {
                    assert(src[a] == src0[a0] && src[b] == src0[b0]);
                } else if a == p {
                    assert(src[b] == src0[b0]);
                } else {
                    assert(src[a] == src0[a0]);
                }
            }
            assert forall|q: int| 0 <= q < i + 1 implies #[trigger] hits(src, i + 1, q) by {
                if q == i {
                    assert(src[p as int] == q);
                } else {
                    assert(hits(src0, i as int, q));
                    let a0 = choose|a: int| 0 <= a < i && #[trigger] src0[a] == q;
                    if a0 < p {
                        assert(src[a0] == q);
                    } else {
                        assert(src[a0 + 1] == q);
                    }
                }
            }
        }
        i = i + 1;
    }
    proof {
        assert forall|x: Seq<char>| ids_view(out@).contains(x) <==> ids_view(v@).contains(x) by {
            if ids_view(out@).contains(x) {
                let a = choose|a: int| 0 <= a < ids_view(out@).len() && ids_view(out@)[a] == x;
                assert(ids_view(v@)[src[a]] == x);
            }
            if ids_view(v@).contains(x) {
                let q = choose|q: int| 0 <= q < ids_view(v@).len() && ids_view(v@)[q] == x;
                assert(hits(src, i as int, q));
                let a = choose|a: int| 0 <= a < i && #[trigger] src[a] == q;
                assert(ids_view(out@)[a] == x);
            }
        }
        if ids_view(v@).no_duplicates() {
            assert forall|a: int, b: int| 0 <= a < ids_view(out@).len() && 0 <= b < ids_view(out@).len() && a != b
                implies ids_view(out@)[a] != ids_view(out@)[b] by {
                assert(src[a] != src[b]);
                assert(ids_view(out@)[a] == ids_view(v@)[src[a]]);
                assert(ids_view(out@)[b] == ids_view(v@)[src[b]]);
            }
        }
    }
    out
}

/// The registered files: each path with the identifier of its root post.
/// A registration is never removed.
pub struct FileRegistry {
    paths: Vec<String>,
    roots: Vec<TweetId>,
}

impl View for FileRegistry {
    type V = Map<Seq<char>, Seq<char>>;

    closed spec fn view(&self) -> Map<Seq<char>, Seq<char>> {
        Map::new(
            |p: Seq<char>| ids_view(self.paths@).contains(p),
            |p: Seq<char>| self.roots@[ids_view(self.paths@).index_of(p)]@,
        )
    }
}

impl FileRegistry {
    /// One root per path.
    pub closed spec fn wf(&self) -> bool {
        &&& self.paths@.len() == self.roots@.len()
        &&& ids_view(self.paths@).no_duplicates()
    }

    proof fn lemma_entry(&self, i: int)
        requires
            self.wf(),
            0 <= i < self.paths@.len(),
        ensures
            self@.contains_key(self.paths@[i]@),
            self@[self.paths@[i]@] == self.roots@[i]@,
    {
        let ps = ids_view(self.paths@);
        assert(ps[i] == self.paths@[i]@);
        assert(ps.contains(ps[i]));
        let j = ps.index_of(ps[i]);
        assert(ps[j] == ps[i]);
    }

    /// No file registered.
    pub fn new() -> (r: FileRegistry)
        ensures
            r.wf(),
            r@ == Map::<Seq<char>, Seq<char>>::empty(),
    {
        let r = FileRegistry { paths: Vec::new(), roots: Vec::new() };
        assert(r@ =~= Map::<Seq<char>, Seq<char>>::empty());
        r
    }

    fn find(&self, path: &String) -> (r: Option<usize>)
        requires
            self.wf(),
        ensures
            match r {
                Some(i) => i < self.paths@.len() && self.paths@[i as int]@ == path@,
                None => !self@.contains_key(path@),
            },
    {
        let mut i: usize = 0;
        while i < self.paths.len()
            invariant
                i <= self.paths@.len(),
                forall|j: int| 0 <= j < i ==> self.paths@[j]@ != path@,
            decreases self.paths@.len() - i,
        {
            if self.paths[i] == *path {
                return Some(i);
            }
            i = i + 1;
        }
        assert(!ids_view(self.paths@).contains(path@));
        None
    }

    /// The root post of the file at `path`.
    pub fn get_file_root(&self, path: &str) -> (r: Option<TweetId>)
        requires
            self.wf(),
        ensures
            match r {
                Some(root) => self@.contains_key(path@) && root@ == self@[path@],
                None => !self@.contains_key(path@),
            },
    {
        let key = String::from_str(path);
        match self.find(&key) {
            Some(i) => {
                proof {
                    self.lemma_entry(i as int);
                }
                Some(copy_string(&self.roots[i]))
            },
            None => None,
        }
    }

    /// A file is registered at `path`.
    pub fn file_exists(&self, path: &str) -> (r: bool)
        requires
            self.wf(),
        ensures
            r == self@.contains_key(path@),
    {
        let key = String::from_str(path);
        match self.find(&key) {
            Some(i) => {
                proof {
                    self.lemma_entry(i as int);
                }
                true
            },
            None => false,
        }
    }

    /// Registers `path` with root post `root`, replacing an earlier root.
    pub fn register_file(&mut self, path: &str, root: &TweetId)
        requires
            old(self).wf(),
        ensures
            final(self).wf(),
            final(self)@ == old(self)@.insert(path@, root@),
    {
        let ghost pre = *self;
        let key = String::from_str(path);
        let value = copy_string(root);
        match self.find(&key) {
            Some(i) => {
                self.roots.set(i, value);
                proof {
                    assert(ids_view(self.paths@) == ids_view(pre.paths@));
                    assert forall|k: Seq<char>| #[trigger] self@.contains_key(k) implies
                        self@[k] == pre@.insert(path@, root@)[k] by {
                        let ks = ids_view(self.paths@);
                        let j = ks.index_of(k);
                        if k != path@ {
                            pre.lemma_entry(j);
                            assert(ks[i as int] == path@);
                        } else {
                            assert(ks[i as int] == path@);
                            assert(ks[j] == path@);
                        }
                    }
                    pre.lemma_entry(i as int);
                    assert(self@.dom() =~= pre@.insert(path@, root@).dom());
                    assert(self@ =~= pre@.insert(path@, root@));
                }
            },
            None => {
                self.paths.push(key);
                self.roots.push(value);
                proof {
                    let ks = ids_view(self.paths@);
                    let k0 = path@;
                    assert(ks =~= ids_view(pre.paths@).push(k0));
                    assert(ks.no_duplicates()) by {
                        assert forall|a: int, b: int| 0 <= a < ks.len() && 0 <= b < ks.len() && a != b
                            implies ks[a] != ks[b] by {
                            if a < ks.len() - 1 && b < ks.len() - 1 {
                                assert(ids_view(pre.paths@)[a] == ks[a]);
                                assert(ids_view(pre.paths@)[b] == ks[b]);
                            } else if a == ks.len() - 1 {
                                assert(ids_view(pre.paths@)[b] == ks[b]);
                                assert(ids_view(pre.paths@).contains(ks[b]));
                            } else {
                                assert(ids_view(pre.paths@)[a] == ks[a]);
                                assert(ids_view(pre.paths@).contains(ks[a]));
                            }
                        }
                    }
                    assert forall|k: Seq<char>| #[trigger] self@.contains_key(k) implies
                        self@[k] == pre@.insert(k0, root@)[k] by {
                        let j = ks.index_of(k);
                        let last = ks.len() - 1;
                        if k != k0 {
                            assert(j != last);
                            assert(ids_view(pre.paths@)[j] == k);
                            pre.lemma_entry(j);
                        } else {
                            self.lemma_entry(last);
                            assert(ks[last] == k0);
                        }
                    }
                    assert forall|k: Seq<char>| #[trigger] pre@.insert(k0, root@).contains_key(k)
                        implies self@.contains_key(k) by {
                        if k != k0 {
                            let j = ids_view(pre.paths@).index_of(k);
                            assert(ks[j] == k);
                        } else {
                            assert(ks[ks.len() - 1] == k0);
                        }
                    }
                    assert(self@ =~= pre@.insert(k0, root@));
                }
            },
        }
    }

    /// Every registered path, each once, in order.
    pub fn list_files(&self) -> (r: Vec<String>)
        requires
            self.wf(),
        ensures
            ids_view(r@).no_duplicates(),
            sorted_texts(ids_view(r@)),
            forall|p: Seq<char>| #[trigger] ids_view(r@).contains(p) <==> self@.contains_key(p),
    {
        sort_texts(&self.paths)
    }
}

} // verus!
