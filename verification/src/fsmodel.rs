use vstd::prelude::*;

use crate::paths::dup_bytes;
use crate::paths::dup_path;
use crate::paths::path_eq;
use crate::paths::path_has_prefix;
use crate::paths::path_rebase;
use crate::paths::path_starts_with;
use crate::paths::path_take;
use crate::paths::pview;

verus! {

/// The error taxonomy of the filesystem operations: a required path is
/// missing, a destination is already occupied, the request itself is
/// malformed, or a file's content is not what a handler expects.
#[derive(Clone, Copy, Debug, PartialEq, Eq, Structural)]
pub enum FsError {
    NotFound,
    AlreadyExists,
    InvalidArgument,
    InvalidData,
}

/// A node of the tree: a directory, or a file with its bytes.
pub enum FsNode {
    Dir,
    File(Vec<u8>),
}

/// One entry of the model: an absolute path and the node found there.
pub struct FsEntry {
    pub path: Vec<Vec<u8>>,
    pub node: FsNode,
}

/// A directory is `None`, a file is `Some` of its content.
pub open spec fn nview(n: FsNode) -> Option<Seq<u8>> {
    match n {
        FsNode::Dir => None,
        FsNode::File(c) => Some(c@),
    }
}

/// The mathematical shadow of one entry.
pub open spec fn ev(e: FsEntry) -> (Seq<Seq<u8>>, Option<Seq<u8>>) {
    (pview(e.path), nview(e.node))
}

/// An in-memory model of the directory tree that the tool rearranges: a flat
/// list of path/node entries with no path listed twice. It carries the same
/// information as the real tree, and the destructive operations (rename,
/// recursive delete, directory creation) are specified against its map view.
pub struct FsModel {
    entries: Vec<FsEntry>,
}

impl View for FsModel {
    type V = Map<Seq<Seq<u8>>, Option<Seq<u8>>>;

    closed spec fn view(&self) -> Map<Seq<Seq<u8>>, Option<Seq<u8>>> {
        Map::new(
            |p: Seq<Seq<u8>>|
                exists|i: int|
                    0 <= i < self.entries@.len() && pview(#[trigger] self.entries@[i].path) == p,
            |p: Seq<Seq<u8>>|
                nview(
                    self.entries@[choose|i: int|
                        0 <= i < self.entries@.len() && pview(
                            #[trigger] self.entries@[i].path,
                        ) == p].node,
                ),
        )
    }
}

impl FsModel {
    /// No path occurs twice among the entries.
    pub closed spec fn wf(&self) -> bool {
        forall|i: int, j: int|
            0 <= i < j < self.entries@.len() ==> pview(#[trigger] self.entries@[i].path) != pview(
                #[trigger] self.entries@[j].path,
            )
    }

    /// The entries in their listed order: the traversal order of the model.
    pub closed spec fn eseq(&self) -> Seq<(Seq<Seq<u8>>, Option<Seq<u8>>)> {
        Seq::new(self.entries@.len(), |i: int| ev(self.entries@[i]))
    }

    /// An empty tree.
    pub fn empty() -> (r: FsModel)
        ensures
            r.wf(),
            r@ == Map::<Seq<Seq<u8>>, Option<Seq<u8>>>::empty(),
            r.eseq() == Seq::<(Seq<Seq<u8>>, Option<Seq<u8>>)>::empty(),
    {
        let r = FsModel { entries: Vec::new() };
        proof {
            assert(r@ =~= Map::<Seq<Seq<u8>>, Option<Seq<u8>>>::empty());
            assert(r.eseq() =~= Seq::<(Seq<Seq<u8>>, Option<Seq<u8>>)>::empty());
        }
        r
    }

    fn find(&self, p: &Vec<Vec<u8>>) -> (r: Option<usize>)
        ensures
            match r {
                Some(i) => 0 <= i < self.entries@.len() && pview(self.entries@[i as int].path)
                    == pview(*p),
                None => forall|i: int|
                    0 <= i < self.entries@.len() ==> pview(#[trigger] self.entries@[i].path)
                        != pview(*p),
            },
    {
        let n = self.entries.len();
        let mut i: usize = 0;
        while i < n
            invariant
                n == self.entries@.len(),
                0 <= i <= n,
                forall|j: int|
                    0 <= j < i ==> pview(#[trigger] self.entries@[j].path) != pview(*p),
            decreases n - i,
        {
            if path_eq(&self.entries[i].path, p) {
                return Some(i);
            }
            i = i + 1;
        }
        None
    }

    /// Whether the path is present, as a directory or a file.
    pub fn has_path(&self, p: &Vec<Vec<u8>>) -> (b: bool)
        requires
            self.wf(),
        ensures
            b == self@.contains_key(pview(*p)),
    {
        match self.find(p) {
            Some(_) => true,
            None => {
                proof {
                    lemma_absent(*self, pview(*p));
                }
                false
            },
        }
    }

    /// The content of the file at `p`, or `None` where there is none (a
    /// missing path, or a directory).
    pub fn file_at(&self, p: &Vec<Vec<u8>>) -> (r: Option<Vec<u8>>)
        requires
            self.wf(),
        ensures
            match r {
                Some(c) => self@.contains_key(pview(*p)) && self@[pview(*p)] == Some(c@),
                None => !self@.contains_key(pview(*p)) || self@[pview(*p)] is None,
            },
    {
        match self.find(p) {
            None => {
                proof {
                    lemma_absent(*self, pview(*p));
                }
                None
            },
            Some(i) => {
                proof {
                    lemma_entry_in_view(*self, i as int);
                }
                match &self.entries[i].node {
                    FsNode::Dir => None,
                    FsNode::File(c) => Some(dup_bytes(c)),
                }
            },
        }
    }

    fn any_with_prefix(&self, q: &Vec<Vec<u8>>) -> (b: bool)
        requires
            self.wf(),
        ensures
            b == occupied(self@, pview(*q)),
    {
        let n = self.entries.len();
        let mut i: usize = 0;
        while i < n
            invariant
                self.wf(),
                n == self.entries@.len(),
                0 <= i <= n,
                forall|j: int|
                    0 <= j < i ==> !path_has_prefix(
                        pview(#[trigger] self.entries@[j].path),
                        pview(*q),
                    ),
            decreases n - i,
        {
            if path_starts_with(&self.entries[i].path, q) {
                proof {
                    lemma_entry_in_view(*self, i as int);
                }
                return true;
            }
            i = i + 1;
        }
        proof {
            if occupied(self@, pview(*q)) {
                let p = choose|p: Seq<Seq<u8>>|
                    self@.contains_key(p) && path_has_prefix(p, pview(*q));
                let j = choose|j: int|
                    0 <= j < self.entries@.len() && pview(#[trigger] self.entries@[j].path) == p;
                assert(!path_has_prefix(pview(self.entries@[j].path), pview(*q)));
            }
        }
        false
    }

    /// Creates the directory chain `p`: every leading prefix of `p` that is
    /// absent becomes a directory. Fails, changing nothing, when a file
    /// already stands at one of those prefixes.
    pub fn create_dir_all(&mut self, p: &Vec<Vec<u8>>) -> (r: Result<(), FsError>)
        requires
            old(self).wf(),
        ensures
            final(self).wf(),
            r == mkdirs_result(old(self)@, pview(*p)),
            r is Ok ==> final(self)@ == mkdirs_map(old(self)@, pview(*p)),
            r is Err ==> final(self)@ == old(self)@ && *final(self) == *old(self),
    {
        let ghost m0 = self@;
        let ghost pv = pview(*p);
        let n = p.len();
        let mut t: usize = 0;
        while t < n
            invariant
                self.wf(),
                *self == *old(self),
                m0 == self@,
                pv == pview(*p),
                n == p@.len(),
                0 <= t <= n,
                forall|u: int|
                    1 <= u <= t && m0.contains_key(#[trigger] pv.take(u)) ==> m0[pv.take(u)] is None,
            decreases n - t,
        {
            let k = t + 1;
            let pre = path_take(p, k);
            match self.find(&pre) {
                Some(i) => {
                    proof {
                        lemma_entry_in_view(*self, i as int);
                    }
                    match &self.entries[i].node {
                        FsNode::File(_) => {
                            proof {
                                assert(m0.contains_key(pv.take(k as int))
                                    && !(m0[pv.take(k as int)] is None));
                            }
                            return Err(FsError::AlreadyExists);
                        },
                        FsNode::Dir => {},
                    }
                },
                None => {},
            }
            t = k;
        }
        proof {
            assert(mkdirs_ok(m0, pv));
            assert(mkdirs_upto(m0, pv, 0) =~= m0);
        }
        let mut t: usize = 0;
        while t < n
            invariant
                self.wf(),
                mkdirs_ok(m0, pv),
                pv == pview(*p),
                n == p@.len(),
                0 <= t <= n,
                self@ == mkdirs_upto(m0, pv, t as int),
            decreases n - t,
        {
            let k = t + 1;
            let pre = path_take(p, k);
            let ghost mcur = self@;
            match self.find(&pre) {
                Some(i) => {
                    proof {
                        lemma_entry_in_view(*self, i as int);
                        assert(mkdirs_upto(m0, pv, k as int) =~= mcur);
                    }
                },
                None => {
                    proof {
                        lemma_absent(*self, pview(pre));
                    }
                    let ghost pre_model = *self;
                    let e = FsEntry { path: pre, node: FsNode::Dir };
                    self.entries.push(e);
                    proof {
                        lemma_push_entry(pre_model, *self, e);
                        assert(mkdirs_upto(m0, pv, k as int) =~= mcur.insert(
                            pv.take(k as int),
                            None,
                        ));
                    }
                },
            }
            t = k;
        }
        proof {
            assert(mkdirs_upto(m0, pv, n as int) =~= mkdirs_map(m0, pv));
        }
        Ok(())
    }

    /// Adds a file at `p` with the given content, creating the parent
    /// directory chain. Fails, changing nothing, when `p` is empty, already
    /// present, or under a path where a file already stands.
    pub fn add_file(&mut self, p: &Vec<Vec<u8>>, content: &Vec<u8>) -> (r: Result<(), FsError>)
        requires
            old(self).wf(),
        ensures
            final(self).wf(),
            r == add_file_result(old(self)@, pview(*p)),
            r is Ok ==> final(self)@ == mkdirs_map(old(self)@, pview(*p).drop_last()).insert(
                pview(*p),
                Some(content@),
            ),
            r is Err ==> final(self)@ == old(self)@,
    {
        let ghost m0 = self@;
        let ghost pv = pview(*p);
        if p.len() == 0 {
            return Err(FsError::InvalidArgument);
        }
        if self.has_path(p) {
            return Err(FsError::AlreadyExists);
        }
        let parent = path_take(p, p.len() - 1);
        proof {
            assert(pview(parent) =~= pv.drop_last());
        }
        match self.create_dir_all(&parent) {
            Err(e) => Err(e),
            Ok(()) => {
                let ghost pre_model = *self;
                let e = FsEntry { path: dup_path(p), node: FsNode::File(dup_bytes(content)) };
                proof {
                    if self@.contains_key(pv) {
                        assert(m0.contains_key(pv) || (1 <= pv.len() <= pv.drop_last().len()
                            && pv == pv.drop_last().take(pv.len() as int)));
                    }
                }
                self.entries.push(e);
                proof {
                    lemma_push_entry(pre_model, *self, e);
                }
                Ok(())
            },
        }
    }

    /// How many entries the model holds.
    pub fn entry_count(&self) -> (n: usize)
        ensures
            n == self.eseq().len(),
    {
        self.entries.len()
    }

    /// The path of entry `i`.
    pub fn entry_path(&self, i: usize) -> (r: Vec<Vec<u8>>)
        requires
            i < self.eseq().len(),
        ensures
            pview(r) == self.eseq()[i as int].0,
    {
        dup_path(&self.entries[i].path)
    }

    /// The content of entry `i` where it is a file, `None` where it is a
    /// directory.
    pub fn entry_file(&self, i: usize) -> (r: Option<Vec<u8>>)
        requires
            i < self.eseq().len(),
        ensures
            match r {
                Some(c) => self.eseq()[i as int].1 == Some(c@),
                None => self.eseq()[i as int].1 is None,
            },
    {
        match &self.entries[i].node {
            FsNode::Dir => None,
            FsNode::File(c) => Some(dup_bytes(c)),
        }
    }

    /// Moves the whole subtree at `from` (that node and every path under it)
    /// to `to`, atomically. Fails, changing nothing, when `from` is absent,
    /// when any path starting with `to` is already present, or when `to` lies
    /// inside `from`.
    pub fn rename_tree(&mut self, from: &Vec<Vec<u8>>, to: &Vec<Vec<u8>>) -> (r: Result<
        (),
        FsError,
    >)
        requires
            old(self).wf(),
        ensures
            final(self).wf(),
            r == rename_result(old(self)@, pview(*from), pview(*to)),
            r is Ok ==> final(self)@ == rename_map(old(self)@, pview(*from), pview(*to)),
            r is Err ==> *final(self) == *old(self),
    {
        let ghost m0 = self@;
        let ghost fromv = pview(*from);
        let ghost tov = pview(*to);
        if !self.has_path(from) {
            return Err(FsError::NotFound);
        }
        if self.any_with_prefix(to) {
            return Err(FsError::AlreadyExists);
        }
        if path_starts_with(to, from) {
            return Err(FsError::InvalidArgument);
        }
        let n = self.entries.len();
        let mut out: Vec<FsEntry> = Vec::new();
        let mut i: usize = 0;
        while i < n
            invariant
                self.wf(),
                *self == *old(self),
                m0 == self@,
                fromv == pview(*from),
                tov == pview(*to),
                n == self.entries@.len(),
                0 <= i <= n,
                out@.len() == i,
                forall|j: int|
                    0 <= j < i ==> ev(#[trigger] out@[j]) == rekey_ev(
                        ev(self.entries@[j]),
                        fromv,
                        tov,
                    ),
            decreases n - i,
        {
            let prefixed = path_starts_with(&self.entries[i].path, from);
            let np = if prefixed {
                path_rebase(&self.entries[i].path, from.len(), to)
            } else {
                dup_path(&self.entries[i].path)
            };
            let node = dup_node(&self.entries[i].node);
            out.push(FsEntry { path: np, node });
            i = i + 1;
        }
        let ghost pre_model = *self;
        self.entries = out;
        proof {
            lemma_rename_rebuild(pre_model, *self, fromv, tov);
        }
        Ok(())
    }

    /// Deletes the whole subtree at `p`: that node and every path under it.
    /// Fails, changing nothing, when `p` is absent.
    pub fn remove_tree(&mut self, p: &Vec<Vec<u8>>) -> (r: Result<(), FsError>)
        requires
            old(self).wf(),
        ensures
            final(self).wf(),
            r == remove_result(old(self)@, pview(*p)),
            r is Ok ==> final(self)@ == remove_map(old(self)@, pview(*p)),
            r is Err ==> *final(self) == *old(self),
    {
        let ghost m0 = self@;
        let ghost pv = pview(*p);
        if !self.has_path(p) {
            return Err(FsError::NotFound);
        }
        let n = self.entries.len();
        let mut out: Vec<FsEntry> = Vec::new();
        let ghost mut src: Seq<int> = Seq::empty();
        let mut i: usize = 0;
        while i < n
            invariant
                self.wf(),
                *self == *old(self),
                m0 == self@,
                pv == pview(*p),
                n == self.entries@.len(),
                0 <= i <= n,
                src.len() == out@.len(),
                forall|j: int| 0 <= j < src.len() ==> 0 <= #[trigger] src[j] < i,
                forall|j1: int, j2: int| 0 <= j1 < j2 < src.len() ==> src[j1] < src[j2],
                forall|j: int|
                    0 <= j < src.len() ==> ev(#[trigger] out@[j]) == ev(self.entries@[src[j]])
                        && !path_has_prefix(ev(out@[j]).0, pv),
                forall|t: int|
                    0 <= t < i && !path_has_prefix(pview(#[trigger] self.entries@[t].path), pv)
                        ==> exists|j: int| 0 <= j < src.len() && #[trigger] src[j] == t,
            decreases n - i,
        {
            if !path_starts_with(&self.entries[i].path, p) {
                let np = dup_path(&self.entries[i].path);
                let node = dup_node(&self.entries[i].node);
                out.push(FsEntry { path: np, node });
                proof {
                    let src0 = src;
                    src = src.push(i as int);
                    assert(src[src.len() - 1] == i as int);
                    assert forall|t: int|
                        0 <= t < i + 1 && !path_has_prefix(
                            pview(#[trigger] self.entries@[t].path),
                            pv,
                        ) implies exists|j: int| 0 <= j < src.len() && #[trigger] src[j] == t by {
                        if t < i {
                            let j0 = choose|j0: int|
                                0 <= j0 < src0.len() && #[trigger] src0[j0] == t;
                            assert(src[j0] == t);
                        } else {
                            assert(src[src.len() - 1] == t);
                        }
                    }
                }
            }
            i = i + 1;
        }
        let ghost pre_model = *self;
        self.entries = out;
        proof {
            lemma_remove_rebuild(pre_model, *self, src, pv);
        }
        Ok(())
    }
}

fn dup_node(n: &FsNode) -> (r: FsNode)
    ensures
        nview(r) == nview(*n),
{
    match n {
        FsNode::Dir => FsNode::Dir,
        FsNode::File(c) => FsNode::File(dup_bytes(c)),
    }
}

/// Some present path starts with `q`: the place is occupied.
pub open spec fn occupied(m: Map<Seq<Seq<u8>>, Option<Seq<u8>>>, q: Seq<Seq<u8>>) -> bool {
    exists|p: Seq<Seq<u8>>| m.contains_key(p) && path_has_prefix(p, q)
}

/// Every leading prefix of `p` that is present is a directory, so the chain
/// can be created.
pub open spec fn mkdirs_ok(m: Map<Seq<Seq<u8>>, Option<Seq<u8>>>, p: Seq<Seq<u8>>) -> bool {
    forall|k: int| 1 <= k <= p.len() && m.contains_key(#[trigger] p.take(k)) ==> m[p.take(k)] is None
}

pub open spec fn mkdirs_result(m: Map<Seq<Seq<u8>>, Option<Seq<u8>>>, p: Seq<Seq<u8>>) -> Result<
    (),
    FsError,
> {
    if mkdirs_ok(m, p) {
        Ok(())
    } else {
        Err(FsError::AlreadyExists)
    }
}

/// The map after creating the first `k` prefixes of the chain `p`.
pub open spec fn mkdirs_upto(
    m: Map<Seq<Seq<u8>>, Option<Seq<u8>>>,
    p: Seq<Seq<u8>>,
    k: int,
) -> Map<Seq<Seq<u8>>, Option<Seq<u8>>> {
    Map::new(
        |q: Seq<Seq<u8>>|
            m.contains_key(q) || (1 <= q.len() <= k && q.len() <= p.len() && q == p.take(
                q.len() as int,
            )),
        |q: Seq<Seq<u8>>|
            if m.contains_key(q) {
                m[q]
            } else {
                None
            },
    )
}

/// The map after creating the whole directory chain `p`.
pub open spec fn mkdirs_map(
    m: Map<Seq<Seq<u8>>, Option<Seq<u8>>>,
    p: Seq<Seq<u8>>,
) -> Map<Seq<Seq<u8>>, Option<Seq<u8>>> {
    mkdirs_upto(m, p, p.len() as int)
}

pub open spec fn add_file_result(m: Map<Seq<Seq<u8>>, Option<Seq<u8>>>, p: Seq<Seq<u8>>) -> Result<
    (),
    FsError,
> {
    if p.len() == 0 {
        Err(FsError::InvalidArgument)
    } else if m.contains_key(p) {
        Err(FsError::AlreadyExists)
    } else if !mkdirs_ok(m, p.drop_last()) {
        Err(FsError::AlreadyExists)
    } else {
        Ok(())
    }
}

pub open spec fn rename_result(
    m: Map<Seq<Seq<u8>>, Option<Seq<u8>>>,
    from: Seq<Seq<u8>>,
    to: Seq<Seq<u8>>,
) -> Result<(), FsError> {
    if !m.contains_key(from) {
        Err(FsError::NotFound)
    } else if occupied(m, to) {
        Err(FsError::AlreadyExists)
    } else if path_has_prefix(to, from) {
        Err(FsError::InvalidArgument)
    } else {
        Ok(())
    }
}

/// The map after the subtree at `from` has moved to `to`: a path under `to`
/// holds what the matching path under `from` held, every path under `from` is
/// gone, and all others are untouched.
pub open spec fn rename_map(
    m: Map<Seq<Seq<u8>>, Option<Seq<u8>>>,
    from: Seq<Seq<u8>>,
    to: Seq<Seq<u8>>,
) -> Map<Seq<Seq<u8>>, Option<Seq<u8>>> {
    Map::new(
        |q: Seq<Seq<u8>>|
            (path_has_prefix(q, to) && m.contains_key(from + q.skip(to.len() as int))) || (
            m.contains_key(q) && !path_has_prefix(q, from)),
        |q: Seq<Seq<u8>>|
            if path_has_prefix(q, to) && m.contains_key(from + q.skip(to.len() as int)) {
                m[from + q.skip(to.len() as int)]
            } else {
                m[q]
            },
    )
}

pub open spec fn remove_result(m: Map<Seq<Seq<u8>>, Option<Seq<u8>>>, p: Seq<Seq<u8>>) -> Result<
    (),
    FsError,
> {
    if m.contains_key(p) {
        Ok(())
    } else {
        Err(FsError::NotFound)
    }
}

/// The map with every path that starts with `p` taken out.
pub open spec fn remove_map(
    m: Map<Seq<Seq<u8>>, Option<Seq<u8>>>,
    p: Seq<Seq<u8>>,
) -> Map<Seq<Seq<u8>>, Option<Seq<u8>>> {
    Map::new(|q: Seq<Seq<u8>>| m.contains_key(q) && !path_has_prefix(q, p), |q: Seq<Seq<u8>>| m[q])
}

/// An entry view with its path re-rooted from `from` to `to`, where it
/// applies.
pub open spec fn rekey_ev(
    t: (Seq<Seq<u8>>, Option<Seq<u8>>),
    from: Seq<Seq<u8>>,
    to: Seq<Seq<u8>>,
) -> (Seq<Seq<u8>>, Option<Seq<u8>>) {
    if path_has_prefix(t.0, from) {
        (to + t.0.skip(from.len() as int), t.1)
    } else {
        t
    }
}

/// A path that no entry carries is not in the view.
proof fn lemma_absent(m: FsModel, q: Seq<Seq<u8>>)
    requires
        forall|i: int| 0 <= i < m.entries@.len() ==> pview(#[trigger] m.entries@[i].path) != q,
    ensures
        !m@.contains_key(q),
{
    if m@.contains_key(q) {
        let i = choose|i: int|
            0 <= i < m.entries@.len() && pview(#[trigger] m.entries@[i].path) == q;
        assert(pview(m.entries@[i].path) != q);
    }
}

/// Each entry of a well-formed model is in its map view, with its node.
proof fn lemma_entry_in_view(m: FsModel, i: int)
    requires
        m.wf(),
        0 <= i < m.eseq().len(),
    ensures
        m@.contains_key(m.eseq()[i].0),
        m@[m.eseq()[i].0] == m.eseq()[i].1,
        m.eseq()[i].0 == pview(m.entries@[i].path),
        m.eseq()[i].1 == nview(m.entries@[i].node),
{
    let p = pview(m.entries@[i].path);
    assert(m@.contains_key(p));
    let j = choose|j: int| 0 <= j < m.entries@.len() && pview(#[trigger] m.entries@[j].path) == p;
    if i < j {
        assert(pview(m.entries@[i].path) != pview(m.entries@[j].path));
    } else if j < i {
        assert(pview(m.entries@[j].path) != pview(m.entries@[i].path));
    }
}

/// Pushing an entry whose path is fresh keeps the model well formed and
/// inserts one binding into the view.
proof fn lemma_push_entry(m0: FsModel, m1: FsModel, e: FsEntry)
    requires
        m0.wf(),
        m1.entries@ == m0.entries@.push(e),
        !m0@.contains_key(pview(e.path)),
    ensures
        m1.wf(),
        m1@ == m0@.insert(pview(e.path), nview(e.node)),
        m1.eseq() == m0.eseq().push(ev(e)),
{
    let n = m0.entries@.len();
    let pe = pview(e.path);
    assert forall|i: int, j: int| 0 <= i < j < m1.entries@.len() implies pview(
        #[trigger] m1.entries@[i].path,
    ) != pview(#[trigger] m1.entries@[j].path) by {
        if j < n {
            assert(m1.entries@[i] == m0.entries@[i]);
            assert(m1.entries@[j] == m0.entries@[j]);
        } else {
            assert(m1.entries@[j] == e);
            assert(m1.entries@[i] == m0.entries@[i]);
            if pview(m0.entries@[i].path) == pe {
                assert(m0@.contains_key(pe));
            }
        }
    }
    assert forall|q: Seq<Seq<u8>>| #[trigger]
        m1@.contains_key(q) == m0@.insert(pe, nview(e.node)).contains_key(q) by {
        if m1@.contains_key(q) {
            let i = choose|i: int|
                0 <= i < m1.entries@.len() && pview(#[trigger] m1.entries@[i].path) == q;
            if i < n {
                assert(m0@.contains_key(q));
            }
        }
        if m0@.contains_key(q) {
            let i = choose|i: int|
                0 <= i < m0.entries@.len() && pview(#[trigger] m0.entries@[i].path) == q;
            assert(m1.entries@[i] == m0.entries@[i]);
            assert(m1@.contains_key(q));
        }
        if q == pe {
            assert(pview(m1.entries@[n as int].path) == q);
            assert(m1@.contains_key(q));
        }
    }
    assert forall|q: Seq<Seq<u8>>| m1@.contains_key(q) implies m1@[q] == m0@.insert(
        pe,
        nview(e.node),
    )[q] by {
        let i = choose|i: int|
            0 <= i < m1.entries@.len() && pview(#[trigger] m1.entries@[i].path) == q;
        lemma_entry_in_view(m1, i);
        if q == pe {
            if i < n {
                assert(m0@.contains_key(pe));
            }
            assert(m1@[q] == nview(e.node));
        } else {
            assert(i < n);
            assert(m0.entries@[i] == m1.entries@[i]);
            lemma_entry_in_view(m0, i);
        }
    }
    assert(m1@ =~= m0@.insert(pe, nview(e.node)));
    assert(m1.eseq() =~= m0.eseq().push(ev(e)));
}

/// The entry sequence and the map view list the same tree: every entry is a
/// binding of the view, every binding appears as an entry, and no path
/// appears twice.
pub proof fn lemma_eseq_view(m: FsModel)
    requires
        m.wf(),
    ensures
        forall|i: int|
            0 <= i < m.eseq().len() ==> m@.contains_key(#[trigger] m.eseq()[i].0)
                && m@[m.eseq()[i].0] == m.eseq()[i].1,
        forall|q: Seq<Seq<u8>>| #[trigger]
            m@.contains_key(q) ==> exists|i: int|
                0 <= i < m.eseq().len() && m.eseq()[i] == (q, m@[q]),
        forall|i: int, j: int| 0 <= i < j < m.eseq().len() ==> m.eseq()[i].0 != m.eseq()[j].0,
{
    assert forall|i: int| 0 <= i < m.eseq().len() implies m@.contains_key(#[trigger] m.eseq()[i].0)
        && m@[m.eseq()[i].0] == m.eseq()[i].1 by {
        lemma_entry_in_view(m, i);
    }
    assert forall|q: Seq<Seq<u8>>| #[trigger] m@.contains_key(q) implies exists|i: int|
        0 <= i < m.eseq().len() && m.eseq()[i] == (q, m@[q]) by {
        let i = choose|i: int|
            0 <= i < m.entries@.len() && pview(#[trigger] m.entries@[i].path) == q;
        lemma_entry_in_view(m, i);
        assert(m.eseq()[i] == (q, m@[q]));
    }
}

/// Rewriting each entry path from `from` to `to` realizes `rename_map` on
/// the view, provided the source is present, no path sits under `to`, and
/// `to` does not lie inside `from`.
proof fn lemma_rename_rebuild(m0: FsModel, m1: FsModel, fromv: Seq<Seq<u8>>, tov: Seq<Seq<u8>>)
    requires
        m0.wf(),
        m0@.contains_key(fromv),
        !occupied(m0@, tov),
        !path_has_prefix(tov, fromv),
        m1.entries@.len() == m0.entries@.len(),
        forall|j: int|
            0 <= j < m0.entries@.len() ==> ev(#[trigger] m1.entries@[j]) == rekey_ev(
                ev(m0.entries@[j]),
                fromv,
                tov,
            ),
    ensures
        m1.wf(),
        m1@ == rename_map(m0@, fromv, tov),
{
    let n = m0.entries@.len();
    let f = fromv.len() as int;
    let t = tov.len() as int;
    assert forall|i: int, j: int| 0 <= i < j < n implies pview(
        #[trigger] m1.entries@[i].path,
    ) != pview(#[trigger] m1.entries@[j].path) by {
        let pi = pview(m0.entries@[i].path);
        let pj = pview(m0.entries@[j].path);
        assert(pi != pj);
        assert(pview(m1.entries@[i].path) == rekey_ev(ev(m0.entries@[i]), fromv, tov).0);
        assert(pview(m1.entries@[j].path) == rekey_ev(ev(m0.entries@[j]), fromv, tov).0);
        if path_has_prefix(pi, fromv) && path_has_prefix(pj, fromv) {
            if tov + pi.skip(f) == tov + pj.skip(f) {
                assert(pi.skip(f) =~= (tov + pi.skip(f)).skip(t));
                assert(pj.skip(f) =~= (tov + pj.skip(f)).skip(t));
                assert(pi =~= pi.take(f) + pi.skip(f));
                assert(pj =~= pj.take(f) + pj.skip(f));
            }
        } else if path_has_prefix(pi, fromv) {
            if tov + pi.skip(f) == pj {
                lemma_entry_in_view(m0, j);
                assert((tov + pi.skip(f)).take(t) =~= tov);
                assert(path_has_prefix(pj, tov));
                assert(occupied(m0@, tov));
            }
        } else if path_has_prefix(pj, fromv) {
            if tov + pj.skip(f) == pi {
                lemma_entry_in_view(m0, i);
                assert((tov + pj.skip(f)).take(t) =~= tov);
                assert(path_has_prefix(pi, tov));
                assert(occupied(m0@, tov));
            }
        }
    }
    let rm = rename_map(m0@, fromv, tov);
    assert forall|q: Seq<Seq<u8>>| #[trigger] m1@.contains_key(q) implies rm.contains_key(q)
        && m1@[q] == rm[q] by {
        let i = choose|i: int|
            0 <= i < m1.entries@.len() && pview(#[trigger] m1.entries@[i].path) == q;
        lemma_entry_in_view(m1, i);
        lemma_entry_in_view(m0, i);
        let p0 = pview(m0.entries@[i].path);
        if path_has_prefix(p0, fromv) {
            assert(q == tov + p0.skip(f));
            assert(q.skip(t) =~= p0.skip(f));
            assert(fromv + q.skip(t) =~= p0.take(f) + p0.skip(f));
            assert(p0.take(f) + p0.skip(f) =~= p0);
            assert(q.take(t) =~= tov);
            assert(path_has_prefix(q, tov));
            assert(rm.contains_key(q));
            assert(m1@[q] == nview(m1.entries@[i].node));
            assert(nview(m1.entries@[i].node) == ev(m0.entries@[i]).1);
            assert(rm[q] == m0@[p0]);
        } else {
            assert(q == p0);
            if path_has_prefix(q, tov) {
                assert(occupied(m0@, tov));
            }
            assert(rm.contains_key(q));
            assert(rm[q] == m0@[q]);
        }
    }
    assert forall|q: Seq<Seq<u8>>| #[trigger] rm.contains_key(q) implies m1@.contains_key(q) by {
        if path_has_prefix(q, tov) && m0@.contains_key(fromv + q.skip(t)) {
            let p0 = fromv + q.skip(t);
            let i = choose|i: int|
                0 <= i < m0.entries@.len() && pview(#[trigger] m0.entries@[i].path) == p0;
            assert(p0.take(f) =~= fromv);
            assert(path_has_prefix(p0, fromv));
            assert(pview(m1.entries@[i].path) == tov + p0.skip(f));
            assert(p0.skip(f) =~= q.skip(t));
            assert(tov + q.skip(t) =~= q);
            assert(pview(m1.entries@[i].path) == q);
        } else {
            let i = choose|i: int|
                0 <= i < m0.entries@.len() && pview(#[trigger] m0.entries@[i].path) == q;
            assert(pview(m1.entries@[i].path) == q);
        }
    }
    assert(m1@ =~= rm);
}

/// Keeping exactly the entries whose paths do not start with `pv`, in order,
/// realizes `remove_map` on the view. `src` names, for each kept entry, the
/// entry it came from.
proof fn lemma_remove_rebuild(m0: FsModel, m1: FsModel, src: Seq<int>, pv: Seq<Seq<u8>>)
    requires
        m0.wf(),
        m1.entries@.len() == src.len(),
        forall|j: int| 0 <= j < src.len() ==> 0 <= #[trigger] src[j] < m0.entries@.len(),
        forall|j1: int, j2: int| 0 <= j1 < j2 < src.len() ==> src[j1] < src[j2],
        forall|j: int|
            0 <= j < src.len() ==> ev(#[trigger] m1.entries@[j]) == ev(m0.entries@[src[j]])
                && !path_has_prefix(ev(m1.entries@[j]).0, pv),
        forall|t: int|
            0 <= t < m0.entries@.len() && !path_has_prefix(
                pview(#[trigger] m0.entries@[t].path),
                pv,
            ) ==> exists|j: int| 0 <= j < src.len() && #[trigger] src[j] == t,
    ensures
        m1.wf(),
        m1@ == remove_map(m0@, pv),
{
    assert forall|j1: int, j2: int| 0 <= j1 < j2 < m1.entries@.len() implies pview(
        #[trigger] m1.entries@[j1].path,
    ) != pview(#[trigger] m1.entries@[j2].path) by {
        assert(src[j1] < src[j2]);
        assert(ev(m1.entries@[j1]) == ev(m0.entries@[src[j1]]));
        assert(ev(m1.entries@[j2]) == ev(m0.entries@[src[j2]]));
        assert(pview(m0.entries@[src[j1]].path) != pview(m0.entries@[src[j2]].path));
    }
    let rm = remove_map(m0@, pv);
    assert forall|q: Seq<Seq<u8>>| #[trigger] m1@.contains_key(q) implies rm.contains_key(q)
        && m1@[q] == rm[q] by {
        let j = choose|j: int|
            0 <= j < m1.entries@.len() && pview(#[trigger] m1.entries@[j].path) == q;
        lemma_entry_in_view(m1, j);
        lemma_entry_in_view(m0, src[j]);
        assert(ev(m1.entries@[j]) == ev(m0.entries@[src[j]]));
        assert(m0@.contains_key(q) && m0@[q] == nview(m1.entries@[j].node));
    }
    assert forall|q: Seq<Seq<u8>>| #[trigger] rm.contains_key(q) implies m1@.contains_key(q) by {
        let t = choose|t: int|
            0 <= t < m0.entries@.len() && pview(#[trigger] m0.entries@[t].path) == q;
        assert(!path_has_prefix(pview(m0.entries@[t].path), pv));
        let j = choose|j: int| 0 <= j < src.len() && #[trigger] src[j] == t;
        assert(ev(m1.entries@[j]) == ev(m0.entries@[t]));
        assert(pview(m1.entries@[j].path) == q);
    }
    assert(m1@ =~= rm);
}

} // verus!
