use vstd::prelude::*;

use crate::fsmodel::lemma_eseq_view;
use crate::fsmodel::FsError;
use crate::fsmodel::FsModel;
use crate::paths::path_has_prefix;
use crate::paths::path_starts_with;
use crate::paths::pview;

verus! {

/// A walk error: which file the handler refused, and why.
#[derive(Debug)]
pub struct WalkError {
    pub kind: FsError,
    pub path: Vec<Vec<u8>>,
}

/// The outcome a handler asks for on one file: the file's path afterwards
/// (the same path when the file keeps its name) and its content afterwards.
#[derive(Debug)]
pub struct FileUpdate {
    pub path: Vec<Vec<u8>>,
    pub content: Vec<u8>,
}

/// What a caller hands the walker: a per-file rewrite. The two spec
/// functions say, for every file, whether the handler accepts it and what it
/// turns the file into; `visit` must behave as they say.
pub trait FileHandler: Sized {
    spec fn succeeds(&self, path: Seq<Seq<u8>>, content: Seq<u8>) -> bool;

    spec fn new_path(&self, path: Seq<Seq<u8>>, content: Seq<u8>) -> Seq<Seq<u8>>;

    spec fn new_content(&self, path: Seq<Seq<u8>>, content: Seq<u8>) -> Seq<u8>;

    fn visit(&self, path: &Vec<Vec<u8>>, content: &Vec<u8>) -> (r: Result<FileUpdate, FsError>)
        ensures
            r is Ok <==> self.succeeds(pview(*path), content@),
            r matches Ok(u) ==> pview(u.path) == self.new_path(pview(*path), content@)
                && u.content@ == self.new_content(pview(*path), content@),
    ;
}

/// What one entry contributes to a walk under `root`: its path and content
/// when it is a file strictly under `root`, nothing otherwise — directories
/// are never visited, nor is `root` itself.
pub open spec fn file_item(
    e: (Seq<Seq<u8>>, Option<Seq<u8>>),
    root: Seq<Seq<u8>>,
) -> Seq<(Seq<Seq<u8>>, Seq<u8>)> {
    if path_has_prefix(e.0, root) && e.0.len() > root.len() && e.1 is Some {
        seq![(e.0, e.1.unwrap())]
    } else {
        Seq::empty()
    }
}

/// The files strictly under `root`, in entry order: the traversal order of a
/// walk.
pub open spec fn files_under(
    es: Seq<(Seq<Seq<u8>>, Option<Seq<u8>>)>,
    root: Seq<Seq<u8>>,
) -> Seq<(Seq<Seq<u8>>, Seq<u8>)>
    decreases es.len(),
{
    if es.len() == 0 {
        Seq::empty()
    } else {
        file_item(es[0], root) + files_under(es.skip(1), root)
    }
}

/// A walk can be cut at any point: the files under `root` are those among
/// the first `i` entries followed by those among the rest.
pub proof fn lemma_files_under_split(
    es: Seq<(Seq<Seq<u8>>, Option<Seq<u8>>)>,
    root: Seq<Seq<u8>>,
    i: int,
)
    requires
        0 <= i <= es.len(),
    ensures
        files_under(es, root) == files_under(es.take(i), root) + files_under(es.skip(i), root),
    decreases i,
{
    if i == 0 {
        assert(es.take(0) =~= Seq::<(Seq<Seq<u8>>, Option<Seq<u8>>)>::empty());
        assert(es.skip(0) =~= es);
        assert(files_under(es.take(0), root) + files_under(es, root) =~= files_under(es, root));
    } else {
        lemma_files_under_split(es.skip(1), root, i - 1);
        assert(es.take(i).skip(1) =~= es.skip(1).take(i - 1));
        assert(es.skip(i) =~= es.skip(1).skip(i - 1));
        assert(es.take(i)[0] == es[0]);
        assert(files_under(es, root) =~= files_under(es.take(i), root) + files_under(
            es.skip(i),
            root,
        ));
    }
}

/// Appending one entry to a walked prefix appends that entry's contribution.
pub proof fn lemma_files_under_snoc(
    es: Seq<(Seq<Seq<u8>>, Option<Seq<u8>>)>,
    root: Seq<Seq<u8>>,
    i: int,
)
    requires
        0 <= i < es.len(),
    ensures
        files_under(es.take(i + 1), root) == files_under(es.take(i), root) + file_item(es[i], root),
{
    let pre = es.take(i + 1);
    lemma_files_under_split(pre, root, i);
    assert(pre.take(i) =~= es.take(i));
    assert(pre.skip(i) =~= seq![es[i]]);
    assert(seq![es[i]].skip(1) =~= Seq::<(Seq<Seq<u8>>, Option<Seq<u8>>)>::empty());
    assert(files_under(Seq::<(Seq<Seq<u8>>, Option<Seq<u8>>)>::empty(), root) == Seq::<
        (Seq<Seq<u8>>, Seq<u8>),
    >::empty());
    assert(seq![es[i]][0] == es[i]);
    assert(files_under(seq![es[i]], root) == file_item(es[i], root) + files_under(
        seq![es[i]].skip(1),
        root,
    ));
    assert(files_under(seq![es[i]], root) =~= file_item(es[i], root));
}

/// Whether an entry is a file strictly under `root`.
pub open spec fn is_file_under(e: (Seq<Seq<u8>>, Option<Seq<u8>>), root: Seq<Seq<u8>>) -> bool {
    path_has_prefix(e.0, root) && e.0.len() > root.len() && e.1 is Some
}

proof fn lemma_files_under_sub(es: Seq<(Seq<Seq<u8>>, Option<Seq<u8>>)>, root: Seq<Seq<u8>>)
    ensures
        forall|k: int|
            0 <= k < files_under(es, root).len() ==> exists|i: int|
                0 <= i < es.len() && #[trigger] es[i] == (
                    (#[trigger] files_under(es, root)[k]).0,
                    Some(files_under(es, root)[k].1),
                ) && is_file_under(es[i], root),
    decreases es.len(),
{
    if es.len() == 0 {
    } else {
        lemma_files_under_sub(es.skip(1), root);
        let head = file_item(es[0], root);
        let rest = files_under(es.skip(1), root);
        assert forall|k: int| 0 <= k < files_under(es, root).len() implies exists|i: int|
            0 <= i < es.len() && #[trigger] es[i] == (
                (#[trigger] files_under(es, root)[k]).0,
                Some(files_under(es, root)[k].1),
            ) && is_file_under(es[i], root) by {
            if k < head.len() {
                assert(files_under(es, root)[k] == (es[0].0, es[0].1.unwrap()));
                assert(es[0] == (files_under(es, root)[k].0, Some(files_under(es, root)[k].1)));
            } else {
                assert(files_under(es, root)[k] == rest[k - head.len()]);
                let i0 = choose|i0: int|
                    0 <= i0 < es.skip(1).len() && #[trigger] es.skip(1)[i0] == (
                        rest[k - head.len()].0,
                        Some(rest[k - head.len()].1),
                    ) && is_file_under(es.skip(1)[i0], root);
                assert(es[i0 + 1] == es.skip(1)[i0]);
            }
        }
    }
}

proof fn lemma_files_under_all(es: Seq<(Seq<Seq<u8>>, Option<Seq<u8>>)>, root: Seq<Seq<u8>>)
    ensures
        forall|i: int|
            0 <= i < es.len() && is_file_under(#[trigger] es[i], root) ==> exists|k: int|
                0 <= k < files_under(es, root).len() && #[trigger] files_under(es, root)[k] == (
                    es[i].0,
                    es[i].1.unwrap(),
                ),
    decreases es.len(),
{
    if es.len() == 0 {
    } else {
        lemma_files_under_all(es.skip(1), root);
        let head = file_item(es[0], root);
        let rest = files_under(es.skip(1), root);
        assert forall|i: int|
            0 <= i < es.len() && is_file_under(#[trigger] es[i], root) implies exists|k: int|
            0 <= k < files_under(es, root).len() && #[trigger] files_under(es, root)[k] == (
                es[i].0,
                es[i].1.unwrap(),
            ) by {
            if i == 0 {
                assert(files_under(es, root)[0] == (es[0].0, es[0].1.unwrap()));
            } else {
                assert(es.skip(1)[i - 1] == es[i]);
                let k0 = choose|k0: int|
                    0 <= k0 < rest.len() && #[trigger] rest[k0] == (
                        es.skip(1)[i - 1].0,
                        es.skip(1)[i - 1].1.unwrap(),
                    );
                assert(files_under(es, root)[k0 + head.len()] == rest[k0]);
            }
        }
    }
}

/// Walker completeness over the whole tree: the walk's file list holds
/// exactly the files of the tree that lie strictly under `root` — never a
/// directory, never `root` itself — and each of them exactly once, with its
/// content.
pub proof fn lemma_walk_complete(m: FsModel, root: Seq<Seq<u8>>)
    requires
        m.wf(),
    ensures
        forall|k: int|
            0 <= k < files_under(m.eseq(), root).len() ==> {
                let f = #[trigger] files_under(m.eseq(), root)[k];
                &&& m@.contains_key(f.0)
                &&& m@[f.0] == Some(f.1)
                &&& path_has_prefix(f.0, root)
                &&& f.0.len() > root.len()
            },
        forall|q: Seq<Seq<u8>>|
            #[trigger] m@.contains_key(q) && path_has_prefix(q, root) && q.len() > root.len()
                && m@[q] is Some ==> exists|k: int|
                0 <= k < files_under(m.eseq(), root).len() && #[trigger] files_under(
                    m.eseq(),
                    root,
                )[k] == (q, m@[q].unwrap()),
        forall|k1: int, k2: int|
            0 <= k1 < k2 < files_under(m.eseq(), root).len() ==> files_under(m.eseq(), root)[k1].0
                != files_under(m.eseq(), root)[k2].0,
{
    let es = m.eseq();
    let files = files_under(es, root);
    lemma_eseq_view(m);
    lemma_files_under_sub(es, root);
    lemma_files_under_all(es, root);
    assert forall|k: int| 0 <= k < files.len() implies {
        let f = #[trigger] files[k];
        &&& m@.contains_key(f.0)
        &&& m@[f.0] == Some(f.1)
        &&& path_has_prefix(f.0, root)
        &&& f.0.len() > root.len()
    } by {
        let i = choose|i: int|
            0 <= i < es.len() && #[trigger] es[i] == (files[k].0, Some(files[k].1))
                && is_file_under(es[i], root);
        assert(m@.contains_key(es[i].0) && m@[es[i].0] == es[i].1);
    }
    assert forall|q: Seq<Seq<u8>>|
        #[trigger] m@.contains_key(q) && path_has_prefix(q, root) && q.len() > root.len()
            && m@[q] is Some implies exists|k: int|
        0 <= k < files.len() && #[trigger] files[k] == (q, m@[q].unwrap()) by {
        let i = choose|i: int| 0 <= i < es.len() && #[trigger] es[i] == (q, m@[q]);
        assert(is_file_under(es[i], root));
        let k = choose|k: int|
            0 <= k < files.len() && #[trigger] files[k] == (es[i].0, es[i].1.unwrap());
        assert(files[k] == (q, m@[q].unwrap()));
    }
    assert forall|k1: int, k2: int| 0 <= k1 < k2 < files.len() implies files[k1].0
        != files[k2].0 by {
        let i1 = choose|i1: int|
            0 <= i1 < es.len() && #[trigger] es[i1] == (files[k1].0, Some(files[k1].1))
                && is_file_under(es[i1], root);
        let i2 = choose|i2: int|
            0 <= i2 < es.len() && #[trigger] es[i2] == (files[k2].0, Some(files[k2].1))
                && is_file_under(es[i2], root);
        if files[k1].0 == files[k2].0 {
            if i1 < i2 {
                assert(es[i1].0 != es[i2].0);
            } else if i2 < i1 {
                assert(es[i2].0 != es[i1].0);
            } else {
                assert(es[i1].1 == es[i2].1);
                lemma_files_under_count(es, root, i1, k1, k2);
            }
        }
    }
}

/// One entry contributes at most one item to a walk: two positions of the
/// file list that stand for the same entry are the same position.
proof fn lemma_files_under_count(
    es: Seq<(Seq<Seq<u8>>, Option<Seq<u8>>)>,
    root: Seq<Seq<u8>>,
    i: int,
    k1: int,
    k2: int,
)
    requires
        0 <= i < es.len(),
        forall|i1: int, i2: int| 0 <= i1 < i2 < es.len() ==> es[i1].0 != es[i2].0,
        0 <= k1 < files_under(es, root).len(),
        0 <= k2 < files_under(es, root).len(),
        files_under(es, root)[k1] == (es[i].0, es[i].1.unwrap()),
        files_under(es, root)[k2] == (es[i].0, es[i].1.unwrap()),
    ensures
        k1 == k2,
    decreases es.len(),
{
    let head = file_item(es[0], root);
    let rest = files_under(es.skip(1), root);
    lemma_files_under_sub(es.skip(1), root);
    if k1 < head.len() && k2 < head.len() {
        assert(k1 == 0 && k2 == 0);
    } else if k1 < head.len() {
        assert(files_under(es, root)[k1] == (es[0].0, es[0].1.unwrap()));
        assert(files_under(es, root)[k2] == rest[k2 - head.len()]);
        let j = choose|j: int|
            0 <= j < es.skip(1).len() && #[trigger] es.skip(1)[j] == (
                rest[k2 - head.len()].0,
                Some(rest[k2 - head.len()].1),
            ) && is_file_under(es.skip(1)[j], root);
        assert(es[j + 1].0 == es[0].0);
        assert(es[0].0 != es[j + 1].0);
    } else if k2 < head.len() {
        assert(files_under(es, root)[k2] == (es[0].0, es[0].1.unwrap()));
        assert(files_under(es, root)[k1] == rest[k1 - head.len()]);
        let j = choose|j: int|
            0 <= j < es.skip(1).len() && #[trigger] es.skip(1)[j] == (
                rest[k1 - head.len()].0,
                Some(rest[k1 - head.len()].1),
            ) && is_file_under(es.skip(1)[j], root);
        assert(es[j + 1].0 == es[0].0);
        assert(es[0].0 != es[j + 1].0);
    } else {
        assert(files_under(es, root)[k1] == rest[k1 - head.len()]);
        assert(files_under(es, root)[k2] == rest[k2 - head.len()]);
        if i == 0 {
            let j = choose|j: int|
                0 <= j < es.skip(1).len() && #[trigger] es.skip(1)[j] == (
                    rest[k1 - head.len()].0,
                    Some(rest[k1 - head.len()].1),
                ) && is_file_under(es.skip(1)[j], root);
            assert(es[j + 1].0 == es[0].0);
            assert(es[0].0 != es[j + 1].0);
        } else {
            assert(es.skip(1)[i - 1] == es[i]);
            assert forall|i1: int, i2: int| 0 <= i1 < i2 < es.skip(1).len() implies es.skip(1)[i1].0
                != es.skip(1)[i2].0 by {
                assert(es[i1 + 1].0 != es[i2 + 1].0);
            }
            lemma_files_under_count(es.skip(1), root, i - 1, k1 - head.len(), k2 - head.len());
        }
    }
}

/// `k` is where a walk with handler `h` stops: the handler accepts every
/// earlier file and refuses this one.
pub open spec fn first_failure<H: FileHandler>(
    h: H,
    files: Seq<(Seq<Seq<u8>>, Seq<u8>)>,
    k: int,
) -> bool {
    &&& 0 <= k < files.len()
    &&& !h.succeeds(files[k].0, files[k].1)
    &&& forall|j: int| 0 <= j < k ==> h.succeeds(#[trigger] files[j].0, files[j].1)
}

/// Visits every file strictly under `root`, in entry order, once each —
/// directories are not visited — and collects the handler's updates. The
/// first file the handler refuses stops the walk: no later file is visited,
/// nothing is collected, and the error names the refused file.
pub fn walk<H: FileHandler>(fs: &FsModel, root: &Vec<Vec<u8>>, h: &H) -> (r: Result<
    Vec<FileUpdate>,
    WalkError,
>)
    requires
        fs.wf(),
    ensures
        ({
            let files = files_under(fs.eseq(), pview(*root));
            match r {
                Ok(ups) => {
                    &&& ups@.len() == files.len()
                    &&& forall|k: int|
                        0 <= k < files.len() ==> h.succeeds(
                            (#[trigger] files[k]).0,
                            files[k].1,
                        )
                    &&& forall|k: int|
                        0 <= k < files.len() ==> pview((#[trigger] ups@[k]).path) == h.new_path(
                            files[k].0,
                            files[k].1,
                        ) && ups@[k].content@ == h.new_content(files[k].0, files[k].1)
                },
                Err(e) => exists|k: int|
                    #[trigger] first_failure(*h, files, k) && pview(e.path) == files[k].0,
            }
        }),
{
    let ghost files = files_under(fs.eseq(), pview(*root));
    let n = fs.entry_count();
    let mut ups: Vec<FileUpdate> = Vec::new();
    let mut i: usize = 0;
    proof {
        assert(fs.eseq().take(0) =~= Seq::<(Seq<Seq<u8>>, Option<Seq<u8>>)>::empty());
    }
    while i < n
        invariant
            fs.wf(),
            n == fs.eseq().len(),
            0 <= i <= n,
            files == files_under(fs.eseq(), pview(*root)),
            ups@.len() == files_under(fs.eseq().take(i as int), pview(*root)).len(),
            forall|k: int|
                0 <= k < ups@.len() ==> h.succeeds(
                    (#[trigger] files_under(fs.eseq().take(i as int), pview(*root))[k]).0,
                    files_under(fs.eseq().take(i as int), pview(*root))[k].1,
                ),
            forall|k: int|
                0 <= k < ups@.len() ==> {
                    let fl = files_under(fs.eseq().take(i as int), pview(*root))[k];
                    pview((#[trigger] ups@[k]).path) == h.new_path(fl.0, fl.1) && ups@[k].content@
                        == h.new_content(fl.0, fl.1)
                },
        decreases n - i,
    {
        let ghost processed = files_under(fs.eseq().take(i as int), pview(*root));
        proof {
            lemma_files_under_snoc(fs.eseq(), pview(*root), i as int);
        }
        let p = fs.entry_path(i);
        let c_opt = fs.entry_file(i);
        match c_opt {
            None => {},
            Some(c) => {
                if path_starts_with(&p, root) && p.len() > root.len() {
                    proof {
                        assert(file_item(fs.eseq()[i as int], pview(*root)) =~= seq![
                            (pview(p), c@),
                        ]);
                    }
                    match h.visit(&p, &c) {
                        Ok(u) => {
                            ups.push(u);
                        },
                        Err(kind) => {
                            proof {
                                lemma_files_under_split(fs.eseq(), pview(*root), i as int);
                                let k = processed.len() as int;
                                assert(fs.eseq().skip(i as int)[0] == fs.eseq()[i as int]);
                                assert(files_under(fs.eseq().skip(i as int), pview(*root))[0]
                                    == (pview(p), c@));
                                assert(files[k] == (pview(p), c@));
                                assert forall|j: int| 0 <= j < k implies h.succeeds(
                                    #[trigger] files[j].0,
                                    files[j].1,
                                ) by {
                                    assert(files[j] == processed[j]);
                                }
                                assert(first_failure(*h, files, k));
                            }
                            return Err(WalkError { kind, path: p });
                        },
                    }
                }
            },
        }
        proof {
            let pr2 = files_under(fs.eseq().take(i + 1), pview(*root));
            if pr2.len() == processed.len() {
                assert(pr2 =~= processed);
            } else {
                assert(pr2 =~= processed.push(pr2[pr2.len() - 1]));
            }
        }
        i = i + 1;
    }
    proof {
        assert(fs.eseq().take(n as int) =~= fs.eseq());
    }
    Ok(ups)
}

} // verus!
