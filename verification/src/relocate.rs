use vstd::prelude::*;

use crate::fsmodel::mkdirs_map;
use crate::fsmodel::mkdirs_result;
use crate::fsmodel::occupied;
use crate::fsmodel::remove_map;
use crate::fsmodel::remove_result;
use crate::fsmodel::rename_map;
use crate::fsmodel::rename_result;
use crate::fsmodel::FsError;
use crate::fsmodel::FsModel;
use crate::paths::common_len;
use crate::paths::common_prefix_len;
use crate::paths::lemma_common_len;
use crate::paths::path_has_prefix;
use crate::paths::path_join;
use crate::paths::path_take;
use crate::paths::pview;

verus! {

/// The computed course of one relocation: where the two paths diverge, the
/// deepest shared ancestor, the top-level child of that ancestor to prune,
/// the staging path, and the parent chain of the destination.
pub struct RelocationPlan {
    pub diff_index: usize,
    pub diff_root: Vec<Vec<u8>>,
    pub remove_old: Vec<Vec<u8>>,
    pub staging: Vec<Vec<u8>>,
    pub new_parent: Vec<Vec<u8>>,
}

/// The relocation request is well formed: both paths have at least one
/// component and the old path does not enclose the new one. Identical paths
/// are rejected as part of the second condition: moving a tree onto itself,
/// or into its own inside, is refused rather than treated as a no-op.
pub open spec fn plan_ok(oldv: Seq<Seq<u8>>, newv: Seq<Seq<u8>>) -> bool {
    oldv.len() >= 1 && newv.len() >= 1 && common_len(oldv, newv) < oldv.len()
}

/// Computes the course of a relocation from the two paths alone: the common
/// prefix length `k`, the shared ancestor (the first `k` components of the
/// old path), the child to prune (the first `k + 1`), the staging path (the
/// ancestor extended by `stage_name`), and the destination's parent.
pub fn relocation_plan(
    old_path: &Vec<Vec<u8>>,
    new_path: &Vec<Vec<u8>>,
    stage_name: &Vec<u8>,
) -> (r: Result<RelocationPlan, FsError>)
    ensures
        r is Ok <==> plan_ok(pview(*old_path), pview(*new_path)),
        r is Err ==> r == Err::<RelocationPlan, FsError>(FsError::InvalidArgument),
        r matches Ok(plan) ==> {
            let oldv = pview(*old_path);
            let newv = pview(*new_path);
            let di = common_len(oldv, newv);
            &&& plan.diff_index == di
            &&& pview(plan.diff_root) == oldv.take(di)
            &&& pview(plan.remove_old) == oldv.take(di + 1)
            &&& pview(plan.staging) == oldv.take(di).push(stage_name@)
            &&& pview(plan.new_parent) == newv.take(newv.len() - 1)
        },
{
    proof {
        lemma_common_len(pview(*old_path), pview(*new_path));
    }
    let di = common_prefix_len(old_path, new_path);
    if old_path.len() == 0 || new_path.len() == 0 || di >= old_path.len() {
        return Err(FsError::InvalidArgument);
    }
    let diff_root = path_take(old_path, di);
    let remove_old = path_take(old_path, di + 1);
    let staging = path_join(&diff_root, stage_name);
    let new_parent = path_take(new_path, new_path.len() - 1);
    Ok(RelocationPlan { diff_index: di, diff_root, remove_old, staging, new_parent })
}

/// What `relocate` does, step by step: on a well-formed request it moves the
/// old tree to the staging path, prunes the shared ancestor's top-level
/// child, creates the destination's parent chain, and moves the staging tree
/// to the new path. The first step to fail ends the run with that step's
/// error and leaves the tree exactly as that step left it — after staging
/// has succeeded, a later failure leaves the data in the staging location.
pub open spec fn relocate_post(
    m0: Map<Seq<Seq<u8>>, Option<Seq<u8>>>,
    oldv: Seq<Seq<u8>>,
    newv: Seq<Seq<u8>>,
    stage: Seq<u8>,
    r: Result<(), FsError>,
    mfin: Map<Seq<Seq<u8>>, Option<Seq<u8>>>,
) -> bool {
    let di = common_len(oldv, newv);
    let temp = oldv.take(di).push(stage);
    let removev = oldv.take(di + 1);
    let parentv = newv.take(newv.len() - 1);
    if !plan_ok(oldv, newv) {
        r == Err::<(), FsError>(FsError::InvalidArgument) && mfin == m0
    } else if rename_result(m0, oldv, temp) is Err {
        r == rename_result(m0, oldv, temp) && mfin == m0
    } else {
        let m1 = rename_map(m0, oldv, temp);
        if remove_result(m1, removev) is Err {
            r == remove_result(m1, removev) && mfin == m1
        } else {
            let m2 = remove_map(m1, removev);
            if mkdirs_result(m2, parentv) is Err {
                r == mkdirs_result(m2, parentv) && mfin == m2
            } else {
                let m3 = mkdirs_map(m2, parentv);
                if rename_result(m3, temp, newv) is Err {
                    r == rename_result(m3, temp, newv) && mfin == m3
                } else {
                    r == Ok::<(), FsError>(()) && mfin == rename_map(m3, temp, newv)
                }
            }
        }
    }
}

/// Moves the directory subtree at `old_path` to `new_path`, where the two
/// may share a leading prefix. A direct move could destroy data still
/// needed: the tree is first staged under the deepest shared ancestor, at a
/// location disjoint from both subtrees, then the shared ancestor's
/// top-level child on the old side is pruned, the destination's parent chain
/// is created, and the staged tree is moved into place. The caller must own
/// the staging name: when anything already lies there the move is refused
/// before any data is touched.
pub fn relocate(
    fs: &mut FsModel,
    old_path: &Vec<Vec<u8>>,
    new_path: &Vec<Vec<u8>>,
    stage_name: &Vec<u8>,
) -> (r: Result<(), FsError>)
    requires
        old(fs).wf(),
    ensures
        final(fs).wf(),
        relocate_post(
            old(fs)@,
            pview(*old_path),
            pview(*new_path),
            stage_name@,
            r,
            final(fs)@,
        ),
{
    let plan = match relocation_plan(old_path, new_path, stage_name) {
        Err(e) => {
            return Err(e);
        },
        Ok(plan) => plan,
    };
    match fs.rename_tree(old_path, &plan.staging) {
        Err(e) => {
            return Err(e);
        },
        Ok(()) => {},
    }
    match fs.remove_tree(&plan.remove_old) {
        Err(e) => {
            return Err(e);
        },
        Ok(()) => {},
    }
    match fs.create_dir_all(&plan.new_parent) {
        Err(e) => {
            return Err(e);
        },
        Ok(()) => {},
    }
    match fs.rename_tree(&plan.staging, new_path) {
        Err(e) => {
            return Err(e);
        },
        Ok(()) => {},
    }
    Ok(())
}

/// Relocation correctness. When `relocate` succeeds, every path that lay at
/// or under the old path lies at or under the new path with the same node,
/// files keeping their bytes; nothing else lies at or under the new path;
/// and every path at or under the pruned child of the shared ancestor — the
/// old path itself among them — is gone. In particular, when the new path
/// lies under an ancestor of the old one that the relocation prunes, no path
/// under the old one is lost: the staging location is disjoint from both
/// subtrees at every step.
pub proof fn lemma_relocate_preserves(
    m0: Map<Seq<Seq<u8>>, Option<Seq<u8>>>,
    oldv: Seq<Seq<u8>>,
    newv: Seq<Seq<u8>>,
    stage: Seq<u8>,
    mfin: Map<Seq<Seq<u8>>, Option<Seq<u8>>>,
)
    requires
        relocate_post(m0, oldv, newv, stage, Ok(()), mfin),
    ensures
        forall|s: Seq<Seq<u8>>| #[trigger]
            m0.contains_key(oldv + s) ==> mfin.contains_key(newv + s) && mfin[newv + s] == m0[oldv
                + s],
        forall|s: Seq<Seq<u8>>| #[trigger] mfin.contains_key(newv + s) ==> m0.contains_key(oldv + s),
        forall|q: Seq<Seq<u8>>|
            path_has_prefix(q, oldv.take(common_len(oldv, newv) + 1)) ==> !(#[trigger] mfin.contains_key(
                q,
            )),
        !mfin.contains_key(oldv),
{
    lemma_common_len(oldv, newv);
    let di = common_len(oldv, newv);
    let temp = oldv.take(di).push(stage);
    let removev = oldv.take(di + 1);
    let parentv = newv.take(newv.len() - 1);
    assert(plan_ok(oldv, newv));
    assert(rename_result(m0, oldv, temp) is Ok);
    let m1 = rename_map(m0, oldv, temp);
    assert(remove_result(m1, removev) is Ok);
    let m2 = remove_map(m1, removev);
    assert(mkdirs_result(m2, parentv) is Ok);
    let m3 = mkdirs_map(m2, parentv);
    assert(rename_result(m3, temp, newv) is Ok);
    assert(mfin == rename_map(m3, temp, newv));
    assert(m0.contains_key(oldv));
    assert(!occupied(m0, temp));
    assert(m3.contains_key(temp));
    assert(!occupied(m3, newv));
    assert(temp.len() == di + 1);
    assert(removev.len() == di + 1);
    assert(temp[di] == stage);
    assert(removev[di] == oldv[di]);
    if di == newv.len() {
        assert(temp.take(newv.len() as int) =~= newv);
        assert(path_has_prefix(temp, newv));
        assert(occupied(m3, newv));
    }
    assert(di < newv.len());
    assert(newv[di] != oldv[di]);
    if stage == oldv[di] {
        assert(oldv.take(di + 1) =~= temp);
        assert(oldv.take(temp.len() as int) == temp);
        assert(path_has_prefix(oldv, temp));
        assert(occupied(m0, temp));
    }
    assert(stage != oldv[di]);
    if stage == newv[di] {
        assert(newv.take(di + 1) =~= temp);
        assert(path_has_prefix(newv, temp));
    }
    assert(stage != newv[di]);
    assert forall|s: Seq<Seq<u8>>| #[trigger] m0.contains_key(oldv + s) implies mfin.contains_key(
        newv + s,
    ) && mfin[newv + s] == m0[oldv + s] by {
        let q0 = oldv + s;
        let qt = temp + s;
        let qn = newv + s;
        assert(qt.take(temp.len() as int) =~= temp);
        assert(path_has_prefix(qt, temp));
        assert(qt.skip(temp.len() as int) =~= s);
        assert(oldv + qt.skip(temp.len() as int) =~= q0);
        assert(m1.contains_key(qt));
        assert(m1[qt] == m0[q0]);
        assert(qt[di] == stage);
        if path_has_prefix(qt, removev) {
            assert(qt.take(removev.len() as int)[di] == removev[di]);
        }
        assert(m2.contains_key(qt));
        assert(m2[qt] == m1[qt]);
        assert(m3.contains_key(qt));
        assert(m3[qt] == m2[qt]);
        assert(qn.take(newv.len() as int) =~= newv);
        assert(path_has_prefix(qn, newv));
        assert(qn.skip(newv.len() as int) =~= s);
        assert(temp + qn.skip(newv.len() as int) =~= qt);
        assert(mfin.contains_key(qn));
        assert(mfin[qn] == m3[qt]);
    }
    assert forall|s: Seq<Seq<u8>>| #[trigger] mfin.contains_key(newv + s) implies m0.contains_key(
        oldv + s,
    ) by {
        let q0 = oldv + s;
        let qt = temp + s;
        let qn = newv + s;
        assert(qn.take(newv.len() as int) =~= newv);
        assert(path_has_prefix(qn, newv));
        if m3.contains_key(qn) {
            assert(occupied(m3, newv));
        }
        assert(qn.skip(newv.len() as int) =~= s);
        assert(temp + qn.skip(newv.len() as int) =~= qt);
        assert(m3.contains_key(qt));
        assert(qt[di] == stage);
        if !m2.contains_key(qt) {
            assert(qt == parentv.take(qt.len() as int));
            assert(qt.len() <= parentv.len());
            assert(qt[di] == parentv[di]);
            assert(parentv[di] == newv[di]);
        }
        assert(m1.contains_key(qt));
        assert(qt.take(temp.len() as int) =~= temp);
        assert(path_has_prefix(qt, temp));
        if m0.contains_key(qt) {
            assert(occupied(m0, temp));
        }
        assert(qt.skip(temp.len() as int) =~= s);
        assert(oldv + qt.skip(temp.len() as int) =~= q0);
        assert(m0.contains_key(q0));
    }
    assert forall|q: Seq<Seq<u8>>|
        path_has_prefix(q, oldv.take(di + 1)) implies !(#[trigger] mfin.contains_key(q)) by {
        if mfin.contains_key(q) {
            assert(q.take(removev.len() as int) == removev);
            assert(q.len() >= di + 1);
            assert(q.take(removev.len() as int)[di] == removev[di]);
            assert(q[di] == oldv[di]);
            if path_has_prefix(q, newv) {
                assert(q.take(newv.len() as int)[di] == newv[di]);
                assert(q[di] == newv[di]);
                assert(false);
            }
            assert(m3.contains_key(q) && !path_has_prefix(q, temp));
            if m2.contains_key(q) {
                assert(!path_has_prefix(q, removev));
                assert(false);
            }
            assert(q == parentv.take(q.len() as int));
            assert(q.len() <= parentv.len());
            assert(q[di] == parentv[di]);
            assert(parentv[di] == newv[di]);
            assert(false);
        }
    }
    assert(oldv.take(removev.len() as int) == removev);
    assert(path_has_prefix(oldv, removev));
    assert(!mfin.contains_key(oldv));
}

} // verus!
