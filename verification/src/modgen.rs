use vstd::prelude::*;
use vstd::string::StrSliceExecFns;

use crate::fsmodel::FsError;
use crate::paths::bytes_eq;
use crate::paths::dup_bytes;
use crate::paths::dup_path;
use crate::paths::path_take;
use crate::paths::pview;
use crate::subst::apply_subs_seq;
use crate::subst::apply_substitutions;
use crate::subst::push_all;
use crate::subst::replace_bytes;
use crate::subst::replace_seq;
use crate::subst::Substitution;
use crate::walker::FileHandler;
use crate::walker::FileUpdate;

verus! {

/// The byte of each character: the byte form of the seven-bit literals this
/// generator searches for.
pub open spec fn lit_bytes(cs: Seq<char>) -> Seq<u8> {
    Seq::new(cs.len(), |i: int| cs[i] as u8)
}

/// The bytes of a string literal.
fn lit(s: &str) -> (r: Vec<u8>)
    ensures
        r@ == lit_bytes(s@),
{
    let n = s.unicode_len();
    let mut r: Vec<u8> = Vec::new();
    let mut i: usize = 0;
    while i < n
        invariant
            n == s@.len(),
            0 <= i <= n,
            r@.len() == i,
            forall|j: int| 0 <= j < i ==> r@[j] == lit_bytes(s@)[j],
        decreases n - i,
    {
        let c = s.get_char(i);
        let b = #[verifier::truncate] (c as u8);
        r.push(b);
        i = i + 1;
    }
    proof {
        assert(r@ =~= lit_bytes(s@));
    }
    r
}

/// The bytes of `v` from `a` (included) to `b` (excluded).
fn bytes_range(v: &Vec<u8>, a: usize, b: usize) -> (r: Vec<u8>)
    requires
        a <= b <= v@.len(),
    ensures
        r@ == v@.subrange(a as int, b as int),
{
    let mut r: Vec<u8> = Vec::new();
    let mut i: usize = a;
    while i < b
        invariant
            a <= i <= b <= v@.len(),
            r@ == v@.subrange(a as int, i as int),
        decreases b - i,
    {
        r.push(v[i]);
        proof {
            assert(r@ =~= v@.subrange(a as int, i + 1));
        }
        i = i + 1;
    }
    r
}

/// The index of the last `.` in a file or package name, `-1` where there is
/// none.
pub open spec fn last_dot(name: Seq<u8>) -> int
    decreases name.len(),
{
    if name.len() == 0 {
        -1
    } else if name.last() == 46 {
        name.len() - 1
    } else {
        last_dot(name.drop_last())
    }
}

/// The index of the first `.`, `-1` where there is none.
pub open spec fn first_dot(name: Seq<u8>) -> int
    decreases name.len(),
{
    if name.len() == 0 {
        -1
    } else if name[0] == 46 {
        0
    } else if first_dot(name.skip(1)) < 0 {
        -1
    } else {
        1 + first_dot(name.skip(1))
    }
}

proof fn lemma_last_dot(name: Seq<u8>)
    ensures
        last_dot(name) >= -1,
        last_dot(name) == -1 ==> forall|t: int| 0 <= t < name.len() ==> name[t] != 46,
        last_dot(name) >= 0 ==> 0 <= last_dot(name) < name.len() && name[last_dot(name)] == 46
            && forall|t: int| last_dot(name) < t < name.len() ==> name[t] != 46,
    decreases name.len(),
{
    if name.len() == 0 {
    } else if name.last() == 46 {
    } else {
        lemma_last_dot(name.drop_last());
        let d = last_dot(name);
        if d == -1 {
            assert forall|t: int| 0 <= t < name.len() implies name[t] != 46 by {
                if t < name.len() - 1 {
                    assert(name.drop_last()[t] != 46);
                }
            }
        } else {
            assert(name.drop_last()[d] == 46);
            assert forall|t: int| d < t < name.len() implies name[t] != 46 by {
                if t < name.len() - 1 {
                    assert(name.drop_last()[t] != 46);
                }
            }
        }
    }
}

proof fn lemma_first_dot(name: Seq<u8>)
    ensures
        first_dot(name) >= -1,
        first_dot(name) == -1 ==> forall|t: int| 0 <= t < name.len() ==> name[t] != 46,
        first_dot(name) >= 0 ==> 0 <= first_dot(name) < name.len() && name[first_dot(name)] == 46
            && forall|t: int| 0 <= t < first_dot(name) ==> name[t] != 46,
    decreases name.len(),
{
    if name.len() == 0 {
    } else if name[0] == 46 {
    } else {
        lemma_first_dot(name.skip(1));
        let d = first_dot(name);
        if d == -1 {
            assert forall|t: int| 0 <= t < name.len() implies name[t] != 46 by {
                if t >= 1 {
                    assert(name.skip(1)[t - 1] != 46);
                }
            }
        } else {
            assert(name.skip(1)[d - 1] == 46);
            assert forall|t: int| 0 <= t < d implies name[t] != 46 by {
                if t >= 1 {
                    assert(name.skip(1)[t - 1] != 46);
                }
            }
        }
    }
}

/// The index of the last `.` of `name`, scanned from the end.
fn rfind_dot(name: &Vec<u8>) -> (r: Option<usize>)
    ensures
        match r {
            Some(d) => last_dot(name@) == d && d < name@.len(),
            None => last_dot(name@) == -1,
        },
{
    let n = name.len();
    let mut j: usize = n;
    proof {
        assert(name@.take(n as int) =~= name@);
    }
    while j > 0
        invariant
            0 <= j <= n,
            n == name@.len(),
            last_dot(name@) == last_dot(name@.take(j as int)),
        decreases j,
    {
        if name[j - 1] == 46 {
            proof {
                assert(name@.take(j as int).last() == name@[j - 1]);
            }
            return Some(j - 1);
        }
        proof {
            assert(name@.take(j as int).drop_last() =~= name@.take(j - 1));
        }
        j = j - 1;
    }
    proof {
        assert(name@.take(0) =~= Seq::<u8>::empty());
    }
    None
}

/// The extension of a file name: what follows the last `.`, where that dot
/// is neither absent nor the leading byte.
pub open spec fn ext_of(name: Seq<u8>) -> Option<Seq<u8>> {
    let d = last_dot(name);
    if d <= 0 {
        None
    } else {
        Some(name.skip(d + 1))
    }
}

/// The part of the package name before its last `.` — the group — taken as
/// empty when the package has no dot or starts with one.
pub open spec fn package_group(p: Seq<u8>) -> Seq<u8> {
    let d = if last_dot(p) < 0 {
        0int
    } else {
        last_dot(p)
    };
    p.take(d)
}

/// The part of the package name after its last `.` — without a dot, the name
/// short of its first byte.
pub open spec fn package_tail(p: Seq<u8>) -> Seq<u8> {
    let d = if last_dot(p) < 0 {
        0int
    } else {
        last_dot(p)
    };
    p.skip(d + 1)
}

/// Splits a package name at its last dot into group and tail.
pub fn split_package(package: &Vec<u8>) -> (r: (Vec<u8>, Vec<u8>))
    requires
        package@.len() >= 1,
    ensures
        r.0@ == package_group(package@),
        r.1@ == package_tail(package@),
{
    proof {
        lemma_last_dot(package@);
    }
    let d: usize = match rfind_dot(package) {
        Some(d) => d,
        None => 0,
    };
    let n = package.len();
    let g = bytes_range(package, 0, d);
    let t = bytes_range(package, d + 1, n);
    proof {
        assert(g@ =~= package_group(package@));
        assert(t@ =~= package_tail(package@));
    }
    (g, t)
}

/// A package name split at its dots, each piece one path component.
pub open spec fn split_dots(p: Seq<u8>) -> Seq<Seq<u8>>
    decreases p.len(),
    via split_dots_decreases
{
    let d = first_dot(p);
    if d < 0 {
        seq![p]
    } else {
        seq![p.take(d)] + split_dots(p.skip(d + 1))
    }
}

#[via_fn]
proof fn split_dots_decreases(p: Seq<u8>) {
    lemma_first_dot(p);
}

fn split_from(package: &Vec<u8>, start: usize) -> (r: Vec<Vec<u8>>)
    requires
        start <= package@.len(),
    ensures
        pview(r) == split_dots(package@.skip(start as int)),
    decreases package@.len() - start,
{
    let ghost rest = package@.skip(start as int);
    proof {
        lemma_first_dot(rest);
    }
    let n = package.len();
    let mut j: usize = start;
    while j < n
        invariant
            start <= j <= n,
            n == package@.len(),
            forall|t: int| start <= t < j ==> package@[t] != 46,
        ensures
            start <= j <= n,
            forall|t: int| start <= t < j ==> package@[t] != 46,
            j < n ==> package@[j as int] == 46,
        decreases n - j,
    {
        if package[j] == 46 {
            break ;
        }
        j = j + 1;
    }
    proof {
        if j < n {
            assert(rest[j - start] == 46);
            if first_dot(rest) < 0 {
                assert(false);
            }
            if first_dot(rest) < j - start {
                assert(package@[first_dot(rest) + start] != 46);
                assert(false);
            }
            if first_dot(rest) > j - start {
                assert(rest[j - start] != 46);
                assert(false);
            }
            assert(first_dot(rest) == j - start);
        } else {
            if first_dot(rest) >= 0 {
                assert(package@[first_dot(rest) + start] != 46);
                assert(false);
            }
        }
    }
    let seg = bytes_range(package, start, j);
    if j == n {
        let mut r: Vec<Vec<u8>> = Vec::new();
        r.push(seg);
        proof {
            assert(seg@ =~= rest);
            assert(pview(r) =~= split_dots(rest));
        }
        r
    } else {
        let tail = split_from(package, j + 1);
        let mut r: Vec<Vec<u8>> = Vec::new();
        r.push(seg);
        let mut t = tail;
        r.append(&mut t);
        proof {
            assert(seg@ =~= rest.take(first_dot(rest)));
            assert(package@.skip(j + 1) =~= rest.skip(first_dot(rest) + 1));
            assert(pview(r) =~= split_dots(rest));
        }
        r
    }
}

/// The components of a dotted package name, in order: the path of the
/// package's directory below the source root.
pub fn package_to_path(package: &Vec<u8>) -> (r: Vec<Vec<u8>>)
    ensures
        pview(r) == split_dots(package@),
{
    let r = split_from(package, 0);
    proof {
        assert(package@.skip(0) =~= package@);
    }
    r
}

fn contains_zero(v: &Vec<u8>) -> (b: bool)
    ensures
        b == v@.contains(0u8),
{
    let n = v.len();
    let mut i: usize = 0;
    while i < n
        invariant
            n == v@.len(),
            0 <= i <= n,
            forall|j: int| 0 <= j < i ==> v@[j] != 0u8,
        decreases n - i,
    {
        if v[i] == 0 {
            assert(v@.contains(0u8));
            return true;
        }
        i = i + 1;
    }
    proof {
        if v@.contains(0u8) {
            let j = choose|j: int| 0 <= j < v@.len() && v@[j] == 0u8;
        }
    }
    false
}

/// The file name of the entry-point class: the entry point's name with the
/// source extension.
pub fn java_file_name(entry_point: &Vec<u8>) -> (r: Vec<u8>)
    ensures
        r@ == entry_point@ + lit_bytes(".java"@),
{
    let mut r = dup_bytes(entry_point);
    let suffix = lit(".java");
    push_all(&mut r, &suffix);
    r
}

/// The file name of the mixins list: the mod id with the template's suffix.
pub fn mixins_file_name(modid: &Vec<u8>) -> (r: Vec<u8>)
    ensures
        r@ == modid@ + lit_bytes(".mixins.json"@),
{
    let mut r = dup_bytes(modid);
    let suffix = lit(".mixins.json");
    push_all(&mut r, &suffix);
    r
}

/// The rewrite of the template's `gradle.properties`: the template group
/// becomes the package's group (what precedes its last dot) and the template
/// archive name becomes the package's tail (what follows it).
pub fn gradle_properties_content(old_text: &Vec<u8>, package: &Vec<u8>) -> (r: Vec<u8>)
    requires
        package@.len() >= 1,
    ensures
        r@ == replace_seq(
            replace_seq(old_text@, lit_bytes("com.example"@), package_group(package@)),
            lit_bytes("fabric-example-mod"@),
            package_tail(package@),
        ),
{
    let (group, tail) = split_package(package);
    let k1 = lit("com.example");
    let step = replace_bytes(old_text, &k1, &group);
    let k2 = lit("fabric-example-mod");
    replace_bytes(&step, &k2, &tail)
}

/// The rewrite of the template's `fabric.mod.json`: the template id and
/// display name both become the mod id, the sample description, author,
/// package and entry-point names become the caller's, in that order.
pub fn fabric_mod_json_content(
    old_text: &Vec<u8>,
    modid: &Vec<u8>,
    description: &Vec<u8>,
    author: &Vec<u8>,
    package: &Vec<u8>,
    entry_point: &Vec<u8>,
) -> (r: Vec<u8>)
    ensures
        r@ == replace_seq(
            replace_seq(
                replace_seq(
                    replace_seq(
                        replace_seq(
                            replace_seq(old_text@, lit_bytes("modid"@), modid@),
                            lit_bytes("Example Mod"@),
                            modid@,
                        ),
                        lit_bytes(
                            "This is an example description! Tell everyone what your mod is about!"@,
                        ),
                        description@,
                    ),
                    lit_bytes("Me!"@),
                    author@,
                ),
                lit_bytes("net.fabricmc.example"@),
                package@,
            ),
            lit_bytes("ExampleMod"@),
            entry_point@,
        ),
{
    let k1 = lit("modid");
    let s1 = replace_bytes(old_text, &k1, modid);
    let k2 = lit("Example Mod");
    let s2 = replace_bytes(&s1, &k2, modid);
    let k3 = lit("This is an example description! Tell everyone what your mod is about!");
    let s3 = replace_bytes(&s2, &k3, description);
    let k4 = lit("Me!");
    let s4 = replace_bytes(&s3, &k4, author);
    let k5 = lit("net.fabricmc.example");
    let s5 = replace_bytes(&s4, &k5, package);
    let k6 = lit("ExampleMod");
    replace_bytes(&s5, &k6, entry_point)
}

/// The rewrite of the renamed mixins list: the template package becomes the
/// caller's.
pub fn mixins_json_content(old_text: &Vec<u8>, package: &Vec<u8>) -> (r: Vec<u8>)
    ensures
        r@ == replace_seq(old_text@, lit_bytes("net.fabricmc.example"@), package@),
{
    let k = lit("net.fabricmc.example");
    replace_bytes(old_text, &k, package)
}

/// A rename of one specific file name during a walk.
pub struct NameSwap {
    pub from: Vec<u8>,
    pub to: Vec<u8>,
}

/// The per-file rewrite of this generator's walks. A file whose name carries
/// the handled extension has the substitution list applied to its content,
/// and where its name equals `swap.from` the file takes the name `swap.to`;
/// every other file is left exactly as it is. A handled file that contains a
/// zero byte is refused as `InvalidData`: this walker rewrites text, and a
/// text read of such a file fails.
pub struct SubstHandler {
    pub ext: Vec<u8>,
    pub swap: Option<NameSwap>,
    pub subs: Vec<Substitution>,
}

impl SubstHandler {
    /// Whether the file at `path` is one this handler rewrites.
    pub open spec fn selects(&self, path: Seq<Seq<u8>>) -> bool {
        path.len() > 0 && ext_of(path.last()) == Some(self.ext@)
    }
}

impl FileHandler for SubstHandler {
    open spec fn succeeds(&self, path: Seq<Seq<u8>>, content: Seq<u8>) -> bool {
        !(self.selects(path) && content.contains(0u8))
    }

    open spec fn new_path(&self, path: Seq<Seq<u8>>, content: Seq<u8>) -> Seq<Seq<u8>> {
        match self.swap {
            Some(sw) => if self.selects(path) && path.last() == sw.from@ {
                path.update(path.len() - 1, sw.to@)
            } else {
                path
            },
            None => path,
        }
    }

    open spec fn new_content(&self, path: Seq<Seq<u8>>, content: Seq<u8>) -> Seq<u8> {
        if self.selects(path) {
            apply_subs_seq(content, self.subs@)
        } else {
            content
        }
    }

    fn visit(&self, path: &Vec<Vec<u8>>, content: &Vec<u8>) -> (r: Result<FileUpdate, FsError>) {
        let selected: bool = if path.len() == 0 {
            false
        } else {
            let name = &path[path.len() - 1];
            match rfind_dot(name) {
                None => false,
                Some(d) => {
                    if d == 0 {
                        false
                    } else {
                        let nl = name.len();
                        let e = bytes_range(name, d + 1, nl);
                        proof {
                            assert(e@ =~= name@.skip(last_dot(name@) + 1));
                        }
                        bytes_eq(&e, &self.ext)
                    }
                },
            }
        };
        proof {
            assert(selected == self.selects(pview(*path)));
        }
        if !selected {
            return Ok(FileUpdate { path: dup_path(path), content: dup_bytes(content) });
        }
        if contains_zero(content) {
            return Err(FsError::InvalidData);
        }
        let new_content = apply_substitutions(content, &self.subs);
        let name = &path[path.len() - 1];
        proof {
            assert(pview(*path).last() == name@);
        }
        match &self.swap {
            Some(sw) => {
                if bytes_eq(name, &sw.from) {
                    let mut np = path_take(path, path.len() - 1);
                    proof {
                        assert(pview(*path).len() == path@.len());
                        assert(pview(np).len() == pview(*path).len() - 1);
                        assert(np@.len() == pview(*path).len() - 1);
                    }
                    let to = dup_bytes(&sw.to);
                    np.push(to);
                    proof {
                        let len0 = pview(*path).len();
                        assert(np@.len() == len0);
                        assert(pview(np)[len0 - 1] == np@[len0 - 1]@);
                        assert(np@[len0 - 1]@ == sw.to@);
                        assert forall|j: int| 0 <= j < len0 - 1 implies pview(np)[j] == pview(
                            *path,
                        )[j] by {
                            assert(pview(np)[j] == np@[j]@);
                            assert(pview(*path).take(len0 - 1)[j] == pview(*path)[j]);
                        }
                        assert(pview(np) =~= pview(*path).update(len0 - 1, sw.to@));
                    }
                    Ok(FileUpdate { path: np, content: new_content })
                } else {
                    Ok(FileUpdate { path: dup_path(path), content: new_content })
                }
            },
            None => Ok(FileUpdate { path: dup_path(path), content: new_content }),
        }
    }
}

/// The handler of the source walk: every `.java` file has the template
/// package, the template id and the template entry-point name replaced, and
/// the template entry-point file takes the caller's entry-point name.
pub fn java_handler(package: &Vec<u8>, modid: &Vec<u8>, entry_point: &Vec<u8>) -> (h: SubstHandler)
    ensures
        h.ext@ == lit_bytes("java"@),
        h.swap matches Some(sw) && sw.from@ == lit_bytes("ExampleMod.java"@) && sw.to@
            == entry_point@ + lit_bytes(".java"@),
        h.subs@.len() == 3,
        h.subs@[0].key@ == lit_bytes("net.fabricmc.example"@) && h.subs@[0].val@ == package@,
        h.subs@[1].key@ == lit_bytes("modid"@) && h.subs@[1].val@ == modid@,
        h.subs@[2].key@ == lit_bytes("ExampleMod"@) && h.subs@[2].val@ == entry_point@,
{
    let swap = NameSwap { from: lit("ExampleMod.java"), to: java_file_name(entry_point) };
    let mut subs: Vec<Substitution> = Vec::new();
    subs.push(Substitution { key: lit("net.fabricmc.example"), val: dup_bytes(package) });
    subs.push(Substitution { key: lit("modid"), val: dup_bytes(modid) });
    subs.push(Substitution { key: lit("ExampleMod"), val: dup_bytes(entry_point) });
    SubstHandler { ext: lit("java"), swap: Some(swap), subs }
}

} // verus!
