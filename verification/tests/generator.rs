use fabricgen::fsmodel::FsError;
use fabricgen::fsmodel::FsModel;
use fabricgen::modgen::fabric_mod_json_content;
use fabricgen::modgen::gradle_properties_content;
use fabricgen::modgen::java_file_name;
use fabricgen::modgen::java_handler;
use fabricgen::modgen::mixins_file_name;
use fabricgen::modgen::mixins_json_content;
use fabricgen::modgen::package_to_path;
use fabricgen::modgen::split_package;
use fabricgen::modgen::SubstHandler;
use fabricgen::paths::common_prefix_len;
use fabricgen::relocate::relocate;
use fabricgen::relocate::relocation_plan;
use fabricgen::subst::apply_substitutions;
use fabricgen::subst::replace_bytes;
use fabricgen::subst::Substitution;
use fabricgen::walker::walk;
use fabricgen::ProjectGenArgs;

fn bs(s: &str) -> Vec<u8> {
    s.as_bytes().to_vec()
}

fn path(s: &str) -> Vec<Vec<u8>> {
    s.split('/').filter(|c| !c.is_empty()).map(|c| c.as_bytes().to_vec()).collect()
}

fn sub(key: &str, val: &str) -> Substitution {
    Substitution { key: bs(key), val: bs(val) }
}

#[test]
fn relocation_shared_prefix_moves_all_and_prunes() {
    let mut fs = FsModel::empty();
    fs.add_file(&path("/tmp/proj/net/fabricmc/example/Mod.java"), &bs("a")).unwrap();
    fs.add_file(&path("/tmp/proj/net/fabricmc/example/deep/Util.java"), &bs("b")).unwrap();
    fs.add_file(&path("/tmp/proj/README.md"), &bs("keep")).unwrap();
    let r = relocate(
        &mut fs,
        &path("/tmp/proj/net/fabricmc/example"),
        &path("/tmp/proj/com/acme/mod"),
        &bs("__stage__"),
    );
    assert_eq!(r, Ok(()));
    assert_eq!(fs.file_at(&path("/tmp/proj/com/acme/mod/Mod.java")), Some(bs("a")));
    assert_eq!(fs.file_at(&path("/tmp/proj/com/acme/mod/deep/Util.java")), Some(bs("b")));
    assert!(!fs.has_path(&path("/tmp/proj/net")));
    assert!(!fs.has_path(&path("/tmp/proj/net/fabricmc/example")));
    assert!(!fs.has_path(&path("/tmp/proj/__stage__")));
    assert!(fs.has_path(&path("/tmp/proj")));
    assert_eq!(fs.file_at(&path("/tmp/proj/README.md")), Some(bs("keep")));
}

#[test]
fn relocation_identical_paths_is_rejected() {
    let mut fs = FsModel::empty();
    fs.add_file(&path("/tmp/proj/a/b/f.txt"), &bs("x")).unwrap();
    let r = relocate(&mut fs, &path("/tmp/proj/a/b"), &path("/tmp/proj/a/b"), &bs("__stage__"));
    assert_eq!(r, Err(FsError::InvalidArgument));
    assert_eq!(fs.file_at(&path("/tmp/proj/a/b/f.txt")), Some(bs("x")));
}

#[test]
fn relocation_into_own_inside_is_rejected() {
    let mut fs = FsModel::empty();
    fs.add_file(&path("/a/b/f.txt"), &bs("x")).unwrap();
    let r = relocate(&mut fs, &path("/a/b"), &path("/a/b/c"), &bs("__stage__"));
    assert_eq!(r, Err(FsError::InvalidArgument));
    assert!(fs.has_path(&path("/a/b/f.txt")));
}

#[test]
fn relocation_missing_source_fails() {
    let mut fs = FsModel::empty();
    fs.add_file(&path("/tmp/proj/other.txt"), &bs("x")).unwrap();
    let r = relocate(&mut fs, &path("/tmp/proj/net/gone"), &path("/tmp/proj/com/x"), &bs("__s__"));
    assert_eq!(r, Err(FsError::NotFound));
}

#[test]
fn relocation_staging_collision_fails_before_touching_data() {
    let mut fs = FsModel::empty();
    fs.add_file(&path("/tmp/proj/net/x/f.txt"), &bs("x")).unwrap();
    fs.add_file(&path("/tmp/proj/__stage__/old.txt"), &bs("y")).unwrap();
    let r = relocate(&mut fs, &path("/tmp/proj/net/x"), &path("/tmp/proj/com/y"), &bs("__stage__"));
    assert_eq!(r, Err(FsError::AlreadyExists));
    assert_eq!(fs.file_at(&path("/tmp/proj/net/x/f.txt")), Some(bs("x")));
}

#[test]
fn relocation_plan_fields() {
    let plan = relocation_plan(
        &path("/tmp/proj/net/fabricmc/example"),
        &path("/tmp/proj/com/acme/mod"),
        &bs("__t__"),
    )
    .unwrap();
    assert_eq!(plan.diff_index, 2);
    assert_eq!(plan.diff_root, path("/tmp/proj"));
    assert_eq!(plan.remove_old, path("/tmp/proj/net"));
    assert_eq!(plan.staging, path("/tmp/proj/__t__"));
    assert_eq!(plan.new_parent, path("/tmp/proj/com/acme"));
}

#[test]
fn common_prefix_len_counts_leading_equal_components() {
    assert_eq!(common_prefix_len(&path("a/b/c"), &path("a/b/d")), 2);
    assert_eq!(common_prefix_len(&path("a/b"), &path("a/b")), 2);
    assert_eq!(common_prefix_len(&path("a/b"), &path("x/y")), 0);
    assert_eq!(common_prefix_len(&path("a/b"), &path("a/b/c")), 2);
}

#[test]
fn walker_processes_only_matching_extension() {
    let mut fs = FsModel::empty();
    fs.add_file(&path("/root/Foo.txt"), &bs("x 1")).unwrap();
    fs.add_file(&path("/root/Bar.cfg"), &bs("x 2")).unwrap();
    let handler = SubstHandler { ext: bs("cfg"), swap: None, subs: vec![sub("x", "y")] };
    let ups = walk(&fs, &path("/root"), &handler).unwrap();
    assert_eq!(ups.len(), 2);
    let mut changed = 0;
    for u in &ups {
        if u.path == path("/root/Bar.cfg") {
            assert_eq!(u.content, bs("y 2"));
            changed += 1;
        } else {
            assert_eq!(u.path, path("/root/Foo.txt"));
            assert_eq!(u.content, bs("x 1"));
        }
    }
    assert_eq!(changed, 1);
}

#[test]
fn walker_visits_files_once_and_never_directories() {
    let mut fs = FsModel::empty();
    fs.add_file(&path("/root/a/one.txt"), &bs("1")).unwrap();
    fs.add_file(&path("/root/a/b/two.txt"), &bs("2")).unwrap();
    fs.add_file(&path("/elsewhere/three.txt"), &bs("3")).unwrap();
    let handler = SubstHandler { ext: bs("none"), swap: None, subs: vec![] };
    let ups = walk(&fs, &path("/root"), &handler).unwrap();
    assert_eq!(ups.len(), 2);
    assert_eq!(ups[0].path, path("/root/a/one.txt"));
    assert_eq!(ups[1].path, path("/root/a/b/two.txt"));
}

#[test]
fn walker_stops_at_first_failure_and_names_the_file() {
    let mut fs = FsModel::empty();
    fs.add_file(&path("/root/a.cfg"), &bs("fine")).unwrap();
    fs.add_file(&path("/root/b.cfg"), &vec![b'x', 0u8, b'y']).unwrap();
    fs.add_file(&path("/root/c.cfg"), &bs("fine too")).unwrap();
    let handler = SubstHandler { ext: bs("cfg"), swap: None, subs: vec![sub("fine", "good")] };
    let err = walk(&fs, &path("/root"), &handler).unwrap_err();
    assert_eq!(err.kind, FsError::InvalidData);
    assert_eq!(err.path, path("/root/b.cfg"));
}

#[test]
fn replace_bytes_replaces_every_occurrence_in_order() {
    assert_eq!(
        replace_bytes(&bs("net.fabricmc.example -> net.fabricmc.example"), &bs("net.fabricmc.example"), &bs("com.acme")),
        bs("com.acme -> com.acme")
    );
    assert_eq!(replace_bytes(&bs("aaa"), &bs("aa"), &bs("b")), bs("ba"));
    assert_eq!(replace_bytes(&bs("abc"), &bs(""), &bs("z")), bs("abc"));
    assert_eq!(replace_bytes(&bs("abc"), &bs("zz"), &bs("y")), bs("abc"));
}

#[test]
fn substitutions_apply_in_listed_order() {
    let forward = apply_substitutions(&bs("a"), &vec![sub("a", "b"), sub("b", "c")]);
    assert_eq!(forward, bs("c"));
    let backward = apply_substitutions(&bs("a"), &vec![sub("b", "c"), sub("a", "b")]);
    assert_eq!(backward, bs("b"));
}

#[test]
fn substitution_twice_is_not_idempotent() {
    let subs = vec![sub("a", "aa")];
    let once = apply_substitutions(&bs("a"), &subs);
    assert_eq!(once, bs("aa"));
    let twice = apply_substitutions(&once, &subs);
    assert_eq!(twice, bs("aaaa"));
    assert_ne!(twice, once);
}

#[test]
fn from_user_input_aliases_the_version() {
    let args = ProjectGenArgs::from_user_input(
        "1.16.5".to_string(),
        "My Mod".to_string(),
        "Does things".to_string(),
        "Someone".to_string(),
        "com.acme.mod".to_string(),
        "mymod".to_string(),
        "MyMod".to_string(),
    );
    assert_eq!(args.version, "master.5");
    assert!(!args.version_is_commit);
    assert_eq!(args.name, "My Mod");
    assert_eq!(args.description, "Does things");
    assert_eq!(args.author, "Someone");
    assert_eq!(args.package, "com.acme.mod");
    assert_eq!(args.modid, "mymod");
    assert_eq!(args.entry_point, "MyMod");
}

#[test]
fn from_user_input_detects_a_commit_hash() {
    let hash = "0123456789abcdef0123456789abcdef01234567";
    assert_eq!(hash.len(), 40);
    let args = ProjectGenArgs::from_user_input(
        hash.to_string(),
        "n".to_string(),
        "d".to_string(),
        "a".to_string(),
        "p.q".to_string(),
        "m".to_string(),
        "E".to_string(),
    );
    assert!(args.version_is_commit);
    assert_eq!(args.version, hash);
}

#[test]
fn gradle_properties_rewrite() {
    let old = bs("maven_group = com.example\narchives_base_name = fabric-example-mod\n");
    let out = gradle_properties_content(&old, &bs("com.acme.mod"));
    assert_eq!(out, bs("maven_group = com.acme\narchives_base_name = mod\n"));
}

#[test]
fn gradle_properties_rewrite_dotless_package() {
    let old = bs("g=com.example;n=fabric-example-mod");
    let out = gradle_properties_content(&old, &bs("mymod"));
    assert_eq!(out, bs("g=;n=ymod"));
}

#[test]
fn split_package_at_last_dot() {
    assert_eq!(split_package(&bs("com.acme.mod")), (bs("com.acme"), bs("mod")));
    assert_eq!(split_package(&bs(".x")), (bs(""), bs("x")));
    assert_eq!(split_package(&bs("plain")), (bs(""), bs("lain")));
}

#[test]
fn package_path_components() {
    assert_eq!(package_to_path(&bs("com.acme.mod")), vec![bs("com"), bs("acme"), bs("mod")]);
    assert_eq!(package_to_path(&bs("single")), vec![bs("single")]);
    assert_eq!(package_to_path(&bs("a..b")), vec![bs("a"), bs(""), bs("b")]);
}

#[test]
fn fabric_mod_json_rewrite() {
    let old = bs(
        "{\"id\":\"modid\",\"name\":\"Example Mod\",\"description\":\"This is an example description! Tell everyone what your mod is about!\",\"authors\":[\"Me!\"],\"entrypoints\":[\"net.fabricmc.example.ExampleMod\"]}",
    );
    let out = fabric_mod_json_content(
        &old,
        &bs("mymod"),
        &bs("A fine mod"),
        &bs("Someone"),
        &bs("com.acme.mod"),
        &bs("MyMod"),
    );
    assert_eq!(
        out,
        bs(
            "{\"id\":\"mymod\",\"name\":\"mymod\",\"description\":\"A fine mod\",\"authors\":[\"Someone\"],\"entrypoints\":[\"com.acme.mod.MyMod\"]}"
        )
    );
}

#[test]
fn mixins_json_rewrite_and_names() {
    let out = mixins_json_content(&bs("\"package\": \"net.fabricmc.example.mixin\""), &bs("com.acme.mod"));
    assert_eq!(out, bs("\"package\": \"com.acme.mod.mixin\""));
    assert_eq!(mixins_file_name(&bs("mymod")), bs("mymod.mixins.json"));
    assert_eq!(java_file_name(&bs("MyMod")), bs("MyMod.java"));
}

#[test]
fn java_walk_renames_entry_point_and_rewrites_sources() {
    let mut fs = FsModel::empty();
    fs.add_file(
        &path("/proj/src/main/java/com/acme/mod/ExampleMod.java"),
        &bs("package net.fabricmc.example;\npublic class ExampleMod { String id = \"modid\"; }\n"),
    )
    .unwrap();
    fs.add_file(&path("/proj/src/main/java/com/acme/mod/notes.md"), &bs("ExampleMod notes")).unwrap();
    let handler = java_handler(&bs("com.acme.mod"), &bs("mymod"), &bs("MyMod"));
    let ups = walk(&fs, &path("/proj/src/main/java"), &handler).unwrap();
    assert_eq!(ups.len(), 2);
    let java = ups.iter().find(|u| u.path.last().unwrap() == &bs("MyMod.java")).unwrap();
    assert_eq!(
        java.content,
        bs("package com.acme.mod;\npublic class MyMod { String id = \"mymod\"; }\n")
    );
    let notes = ups.iter().find(|u| u.path.last().unwrap() == &bs("notes.md")).unwrap();
    assert_eq!(notes.content, bs("ExampleMod notes"));
}

#[test]
fn model_add_and_query_errors() {
    let mut fs = FsModel::empty();
    assert_eq!(fs.add_file(&path(""), &bs("x")), Err(FsError::InvalidArgument));
    assert_eq!(fs.add_file(&path("/a/b"), &bs("x")), Ok(()));
    assert_eq!(fs.add_file(&path("/a/b"), &bs("y")), Err(FsError::AlreadyExists));
    assert_eq!(fs.add_file(&path("/a/b/c"), &bs("z")), Err(FsError::AlreadyExists));
    assert!(fs.has_path(&path("/a")));
    assert_eq!(fs.file_at(&path("/a")), None);
    assert_eq!(fs.file_at(&path("/a/b")), Some(bs("x")));
    assert_eq!(fs.file_at(&path("/a/missing")), None);
}
