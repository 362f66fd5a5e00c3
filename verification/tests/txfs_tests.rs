use txfs::dir::FsNode;
use txfs::Dir;
use txfs::Error;
use txfs::File;
use txfs::Name;
use txfs::VERSIONS;

fn name(s: &str) -> Name {
    Name::new(String::from(s)).expect("valid name")
}

fn empty_root(txn: u64) -> Dir {
    Dir::load(txn, &Vec::new()).expect("load empty")
}

#[test]
fn versions_dir_is_hidden() {
    assert_eq!(VERSIONS, ".txfs");
    assert!(Name::new(String::from(VERSIONS)).is_none());
}

#[test]
fn name_validation() {
    assert!(Name::new(String::from("file-one")).is_some());
    assert!(Name::new(String::from("a_b.c")).is_some());
    assert!(Name::new(String::from("")).is_none());
    assert!(Name::new(String::from(".hidden")).is_none());
    assert!(Name::new(String::from("a/b")).is_none());
    assert!(Name::new(String::from("a b")).is_none());
    assert!(Name::new(String::from("a:b")).is_none());
    assert_eq!(name("file-one").as_str(), "file-one");
}

#[test]
fn txn_names_round_trip() {
    assert_eq!(txfs::txn::txn_name(0), "0");
    assert_eq!(txfs::txn::txn_name(7), "7");
    assert_eq!(txfs::txn::txn_name(1234567890), "1234567890");
    assert_eq!(txfs::txn::txn_name(u64::MAX), "18446744073709551615");
    for t in [0u64, 1, 9, 10, 99, 100, 4096, u64::MAX] {
        let s = txfs::txn::txn_name(t);
        assert_eq!(txfs::txn::parse_txn(s.as_str()), Some(t));
    }
    assert_eq!(txfs::txn::parse_txn(""), None);
    assert_eq!(txfs::txn::parse_txn("12a"), None);
    assert_eq!(txfs::txn::parse_txn("18446744073709551616"), None);
}

#[test]
fn basic_read_write_ordering() {
    // create file f with "hello" at txn 1; commit; write "world" at txn 2;
    // reads at 1 and 2 disagree until commit(2) makes 3 see "world"
    let mut root = empty_root(1);
    let f = name("f");
    root.create_file(1, &f, b"hello".to_vec()).expect("create");
    let g1 = root.read_file(1, &f).expect("read at 1");
    assert_eq!(g1.bytes, b"hello".to_vec());
    root.release_file_read(&f, g1).expect("release");
    root.commit(1, true).expect("commit 1");

    let g2 = root.read_file(2, &f).expect("read at 2");
    assert_eq!(g2.bytes, b"hello".to_vec());
    root.release_file_read(&f, g2).expect("release");

    let mut w = root.write_file(2, &f).expect("write at 2");
    w.set_contents(b"world".to_vec());
    root.release_file_write(&f, w).expect("release write");

    let g1b = root.read_file(1, &f).expect("read at 1 again");
    assert_eq!(g1b.bytes, b"hello".to_vec());
    root.release_file_read(&f, g1b).expect("release");

    let g2b = root.read_file(2, &f).expect("read at 2 again");
    assert_eq!(g2b.bytes, b"world".to_vec());
    root.release_file_read(&f, g2b).expect("release");

    root.commit(2, true).expect("commit 2");

    let g3 = root.read_file(3, &f).expect("read at 3");
    assert_eq!(g3.bytes, b"world".to_vec());
    root.release_file_read(&f, g3).expect("release");
}

#[test]
fn past_write_blocks_future_read() {
    // an uncommitted entry write at txn 2 blocks a lookup at txn 3,
    // and an outstanding file write guard blocks file reads at any txn
    let mut root = empty_root(1);
    let f = name("f");
    root.create_file(1, &f, b"a".to_vec()).expect("create");
    root.commit(1, true).expect("commit 1");

    let g = name("g");
    root.create_file(2, &g, b"b".to_vec()).expect("create g");
    assert_eq!(root.try_get_file(3, &g), Err(Error::Conflict));

    let w = root.write_file(2, &f).expect("write at 2");
    assert_eq!(
        root.read_file(3, &f).expect_err("read must conflict"),
        Error::Conflict
    );
    root.release_file_write(&f, w).expect("release");
}

#[test]
fn recursive_delete() {
    // a directory d holding file g; a committed delete at txn 2 removes the
    // canonical entry from disk, and the name can be created anew
    let tree = vec![(
        String::from("d"),
        FsNode::Dir(vec![(String::from("g"), FsNode::File(b"inner".to_vec()))]),
    )];
    let mut root = Dir::load(1, &tree).expect("load");
    let d = name("d");
    root.commit(1, true).expect("commit 1");

    assert_eq!(root.delete(2, &d), Ok(true));
    root.commit(2, true).expect("commit 2");

    assert_eq!(root.contains(3, &d), Ok(false));
    assert!(root
        .disk_removed
        .iter()
        .any(|n| n.as_str() == "d"));

    root.create_dir(4, &d).expect("create dir again");
    assert_eq!(root.get_dir(4, &d), Ok(true));
}

#[test]
fn finalize_reclaims_versions() {
    // versions written at txns 1..3 are reclaimed by finalize(3); reads at
    // later transactions fall back to the canonical copy
    let mut root = empty_root(1);
    let h = name("h");
    root.create_file(1, &h, b"one".to_vec()).expect("create");
    root.commit(1, true).expect("commit 1");

    let mut w2 = root.write_file(2, &h).expect("write 2");
    w2.set_contents(b"two".to_vec());
    root.release_file_write(&h, w2).expect("release");
    root.commit(2, true).expect("commit 2");

    let mut w3 = root.write_file(3, &h).expect("write 3");
    w3.set_contents(b"three".to_vec());
    root.release_file_write(&h, w3).expect("release");
    root.commit(3, true).expect("commit 3");

    root.finalize(3);

    let g4 = root.read_file(4, &h).expect("read at 4");
    assert_eq!(g4.bytes, b"three".to_vec());
    root.release_file_read(&h, g4).expect("release");

    // the file's version directory holds nothing at or before txn 3
    let mut seen = false;
    for (_, layer) in root.deltas.iter() {
        for (n, rec) in layer.iter() {
            if n.as_str() == "h" {
                if let Some(txfs::DirEntry::File(f)) = rec {
                    seen = true;
                    assert!(f.versions.is_empty());
                }
            }
        }
    }
    assert!(seen);
}

#[test]
fn outdated_write() {
    // a commit at txn 5 makes a write at txn 3 outdated
    let mut root = empty_root(1);
    let k = name("k");
    root.create_file(1, &k, b"x".to_vec()).expect("create");
    root.commit(1, true).expect("commit 1");

    let mut w5 = root.write_file(5, &k).expect("write 5");
    w5.set_contents(b"y".to_vec());
    root.release_file_write(&k, w5).expect("release");
    root.commit(5, true).expect("commit 5");

    assert_eq!(
        root.write_file(3, &k).expect_err("write must be outdated"),
        Error::Outdated
    );
}

#[test]
fn create_conflict() {
    // of two creations under one name at one txn, exactly one succeeds
    let mut root = empty_root(1);
    let x = name("x");
    root.create_file(1, &x, b"1".to_vec()).expect("create file");
    assert_eq!(
        root.create_dir(1, &x).expect_err("second create must fail"),
        Error::AlreadyExists
    );
}

#[test]
fn commit_idempotent() {
    let mut root = empty_root(1);
    let f = name("f");
    root.create_file(1, &f, b"v".to_vec()).expect("create");
    root.commit(1, true).expect("commit");
    root.commit(1, true).expect("commit again is a no-op");
    let g = root.read_file(2, &f).expect("read");
    assert_eq!(g.bytes, b"v".to_vec());
    root.release_file_read(&f, g).expect("release");
}

#[test]
fn rollback_discards_pending() {
    let mut root = empty_root(1);
    let f = name("f");
    root.create_file(1, &f, b"v".to_vec()).expect("create");
    root.commit(1, true).expect("commit");

    root.create_file(2, &name("tmp"), b"t".to_vec()).expect("create tmp");
    root.rollback(2, true).expect("rollback");
    root.rollback(2, true).expect("rollback again is a no-op");
    assert_eq!(root.contains(3, &name("tmp")), Ok(false));
    assert_eq!(root.contains(3, &f), Ok(true));
}

#[test]
fn finalize_idempotent_and_cuts_old_reads() {
    let mut root = empty_root(1);
    let f = name("f");
    root.create_file(1, &f, b"v".to_vec()).expect("create");
    root.commit(1, true).expect("commit");
    root.finalize(1);
    root.finalize(1);
    assert_eq!(root.contains(0, &f), Err(Error::Outdated));
    assert_eq!(root.contains(2, &f), Ok(true));
}

#[test]
fn missing_entries_and_type_mismatches() {
    let mut root = empty_root(1);
    assert_eq!(
        root.read_file(1, &name("absent")).expect_err("missing"),
        Error::NotFound
    );
    let d = name("d");
    root.create_dir(1, &d).expect("create dir");
    assert_eq!(
        root.read_file(1, &d).expect_err("not a file"),
        Error::InvalidData
    );
    assert_eq!(root.get_file(1, &d), Err(Error::InvalidData));
    assert_eq!(root.get_dir(1, &d), Ok(true));
    assert_eq!(root.try_get_dir(1, &d), Ok(true));
}

#[test]
fn load_skips_hidden_and_rejects_bad_names() {
    let tree = vec![
        (String::from(".txfs"), FsNode::Dir(vec![])),
        (String::from("ok"), FsNode::File(b"c".to_vec())),
    ];
    let mut root = Dir::load(1, &tree).expect("load");
    assert_eq!(root.contains(1, &name("ok")), Ok(true));
    assert_eq!(root.len(1), Ok(1));

    let bad = vec![(String::from("a b"), FsNode::File(Vec::new()))];
    assert_eq!(Dir::load(1, &bad).expect_err("bad name"), Error::Parse);
}

#[test]
fn iteration_and_counts() {
    let mut root = empty_root(1);
    root.create_file(1, &name("f1"), b"a".to_vec()).expect("create");
    root.create_file(1, &name("f2"), b"b".to_vec()).expect("create");
    root.create_dir(1, &name("d1")).expect("create dir");
    assert_eq!(root.len(1), Ok(3));
    assert_eq!(root.is_empty(1), Ok(false));
    assert_eq!(root.contains_files(1), Ok(true));
    let entries = root.iter(1).expect("iter");
    assert_eq!(entries.len(), 3);
    let dirs = root.dir_names(1).expect("dir names");
    assert_eq!(dirs.len(), 1);
    assert_eq!(dirs[0].as_str(), "d1");
    let files = root.file_names(1).expect("file names");
    assert_eq!(files.len(), 2);

    let mut empty = empty_root(1);
    assert_eq!(empty.is_empty(1), Ok(true));
    assert_eq!(empty.contains_files(1), Ok(false));
}

#[test]
fn file_level_protocol() {
    // the per-file MVCC protocol, exercised directly
    let mut f = File::create(1, name("solo"), b"init".to_vec());
    let r = f.read(1).expect("read own version");
    assert_eq!(r.bytes, b"init".to_vec());
    f.release_read(r);
    f.commit(1).expect("commit");

    let mut w = f.write(2).expect("write at 2");
    assert_eq!(w.bytes, b"init".to_vec());
    w.set_contents(b"new".to_vec());
    f.release_write(w);

    // the uncommitted write at 2 blocks a read at 3 and a write at 3
    assert_eq!(f.read(3).expect_err("blocked"), Error::Conflict);
    assert_eq!(f.write(3).expect_err("blocked"), Error::Conflict);
    // but a read at 1 sees the committed version
    let r1 = f.read(1).expect("read at 1");
    assert_eq!(r1.bytes, b"init".to_vec());
    f.release_read(r1);

    f.commit(2).expect("commit 2");
    let r3 = f.read(3).expect("read at 3");
    assert_eq!(r3.bytes, b"new".to_vec());
    f.release_read(r3);

    // rolling back a committed txn is refused
    assert_eq!(f.rollback(2).expect_err("committed"), Error::Conflict);

    f.finalize(2);
    assert_eq!(f.read(1).expect_err("finalized"), Error::Outdated);
    let r4 = f.read(4).expect("read after finalize");
    assert_eq!(r4.bytes, b"new".to_vec());
    f.release_read(r4);
    assert!(f.versions.is_empty());
}

#[test]
fn file_load_requires_canonical() {
    assert_eq!(
        File::load(1, name("f"), None).expect_err("no canonical copy"),
        Error::NotFound
    );
    let f = File::load(1, name("f"), Some(b"c".to_vec())).expect("load");
    assert_eq!(f.canon, Some(b"c".to_vec()));
    assert_eq!(f.versions.len(), 1);
    assert_eq!(f.versions[0].0, 1);
    assert_eq!(f.versions[0].1, b"c".to_vec());
}

#[test]
fn write_guard_excludes_readers_and_writers() {
    let mut f = File::create(1, name("w"), b"0".to_vec());
    f.commit(1).expect("commit");
    let w = f.write(2).expect("write");
    assert_eq!(f.read(2).expect_err("writer holds"), Error::Conflict);
    assert_eq!(f.read(0).expect_err("writer holds"), Error::Conflict);
    assert_eq!(f.write(2).expect_err("writer holds"), Error::Conflict);
    // a read of an already-committed transaction needs no lock and still works
    let r1 = f.read(1).expect("committed read");
    f.release_read(r1);
    f.release_write(w);
    let r = f.read(2).expect("after release");
    f.release_read(r);
}

#[test]
fn reader_blocks_same_txn_writer_only() {
    let mut f = File::create(1, name("r"), b"0".to_vec());
    f.commit(1).expect("commit");
    let r2 = f.read(2).expect("read at 2");
    // a read guard blocks a writer at its own txn
    assert_eq!(f.write(2).expect_err("reader holds"), Error::Conflict);
    // and its reservation forbids writing below it
    f.release_read(r2);
    assert_eq!(f.write(1).expect_err("read above"), Error::Conflict);
    // but a write above the reservation is fine
    let w = f.write(3).expect("write above");
    f.release_write(w);
}

#[test]
fn truncate_clears_everything() {
    let tree = vec![
        (String::from("a"), FsNode::File(b"1".to_vec())),
        (
            String::from("sub"),
            FsNode::Dir(vec![(String::from("b"), FsNode::File(b"2".to_vec()))]),
        ),
    ];
    let mut root = Dir::load(1, &tree).expect("load");
    root.commit(1, true).expect("commit");
    root.truncate(2).expect("truncate");
    assert_eq!(root.contains(2, &name("a")), Ok(false));
    assert_eq!(root.contains(2, &name("sub")), Ok(false));
    // before the truncate commits, txn 1's committed view is intact
    root.commit(2, true).expect("commit truncate");
    assert_eq!(root.len(3), Ok(0));
}

#[test]
fn recursive_commit_matches_child_commits() {
    // a recursive commit has the same observable effect as committing the
    // map alone and then committing each child at the same txn (here, by a
    // second recursive pass over the already-committed map)
    let tree = vec![
        (String::from("a"), FsNode::File(b"1".to_vec())),
        (
            String::from("sub"),
            FsNode::Dir(vec![(String::from("b"), FsNode::File(b"2".to_vec()))]),
        ),
    ];
    let mut one_pass = Dir::load(1, &tree).expect("load");
    one_pass.commit(1, true).expect("commit recursively");

    let mut two_pass = Dir::load(1, &tree).expect("load");
    two_pass.commit(1, false).expect("commit the map alone");
    two_pass.commit(1, true).expect("then the children");

    for root in [&mut one_pass, &mut two_pass] {
        let a = name("a");
        let g = root.read_file(2, &a).expect("read");
        assert_eq!(g.bytes, b"1".to_vec());
        root.release_file_read(&a, g).expect("release");
        assert_eq!(root.len(2), Ok(2));
        assert_eq!(root.contains(2, &name("sub")), Ok(true));
    }
}

#[test]
fn iteration_lists_each_name_once() {
    let mut root = empty_root(1);
    root.create_file(1, &name("n1"), b"a".to_vec()).expect("create");
    root.create_dir(1, &name("n2")).expect("create");
    let entries = root.iter(1).expect("iter");
    for i in 0..entries.len() {
        for j in 0..entries.len() {
            if i != j {
                assert_ne!(entries[i].0.as_str(), entries[j].0.as_str());
            }
        }
    }
}

#[test]
fn files_yields_every_file_guard() {
    let mut root = empty_root(1);
    root.create_file(1, &name("p"), b"pp".to_vec()).expect("create");
    root.create_file(1, &name("q"), b"qq".to_vec()).expect("create");
    root.create_dir(1, &name("d")).expect("create dir");
    let guards = root.files(1).expect("files");
    assert_eq!(guards.len(), 2);
    for (n, g) in guards {
        match n.as_str() {
            "p" => assert_eq!(g.bytes, b"pp".to_vec()),
            "q" => assert_eq!(g.bytes, b"qq".to_vec()),
            other => panic!("unexpected file {}", other),
        }
        root.release_file_read(&n, g).expect("release");
    }
}

#[test]
fn try_get_conflicts_with_held_write_guard() {
    // a write guard held at txn 2 blocks a typed lookup at txn 3
    let mut root = empty_root(1);
    let f = name("f");
    root.create_file(1, &f, b"a".to_vec()).expect("create");
    root.commit(1, true).expect("commit 1");

    let w = root.write_file(2, &f).expect("write at 2");
    assert_eq!(root.try_get_file(3, &f), Err(Error::Conflict));
    assert_eq!(root.get_file(3, &f), Err(Error::Conflict));
    root.release_file_write(&f, w).expect("release");
    assert_eq!(root.try_get_file(3, &f), Ok(true));
}

#[test]
fn finalize_removes_empty_version_subtree() {
    // once every version file is reclaimed and the only file is deleted,
    // the hidden version subtree itself goes away
    let mut root = empty_root(1);
    let h = name("h");
    root.create_file(1, &h, b"x".to_vec()).expect("create");
    root.commit(1, true).expect("commit 1");
    root.finalize(1);
    assert!(root.txfs, "a visible file keeps its version directory");

    root.delete(2, &h).expect("delete");
    root.commit(2, true).expect("commit 2");
    root.finalize(2);
    assert!(!root.txfs, "nothing is left under the version subtree");
}

#[test]
fn finalize_keeps_version_subtree_with_unreclaimed_versions() {
    // a deleted file whose version files were never reclaimed leaves a
    // non-empty version directory behind, so the subtree stays
    let mut root = empty_root(1);
    let j = name("j");
    root.create_file(1, &j, b"x".to_vec()).expect("create");
    root.commit(1, false).expect("commit map only");

    root.delete(2, &j).expect("delete");
    root.commit(2, true).expect("commit 2");
    root.finalize(2);
    assert!(root.txfs, "version files of txn 1 still sit on disk");
}

#[test]
fn rollback_records_stray_versions() {
    // rolling back a created file leaves its version file on disk; the
    // directory is remembered as a stray and keeps the subtree alive
    let mut root = empty_root(1);
    root.commit(1, true).expect("commit 1");
    let r = name("r");
    root.create_file(2, &r, b"x".to_vec()).expect("create");
    root.rollback(2, false).expect("rollback");
    assert!(root.stray.iter().any(|n| n.as_str() == "r"));
    root.finalize(2);
    assert!(root.txfs, "the stray version directory keeps the subtree");
}

#[test]
fn delete_of_pending_file_records_stray() {
    // deleting a file created by the same transaction drops its record
    // while its version file stays on disk
    let mut root = empty_root(1);
    root.commit(1, true).expect("commit 1");
    let p = name("p");
    root.create_file(2, &p, b"x".to_vec()).expect("create");
    assert_eq!(root.delete(2, &p), Ok(true));
    assert!(root.stray.iter().any(|n| n.as_str() == "p"));
}

#[test]
fn dir_names_and_file_names_partition_entries() {
    let mut root = empty_root(1);
    root.create_dir(1, &name("da")).expect("dir");
    root.create_file(1, &name("fb"), b"1".to_vec()).expect("file");
    root.create_dir(1, &name("dc")).expect("dir");
    root.create_file(1, &name("fd"), b"2".to_vec()).expect("file");

    let dirs = root.dir_names(1).expect("dir names");
    let files = root.file_names(1).expect("file names");
    let mut dn: Vec<&str> = dirs.iter().map(|n| n.as_str()).collect();
    let mut fnames: Vec<&str> = files.iter().map(|n| n.as_str()).collect();
    dn.sort();
    fnames.sort();
    assert_eq!(dn, vec!["da", "dc"]);
    assert_eq!(fnames, vec!["fb", "fd"]);
    assert_eq!(root.len(1), Ok(4));
}

#[test]
fn load_mirrors_scanned_tree() {
    // every non-hidden scanned child is visible with its canonical bytes;
    // hidden children are skipped
    let tree = vec![
        (String::from("a"), FsNode::File(b"alpha".to_vec())),
        (
            String::from("sub"),
            FsNode::Dir(vec![(String::from("b"), FsNode::File(b"beta".to_vec()))]),
        ),
        (String::from(".txfs"), FsNode::Dir(Vec::new())),
    ];
    let mut root = Dir::load(7, &tree).expect("load");
    assert_eq!(root.len(7), Ok(2));
    let g = root.read_file(7, &name("a")).expect("read a");
    assert_eq!(g.bytes, b"alpha".to_vec());
    root.release_file_read(&name("a"), g).expect("release");
    assert_eq!(root.get_dir(7, &name("sub")), Ok(true));
}

#[test]
fn rollback_twice_is_noop() {
    let mut root = empty_root(1);
    root.commit(1, true).expect("commit 1");
    let q = name("q");
    root.create_file(2, &q, b"x".to_vec()).expect("create");
    root.rollback(2, false).expect("first rollback");
    let strays: Vec<String> = root.stray.iter().map(|n| String::from(n.as_str())).collect();
    root.rollback(2, false).expect("second rollback");
    let strays2: Vec<String> = root.stray.iter().map(|n| String::from(n.as_str())).collect();
    assert_eq!(strays, strays2);
    assert_eq!(root.contains(2, &q), Ok(false));
}

#[test]
fn nested_operations_through_paths() {
    // spec scenario: a directory d holding file g, created, committed,
    // rewritten and read entirely through path-addressed operations
    let mut root = empty_root(1);
    let d = name("d");
    let g = name("g");
    root.create_dir(1, &d).expect("create d");
    let below = vec![name("d")];
    root.create_file_at(1, &below, &g, b"inner".to_vec())
        .expect("create d/g");
    let r1 = root.read_file_at(1, &below, &g).expect("read d/g at 1");
    assert_eq!(r1.bytes, b"inner".to_vec());
    root.release_file_read_at(&below, &g, r1).expect("release");
    root.commit(1, true).expect("commit 1");

    let mut w = root.write_file_at(2, &below, &g).expect("write d/g at 2");
    w.set_contents(b"changed".to_vec());
    root.release_file_write_at(&below, &g, w).expect("release write");
    root.commit(2, true).expect("commit 2");

    let r3 = root.read_file_at(3, &below, &g).expect("read d/g at 3");
    assert_eq!(r3.bytes, b"changed".to_vec());
    root.release_file_read_at(&below, &g, r3).expect("release");

    assert_eq!(root.delete_at(4, &below, &g), Ok(true));
    root.commit(4, true).expect("commit 4");
    assert_eq!(
        root.read_file_at(5, &below, &g).expect_err("gone"),
        Error::NotFound
    );
}

#[test]
fn path_descent_errors() {
    let mut root = empty_root(1);
    root.create_file(1, &name("f"), b"x".to_vec()).expect("create f");
    let through_file = vec![name("f")];
    assert_eq!(
        root.create_file_at(1, &through_file, &name("x"), b"y".to_vec())
            .expect_err("a file is no directory"),
        Error::InvalidData
    );
    let missing = vec![name("nowhere")];
    assert_eq!(
        root.read_file_at(1, &missing, &name("x"))
            .expect_err("missing component"),
        Error::NotFound
    );
    let deep = vec![name("nowhere"), name("deeper")];
    assert_eq!(
        root.delete_at(1, &deep, &name("x"))
            .expect_err("missing component"),
        Error::NotFound
    );
}

#[test]
fn finalize_sweeps_deleted_subdirectory() {
    // a committed, finalized, then deleted sub-directory leaves an empty
    // canonical directory behind; finalize records its removal and the
    // version subtree clears with it
    let mut root = empty_root(1);
    let d = name("d");
    root.create_dir(1, &d).expect("create d");
    root.commit(1, true).expect("commit 1");
    root.finalize(1);
    assert!(!root.txfs, "no file ever existed, so no version subtree");

    root.delete(2, &d).expect("delete d");
    root.commit(2, true).expect("commit 2");
    root.finalize(2);
    assert!(root.disk_removed.iter().any(|n| n.as_str() == "d"));
    assert_eq!(root.len(3), Ok(0));
}
