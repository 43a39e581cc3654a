use todo_store::fs_model::{FsModel, NodeKind};
use todo_store::relocate::relocation_is_noop;

fn path(parts: &[&str]) -> Vec<String> {
    parts.iter().map(|s| s.to_string()).collect()
}

fn file(bytes: &[u8]) -> NodeKind {
    NodeKind::File(bytes.to_vec())
}

/// A populated old root: config.json, the index, and one todo folder with
/// a detail file and an asset.
fn populated(old_root: &[&str]) -> FsModel {
    let mut fs = FsModel::new();
    let root: Vec<String> = path(old_root);
    fs.mkdir_p(&root);
    let mut cfg = old_root.to_vec();
    cfg.push("config.json");
    fs.put(&path(&cfg), file(b"{\"theme\":\"light\"}"));
    let mut idx = old_root.to_vec();
    idx.push("todos.json");
    fs.put(&path(&idx), file(b"[]"));
    let mut folder = old_root.to_vec();
    folder.push("7b4c");
    fs.mkdir_p(&path(&folder));
    let mut detail = folder.clone();
    detail.push("content.json");
    fs.put(&path(&detail), file(b"{\"body\":\"hi\"}"));
    let mut assets = folder.clone();
    assets.push("assets");
    fs.mkdir_p(&path(&assets));
    let mut img = assets.clone();
    img.push("img.png");
    fs.put(&path(&img), file(b"PNGDATA"));
    fs
}

#[test]
fn noop_same_roots() {
    let mut fs = populated(&["data"]);
    fs.relocate(&path(&["data"]), &path(&["data"]));
    assert!(fs.read_file(&path(&["data", "todos.json"])).is_some());
    assert!(fs.read_file(&path(&["data", "config.json"])).is_some());
    assert!(fs.has_dir(&path(&["data", "7b4c", "assets"])));
}

#[test]
fn noop_empty_old_root() {
    let mut fs = populated(&["data"]);
    fs.relocate(&path(&[]), &path(&["elsewhere"]));
    assert!(fs.read_file(&path(&["data", "todos.json"])).is_some());
    assert!(!fs.contains_path(&path(&["elsewhere"])));
}

#[test]
fn noop_empty_new_root() {
    let mut fs = populated(&["data"]);
    fs.relocate(&path(&["data"]), &path(&[]));
    assert!(fs.read_file(&path(&["data", "todos.json"])).is_some());
    assert!(fs.has_dir(&path(&["data", "7b4c"])));
}

#[test]
fn noop_missing_old_root() {
    let mut fs = populated(&["data"]);
    fs.relocate(&path(&["missing"]), &path(&["new"]));
    assert!(fs.read_file(&path(&["data", "todos.json"])).is_some());
    assert!(!fs.contains_path(&path(&["new"])));
}

#[test]
fn noop_decision_on_raw_paths() {
    let a = "C:/data".to_string();
    let b = "C:/new".to_string();
    let empty = String::new();
    assert!(relocation_is_noop(&a, &a, true));
    assert!(relocation_is_noop(&empty, &b, true));
    assert!(relocation_is_noop(&a, &empty, true));
    assert!(relocation_is_noop(&a, &b, false));
    assert!(!relocation_is_noop(&a, &b, true));
}

#[test]
fn excludes_config() {
    let mut fs = FsModel::new();
    fs.mkdir_p(&path(&["old"]));
    fs.put(&path(&["old", "config.json"]), file(b"cfg"));
    fs.mkdir_p(&path(&["old", "a"]));
    fs.put(&path(&["old", "a", "file.txt"]), file(b"text"));
    fs.relocate(&path(&["old"]), &path(&["new"]));
    assert!(!fs.contains_path(&path(&["new", "config.json"])));
    assert_eq!(fs.read_file(&path(&["old", "config.json"])), Some(b"cfg".to_vec()));
    assert_eq!(fs.read_file(&path(&["new", "a", "file.txt"])), Some(b"text".to_vec()));
    assert!(!fs.contains_path(&path(&["old", "a"])));
    assert!(!fs.contains_path(&path(&["old", "a", "file.txt"])));
}

#[test]
fn nested_directories_reproduced() {
    let mut fs = populated(&["data"]);
    fs.relocate(&path(&["data"]), &path(&["moved"]));
    assert!(fs.has_dir(&path(&["moved", "7b4c"])));
    assert!(fs.has_dir(&path(&["moved", "7b4c", "assets"])));
    assert_eq!(
        fs.read_file(&path(&["moved", "7b4c", "assets", "img.png"])),
        Some(b"PNGDATA".to_vec())
    );
    assert_eq!(
        fs.read_file(&path(&["moved", "7b4c", "content.json"])),
        Some(b"{\"body\":\"hi\"}".to_vec())
    );
    assert_eq!(fs.read_file(&path(&["moved", "todos.json"])), Some(b"[]".to_vec()));
    assert!(!fs.contains_path(&path(&["data", "7b4c"])));
    assert!(!fs.contains_path(&path(&["data", "7b4c", "assets", "img.png"])));
    assert!(!fs.contains_path(&path(&["data", "todos.json"])));
    // the old root itself and its config stay
    assert!(fs.has_dir(&path(&["data"])));
    assert!(fs.read_file(&path(&["data", "config.json"])).is_some());
}

#[test]
fn rerun_after_success_changes_nothing() {
    let mut fs = populated(&["data"]);
    fs.relocate(&path(&["data"]), &path(&["moved"]));
    fs.relocate(&path(&["data"]), &path(&["moved"]));
    assert_eq!(
        fs.read_file(&path(&["moved", "7b4c", "assets", "img.png"])),
        Some(b"PNGDATA".to_vec())
    );
    assert_eq!(fs.read_file(&path(&["moved", "todos.json"])), Some(b"[]".to_vec()));
    assert!(fs.read_file(&path(&["data", "config.json"])).is_some());
    assert!(!fs.contains_path(&path(&["data", "todos.json"])));
}

#[test]
fn resume_after_partial_move() {
    // the index was already copied and deleted; the todo folder was copied
    // but its original not yet removed; re-running converges
    let mut partial = FsModel::new();
    partial.mkdir_p(&path(&["data"]));
    partial.put(&path(&["data", "config.json"]), file(b"cfg"));
    partial.mkdir_p(&path(&["moved"]));
    partial.put(&path(&["moved", "todos.json"]), file(b"[]"));
    partial.mkdir_p(&path(&["data", "7b4c"]));
    partial.put(&path(&["data", "7b4c", "content.json"]), file(b"{}"));
    partial.mkdir_p(&path(&["moved", "7b4c"]));
    partial.put(&path(&["moved", "7b4c", "content.json"]), file(b"{}"));
    partial.relocate(&path(&["data"]), &path(&["moved"]));

    let mut whole = FsModel::new();
    whole.mkdir_p(&path(&["data"]));
    whole.put(&path(&["data", "config.json"]), file(b"cfg"));
    whole.put(&path(&["data", "todos.json"]), file(b"[]"));
    whole.mkdir_p(&path(&["data", "7b4c"]));
    whole.put(&path(&["data", "7b4c", "content.json"]), file(b"{}"));
    whole.relocate(&path(&["data"]), &path(&["moved"]));

    for fs in [&partial, &whole] {
        assert_eq!(fs.read_file(&path(&["moved", "todos.json"])), Some(b"[]".to_vec()));
        assert_eq!(
            fs.read_file(&path(&["moved", "7b4c", "content.json"])),
            Some(b"{}".to_vec())
        );
        assert_eq!(fs.read_file(&path(&["data", "config.json"])), Some(b"cfg".to_vec()));
        assert!(!fs.contains_path(&path(&["data", "todos.json"])));
        assert!(!fs.contains_path(&path(&["data", "7b4c"])));
        assert!(!fs.contains_path(&path(&["data", "7b4c", "content.json"])));
    }
}

#[test]
fn overwrites_stale_copies_at_target() {
    let mut fs = FsModel::new();
    fs.mkdir_p(&path(&["old"]));
    fs.put(&path(&["old", "todos.json"]), file(b"fresh"));
    fs.mkdir_p(&path(&["new"]));
    fs.put(&path(&["new", "todos.json"]), file(b"stale"));
    fs.relocate(&path(&["old"]), &path(&["new"]));
    assert_eq!(fs.read_file(&path(&["new", "todos.json"])), Some(b"fresh".to_vec()));
    assert!(!fs.contains_path(&path(&["old", "todos.json"])));
}

#[test]
fn creates_new_root_with_parents() {
    let mut fs = FsModel::new();
    fs.mkdir_p(&path(&["old"]));
    fs.put(&path(&["old", "todos.json"]), file(b"[]"));
    fs.relocate(&path(&["old"]), &path(&["a", "b", "c"]));
    assert!(fs.has_dir(&path(&["a"])));
    assert!(fs.has_dir(&path(&["a", "b"])));
    assert!(fs.has_dir(&path(&["a", "b", "c"])));
    assert_eq!(fs.read_file(&path(&["a", "b", "c", "todos.json"])), Some(b"[]".to_vec()));
}
