use todo_store::config::{config_or_default, default_app_config, AppConfig};
use todo_store::fs_model::FsModel;
use todo_store::store::{
    create_todo_folder_at, detail_or_default, load_todos_at, save_todo_detail_at, save_todos_at,
    todo_detail_at, todos_or_empty, TodoItem,
};

fn path(parts: &[&str]) -> Vec<String> {
    parts.iter().map(|s| s.to_string()).collect()
}

#[test]
fn config_defaults() {
    let c = default_app_config("/home/me/.local/share/todo".to_string());
    assert_eq!(c.data_path, "/home/me/.local/share/todo");
    assert_eq!(c.language, "zh-CN");
    assert_eq!(c.theme, "light");
    assert_eq!(c.font_family, "Arial");
    assert_eq!(c.font_size, 14);
    assert_eq!(c.text_color_light, "#333333");
    assert_eq!(c.text_color_dark, "#e5e5e5");
    assert!(!c.launch_at_login);
}

#[test]
fn config_missing_file_yields_defaults() {
    let c = config_or_default(None, "fallback".to_string());
    assert_eq!(c.data_path, "fallback");
    assert_eq!(c.language, "zh-CN");
    assert_eq!(c.theme, "light");
}

#[test]
fn config_parsed_is_kept() {
    let parsed = AppConfig {
        data_path: "d".to_string(),
        language: "en-US".to_string(),
        theme: "dark".to_string(),
        font_family: "Serif".to_string(),
        font_size: 18,
        text_color_light: "#000000".to_string(),
        text_color_dark: "#ffffff".to_string(),
        launch_at_login: true,
    };
    let c = config_or_default(Some(parsed), "unused".to_string());
    assert_eq!(c.language, "en-US");
    assert_eq!(c.theme, "dark");
    assert_eq!(c.font_size, 18);
    assert!(c.launch_at_login);
}

#[test]
fn todos_missing_index_is_empty() {
    let v = todos_or_empty(None);
    assert!(v.is_empty());
}

#[test]
fn todos_parsed_index_is_kept() {
    let items = vec![TodoItem {
        id: "1".to_string(),
        title: "write".to_string(),
        status: "open".to_string(),
        folder_name: "f".to_string(),
    }];
    let v = todos_or_empty(Some(items));
    assert_eq!(v.len(), 1);
    assert_eq!(v[0].title, "write");
    assert_eq!(v[0].status, "open");
}

#[test]
fn detail_missing_is_empty_object() {
    assert_eq!(detail_or_default(None), "{}");
}

#[test]
fn detail_present_is_verbatim() {
    assert_eq!(
        detail_or_default(Some("{\"a\":1}".to_string())),
        "{\"a\":1}"
    );
}

#[test]
fn detail_missing_in_model_is_empty_object() {
    let fs = FsModel::new();
    let d = todo_detail_at(&fs, &path(&["data"]), &"f1".to_string());
    assert_eq!(d, b"{}".to_vec());
}

#[test]
fn detail_roundtrip_in_model() {
    let mut fs = FsModel::new();
    fs.mkdir_p(&path(&["data", "f1"]));
    save_todo_detail_at(&mut fs, &path(&["data"]), &"f1".to_string(), b"{\"x\":2}".to_vec());
    let d = todo_detail_at(&fs, &path(&["data"]), &"f1".to_string());
    assert_eq!(d, b"{\"x\":2}".to_vec());
}

#[test]
fn index_roundtrip_in_model() {
    let mut fs = FsModel::new();
    save_todos_at(&mut fs, &path(&["some", "deep", "dir"]), b"[{\"id\":\"1\"}]".to_vec());
    assert!(fs.has_dir(&path(&["some", "deep", "dir"])));
    let loaded = load_todos_at(&fs, &path(&["some", "deep", "dir"]));
    assert_eq!(loaded, Some(b"[{\"id\":\"1\"}]".to_vec()));
}

#[test]
fn index_missing_in_model() {
    let fs = FsModel::new();
    assert_eq!(load_todos_at(&fs, &path(&["data"])), None);
}

#[test]
fn folder_creation_yields_empty_assets() {
    let mut fs = FsModel::new();
    let name = create_todo_folder_at(&mut fs, &path(&["data"]));
    let folder = path(&["data", &name]);
    let assets = path(&["data", &name, "assets"]);
    assert!(fs.has_dir(&folder));
    assert!(fs.has_dir(&assets));
    // the new folder holds nothing but its empty assets directory
    assert!(!fs.contains_path(&path(&["data", &name, "content.json"])));
}

#[test]
fn folder_name_is_hyphenated_identifier() {
    let mut fs = FsModel::new();
    let name = create_todo_folder_at(&mut fs, &path(&["d"]));
    let chars: Vec<char> = name.chars().collect();
    assert_eq!(chars.len(), 36);
    for (i, c) in chars.iter().enumerate() {
        if i == 8 || i == 13 || i == 18 || i == 23 {
            assert_eq!(*c, '-');
        } else {
            assert!(c.is_ascii_hexdigit() && !c.is_ascii_uppercase());
        }
    }
}

#[test]
fn folder_names_are_fresh() {
    let mut fs = FsModel::new();
    let a = create_todo_folder_at(&mut fs, &path(&["d"]));
    let b = create_todo_folder_at(&mut fs, &path(&["d"]));
    assert_ne!(a, b);
    assert!(fs.has_dir(&path(&["d", &a, "assets"])));
    assert!(fs.has_dir(&path(&["d", &b, "assets"])));
}
