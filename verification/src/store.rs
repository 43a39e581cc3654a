//! The todo stores: the index of todo summaries, the per-todo detail
//! document, and todo-folder creation.
//!
//! Reads are "soft": a missing or unparsable index or detail is replaced
//! by a default, never by an error. Writes state their exact effect on the
//! filesystem model.

use vstd::prelude::*;
use crate::fs_model::dirs_along;
use crate::fs_model::Ent;
use crate::fs_model::FsModel;
use crate::fs_model::NodeKind;
use crate::paths::is_under;
use crate::paths::path_push;

verus! {

/// One todo summary, as it stands in the index file.
pub struct TodoItem {
    pub id: String,
    pub title: String,
    pub status: String,
    pub folder_name: String,
}

/// The name of the index file inside the data directory.
pub open spec fn index_file_name() -> Seq<char> {
    "todos.json"@
}

/// The name of the detail document inside a todo folder.
pub open spec fn detail_file_name() -> Seq<char> {
    "content.json"@
}

/// The name of the asset subdirectory inside a todo folder.
pub open spec fn assets_dir_name() -> Seq<char> {
    "assets"@
}

/// The detail returned for a folder with no detail document.
pub open spec fn default_detail_bytes() -> Seq<u8> {
    "{}"@.map_values(|c: char| c as u8)
}

/// The soft-read policy for the todo index: a parsed index is returned as
/// it is, and a missing or unparsable file (`None`) becomes the empty
/// sequence, never an error.
pub fn todos_or_empty(parsed: Option<Vec<TodoItem>>) -> (r: Vec<TodoItem>)
    ensures
        match parsed {
            Some(v) => r == v,
            None => r@ =~= Seq::<TodoItem>::empty(),
        },
{
    match parsed {
        Some(v) => v,
        None => Vec::new(),
    }
}

/// The soft-read policy for a todo's detail: present content is returned
/// verbatim, and a missing document becomes the literal `{}`, never an
/// error.
pub fn detail_or_default(read: Option<String>) -> (r: String)
    ensures
        match read {
            Some(c) => r == c,
            None => r@ == "{}"@,
        },
{
    match read {
        Some(c) => c,
        None => String::from_str("{}"),
    }
}

/// Writes the serialized todo index below `data_path`, creating the data
/// directory (and its parents) if needed.
pub fn save_todos_at(fs: &mut FsModel, data_path: &Vec<String>, index_bytes: Vec<u8>)
    requires
        old(fs).wf(),
    ensures
        final(fs).wf(),
        final(fs)@ == old(fs)@.union_prefer_right(
            dirs_along(old(fs)@, data_path.deep_view()),
        ).insert(data_path.deep_view().push(index_file_name()), Ent::File(index_bytes@)),
{
    fs.mkdir_p(data_path);
    let name = String::from_str("todos.json");
    let p = path_push(data_path, &name);
    fs.put(&p, NodeKind::File(index_bytes));
}

/// The serialized todo index below `data_path`, if a file stands there.
pub fn load_todos_at(fs: &FsModel, data_path: &Vec<String>) -> (r: Option<Vec<u8>>)
    requires
        fs.wf(),
    ensures
        ({
            let p = data_path.deep_view().push(index_file_name());
            match r {
                Some(d) => fs@.dom().contains(p) && fs@[p] == Ent::File(d@),
                None => !fs@.dom().contains(p) || fs@[p] is Dir,
            }
        }),
{
    let name = String::from_str("todos.json");
    let p = path_push(data_path, &name);
    fs.read_file(&p)
}

/// Writes a todo's detail document verbatim into its folder.
pub fn save_todo_detail_at(
    fs: &mut FsModel,
    data_path: &Vec<String>,
    folder_name: &String,
    content: Vec<u8>,
)
    requires
        old(fs).wf(),
    ensures
        final(fs).wf(),
        final(fs)@ == old(fs)@.insert(
            data_path.deep_view().push(folder_name@).push(detail_file_name()),
            Ent::File(content@),
        ),
{
    let folder = path_push(data_path, folder_name);
    let name = String::from_str("content.json");
    let p = path_push(&folder, &name);
    fs.put(&p, NodeKind::File(content));
}

/// A todo's detail document: its bytes when the document stands in the
/// folder, and the literal `{}` when it does not.
pub fn todo_detail_at(fs: &FsModel, data_path: &Vec<String>, folder_name: &String) -> (r: Vec<u8>)
    requires
        fs.wf(),
    ensures
        ({
            let p = data_path.deep_view().push(folder_name@).push(detail_file_name());
            if fs@.dom().contains(p) && fs@[p] is File {
                Ent::File(r@) == fs@[p]
            } else {
                r@ == default_detail_bytes()
            }
        }),
{
    let folder = path_push(data_path, folder_name);
    let name = String::from_str("content.json");
    let p = path_push(&folder, &name);
    match fs.read_file(&p) {
        Some(d) => d,
        None => {
            let mut v: Vec<u8> = Vec::new();
            v.push(123u8);
            v.push(125u8);
            proof {
                reveal_strlit("{}");
                assert(v@ =~= default_detail_bytes());
            }
            v
        },
    }
}

/// A lowercase hexadecimal digit.
pub open spec fn is_lower_hex_char(c: char) -> bool {
    (48 <= c as u32 && c as u32 <= 57) || (97 <= c as u32 && c as u32 <= 102)
}

/// The shape of a hyphenated identifier: 36 characters, `-` at positions
/// 8, 13, 18 and 23, lowercase hexadecimal everywhere else.
pub open spec fn is_folder_name(s: Seq<char>) -> bool {
    &&& s.len() == 36
    &&& forall|i: int|
        0 <= i < 36 ==> if i == 8 || i == 13 || i == 18 || i == 23 {
            s[i] == '-'
        } else {
            is_lower_hex_char(#[trigger] s[i])
        }
}

/// Relies on `uuid::Uuid::new_v4` and the `Display` form of `Uuid`: a
/// random identifier rendered as 36 characters of lowercase hexadecimal
/// with `-` at positions 8, 13, 18 and 23. Nothing beyond this shape can
/// be promised of a random identifier.
#[verifier::external_body]
fn fresh_uuid_string() -> (s: String)
    ensures
        is_folder_name(s@),
{
    uuid::Uuid::new_v4().to_string()
}

/// What creating a todo folder named `name` does to the filesystem: the
/// folder's directory chain is created, then its `assets` subdirectory.
pub open spec fn create_folder_effect(
    m: Map<Seq<Seq<char>>, Ent>,
    data_path: Seq<Seq<char>>,
    name: Seq<char>,
) -> Map<Seq<Seq<char>>, Ent> {
    let folder = data_path.push(name);
    let m1 = m.union_prefer_right(dirs_along(m, folder));
    m1.union_prefer_right(dirs_along(m1, folder.push(assets_dir_name())))
}

/// Creates a fresh todo folder below `data_path`: a new randomly named
/// directory with an `assets` subdirectory, both created with any missing
/// parents. Returns the folder's name.
pub fn create_todo_folder_at(fs: &mut FsModel, data_path: &Vec<String>) -> (name: String)
    requires
        old(fs).wf(),
    ensures
        final(fs).wf(),
        is_folder_name(name@),
        final(fs)@ == create_folder_effect(old(fs)@, data_path.deep_view(), name@),
{
    let name = fresh_uuid_string();
    let folder = path_push(data_path, &name);
    fs.mkdir_p(&folder);
    let assets_name = String::from_str("assets");
    let assets = path_push(&folder, &assets_name);
    fs.mkdir_p(&assets);
    name
}

/// Freshly created todo folders are exactly a directory holding one empty
/// `assets` subdirectory: when nothing stood at or below the folder path,
/// the folder and its `assets` directory exist afterwards, `assets` is
/// empty, and the folder holds nothing else.
pub proof fn lemma_create_folder_fresh(
    m: Map<Seq<Seq<char>>, Ent>,
    data_path: Seq<Seq<char>>,
    name: Seq<char>,
)
    requires
        forall|k: Seq<Seq<char>>| #[trigger] m.dom().contains(k) ==> !(k.len()
            > data_path.len() && k.take(data_path.len() as int + 1) == data_path.push(name)),
    ensures
        ({
            let folder = data_path.push(name);
            let assets = folder.push(assets_dir_name());
            let r = create_folder_effect(m, data_path, name);
            &&& r.dom().contains(folder) && r[folder] == Ent::Dir
            &&& r.dom().contains(assets) && r[assets] == Ent::Dir
            &&& forall|k: Seq<Seq<char>>| is_under(k, assets) ==> !r.dom().contains(k)
            &&& forall|k: Seq<Seq<char>>|
                is_under(k, folder) && k != assets ==> !r.dom().contains(k)
        }),
{
    let folder = data_path.push(name);
    let assets = folder.push(assets_dir_name());
    let r = create_folder_effect(m, data_path, name);
    let m1 = m.union_prefer_right(dirs_along(m, folder));
    assert(!m.dom().contains(folder)) by {
        if m.dom().contains(folder) {
            assert(folder.take(data_path.len() as int + 1) =~= folder);
        }
    }
    assert(dirs_along(m, folder).dom().contains(folder)) by {
        assert(folder.take(folder.len() as int) =~= folder);
    }
    assert(!m1.dom().contains(assets)) by {
        if m.dom().contains(assets) {
            assert(assets.take(data_path.len() as int + 1) =~= folder);
        }
    }
    assert(dirs_along(m1, assets).dom().contains(assets)) by {
        assert(assets.take(assets.len() as int) =~= assets);
    }
    assert(r[folder] == Ent::Dir);
    assert(r[assets] == Ent::Dir);
    assert forall|k: Seq<Seq<char>>| is_under(k, folder) && k != assets implies !r.dom().contains(
        k,
    ) by {
        assert(!m.dom().contains(k)) by {
            if m.dom().contains(k) {
                assert(k.take(data_path.len() as int + 1) =~= k.take(folder.len() as int));
                assert(k.take(folder.len() as int) =~= folder);
            }
        }
        assert(!dirs_along(m, folder).dom().contains(k));
        assert(!dirs_along(m1, assets).dom().contains(k)) by {
            if dirs_along(m1, assets).dom().contains(k) {
                assert(k.len() <= assets.len());
                assert(k.len() == assets.len());
                assert(k =~= assets.take(k.len() as int));
                assert(assets.take(assets.len() as int) =~= assets);
            }
        }
    }
    assert forall|k: Seq<Seq<char>>| is_under(k, assets) implies !r.dom().contains(k) by {
        assert(is_under(k, folder)) by {
            assert(k.take(folder.len() as int) =~= k.take(assets.len() as int).take(
                folder.len() as int,
            ));
            assert(k.take(assets.len() as int).take(folder.len() as int) =~= assets.take(
                folder.len() as int,
            ));
            assert(assets.take(folder.len() as int) =~= folder);
        }
        assert(k != assets);
    }
}

} // verus!
