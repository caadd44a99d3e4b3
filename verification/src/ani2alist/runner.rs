//! The decisions of the ANI import: which `UrlTree` storage is updated, what
//! a directory listing adds to the tree, and how storage requests are built.
use vstd::prelude::*;
use crate::alist2strm::config::string_views;
use crate::ani2alist::url_tree::{file_item, upsert_path_items, FileEntry, Item, Tree};
use crate::ani2alist::utils::{
    ani_time_format, current_season, file_url, file_url_spec, is_directory_mime, is_supported_file_mime,
    is_supported_file_mime_spec, join_url, join_url_spec, parse_ani_timestamp, season_key_from_parts,
    season_key_spec, season_month, str_views, template_path_segments, template_segments_spec, AniObject,
    RemoteFile,
};
use crate::outside::{
    json_field_has_float, json_field_text, json_get_str, json_is_object, json_object_with_str, json_set_str, json_str_field,
    naive_utc_timestamp,
};
use crate::text::{
    chars_of, parse_u64, parse_u64_exec, push_all, string_of, to_string, trim, trim_chars,
    trim_end_char, trim_end_char_exec, trim_start_char, trim_start_char_exec, u64_str, nat_str,
};

verus! {

// ---------------------------------------------------------------------------
// Mount paths and path prefixes.
// ---------------------------------------------------------------------------

/// A mount path: `/` and the path without leading or trailing `/`.
pub open spec fn normalize_mount_path_spec(path: Seq<char>) -> Seq<char> {
    seq!['/'] + trim_end_char(trim_start_char(path, '/'), '/')
}

/// The mount path of a target directory.
pub fn normalize_mount_path(path: &str) -> (res: String)
    ensures
        res@ == normalize_mount_path_spec(path@),
{
    let cs = chars_of(path);
    let a = trim_start_char_exec(&cs, '/');
    let b = trim_end_char_exec(&a, '/');
    let mut out = vec!['/'];
    push_all(&mut out, &b);
    assert(out@ =~= seq!['/'] + b@);
    string_of(&out)
}

/// The directories under which the current season is placed: those of the
/// template when it holds more than whitespace, none otherwise.
pub open spec fn latest_path_prefix_spec(template: Option<Seq<char>>, year: i32, month: u32) -> Seq<Seq<char>> {
    match template {
        Some(t) => if trim(t).len() > 0 {
            template_segments_spec(t, year, month)
        } else {
            seq![]
        },
        None => seq![],
    }
}

/// The directories under which the current season is placed.
pub fn latest_path_prefix(template: Option<&str>, year: i32, month: u32) -> (res: Vec<String>)
    ensures
        string_views(res@) == latest_path_prefix_spec(
            match template {
                Some(t) => Some(t@),
                None => None,
            },
            year,
            month,
        ),
{
    match template {
        Some(t) => {
            let cs = chars_of(t);
            let tr = trim_chars(&cs);
            if tr.len() > 0 {
                template_path_segments(t, year, month)
            } else {
                let v: Vec<String> = Vec::new();
                assert(string_views(v@) =~= Seq::<Seq<char>>::empty());
                v
            }
        },
        None => {
            let v: Vec<String> = Vec::new();
            assert(string_views(v@) =~= Seq::<Seq<char>>::empty());
            v
        },
    }
}

// ---------------------------------------------------------------------------
// What a directory listing adds.
// ---------------------------------------------------------------------------

/// The size of a listed file, when it is given and is a number.
pub open spec fn listed_size(obj: AniObject) -> Option<u64> {
    match obj.size {
        Some(s) => parse_u64(s@),
        None => None,
    }
}

/// The modification time of a listed file; 0 when missing or unreadable.
pub open spec fn listed_modified(obj: AniObject) -> i64 {
    match obj.created_time {
        Some(c) => match naive_utc_timestamp(c@, ani_time_format()) {
            Some(t) => t,
            None => 0,
        },
        None => 0,
    }
}

/// A directory to list next: its link and the directories it lies in.
pub struct PendingDir {
    pub url: String,
    pub path: Vec<String>,
}

pub open spec fn pending_view(p: PendingDir) -> (Seq<char>, Seq<Seq<char>>) {
    (p.url@, string_views(p.path@))
}

/// What the listing of the directory `url` (placed at `path`) does to the
/// tree: each supported file with a size is placed below `path`, with its
/// download link; each subdirectory is to be listed next; everything else is
/// skipped.
pub open spec fn listing_spec(
    tree: Seq<Item>,
    url: Seq<char>,
    path: Seq<Seq<char>>,
    objs: Seq<AniObject>,
) -> (Seq<Item>, Seq<(Seq<char>, Seq<Seq<char>>)>)
    decreases objs.len(),
{
    if objs.len() == 0 {
        (tree, seq![])
    } else {
        let (t, dirs) = listing_spec(tree, url, path, objs.drop_last());
        let o = objs.last();
        if is_supported_file_mime_spec(o.mime_type@) {
            match listed_size(o) {
                Some(size) => (
                    upsert_path_items(
                        t,
                        path,
                        Item::File {
                            name: o.name@,
                            size: size,
                            modified: listed_modified(o),
                            url: file_url_spec(url, o.name@),
                        },
                    ),
                    dirs,
                ),
                None => (t, dirs),
            }
        } else if o.mime_type@ == "application/vnd.google-apps.folder"@ {
            (t, dirs.push((join_url_spec(url, seq![o.name@]), path.push(o.name@))))
        } else {
            (t, dirs)
        }
    }
}

/// Whether a listed entry is skipped: a supported file without a readable
/// size, or an entry that is neither a supported file nor a directory.
pub open spec fn is_skipped(o: AniObject) -> bool {
    if is_supported_file_mime_spec(o.mime_type@) {
        listed_size(o) is None
    } else {
        o.mime_type@ != "application/vnd.google-apps.folder"@
    }
}

/// The names of the skipped entries of a listing, in listing order.
pub open spec fn skipped_names(objs: Seq<AniObject>) -> Seq<Seq<char>>
    decreases objs.len(),
{
    if objs.len() == 0 {
        seq![]
    } else if is_skipped(objs.last()) {
        skipped_names(objs.drop_last()).push(objs.last().name@)
    } else {
        skipped_names(objs.drop_last())
    }
}

/// Clones a list of strings.
fn clone_strings(v: &Vec<String>) -> (res: Vec<String>)
    ensures
        string_views(res@) == string_views(v@),
{
    let mut out: Vec<String> = Vec::new();
    let mut i: usize = 0;
    while i < v.len()
        invariant
            i <= v.len(),
            string_views(out@) == string_views(v@).take(i as int),
        decreases v.len() - i,
    {
        let ghost o = string_views(out@);
        out.push(to_string(v[i].as_str()));
        assert(string_views(out@) =~= o.push(v@[i as int]@));
        assert(string_views(v@).take(i + 1) =~= string_views(v@).take(i as int).push(v@[i as int]@));
        i = i + 1;
    }
    assert(string_views(v@).take(v.len() as int) =~= string_views(v@));
    out
}

/// Applies the listing of the directory `url` (placed at `path`) to the tree
/// and returns the subdirectories to list next, in listing order, and the
/// names of the entries that were skipped.
pub fn apply_directory_listing(
    tree: &mut Tree,
    url: &str,
    path: &Vec<String>,
    files: &Vec<AniObject>,
) -> (res: (Vec<PendingDir>, Vec<String>))
    ensures
        ({
            let (t, dirs) = listing_spec(old(tree)@, url@, string_views(path@), files@);
            &&& final(tree)@ == t
            &&& res.0@.map_values(|p: PendingDir| pending_view(p)) == dirs
        }),
        string_views(res.1@) == skipped_names(files@),
{
    let mut dirs: Vec<PendingDir> = Vec::new();
    let mut skipped: Vec<String> = Vec::new();
    let mut i: usize = 0;
    let ghost start = tree@;
    assert(files@.take(0) =~= Seq::<AniObject>::empty());
    assert(dirs@.map_values(|p: PendingDir| pending_view(p)) =~= Seq::<(Seq<char>, Seq<Seq<char>>)>::empty());
    assert(string_views(skipped@) =~= Seq::<Seq<char>>::empty());
    while i < files.len()
        invariant
            i <= files.len(),
            ({
                let (t, d) = listing_spec(start, url@, string_views(path@), files@.take(i as int));
                &&& tree@ == t
                &&& dirs@.map_values(|p: PendingDir| pending_view(p)) == d
            }),
            string_views(skipped@) == skipped_names(files@.take(i as int)),
        decreases files.len() - i,
    {
        assert(files@.take(i + 1).drop_last() =~= files@.take(i as int));
        assert(files@.take(i + 1).last() == files@[i as int]);
        let item = &files[i];
        if is_supported_file_mime(item.mime_type.as_str()) {
            let size = match &item.size {
                Some(s) => {
                    let cs = chars_of(s.as_str());
                    parse_u64_exec(&cs)
                },
                None => None,
            };
            match size {
                Some(size) => {
                    let modified = match &item.created_time {
                        Some(c) => match parse_ani_timestamp(c.as_str()) {
                            Some(t) => t,
                            None => 0,
                        },
                        None => 0,
                    };
                    let entry = FileEntry {
                        name: to_string(item.name.as_str()),
                        size,
                        modified,
                        url: file_url(url, item.name.as_str()),
                    };
                    tree.upsert_path(path.as_slice(), entry);
                },
                None => {
                    let ghost s0 = string_views(skipped@);
                    skipped.push(to_string(item.name.as_str()));
                    assert(string_views(skipped@) =~= s0.push(item.name@));
                },
            }
        } else if is_directory_mime(item.mime_type.as_str()) {
            let segs = [item.name.as_str()];
            let child_url = join_url(url, &segs);
            assert(crate::ani2alist::utils::str_views(segs@) =~= seq![item.name@]);
            let mut child_path = clone_strings(path);
            let ghost cp = string_views(child_path@);
            child_path.push(to_string(item.name.as_str()));
            assert(string_views(child_path@) =~= cp.push(item.name@));
            let ghost d0 = dirs@;
            let pd = PendingDir { url: child_url, path: child_path };
            dirs.push(pd);
            assert(dirs@.map_values(|p: PendingDir| pending_view(p)) =~= d0.map_values(
                |p: PendingDir| pending_view(p),
            ).push(pending_view(pd)));
        } else {
            let ghost s0 = string_views(skipped@);
            skipped.push(to_string(item.name.as_str()));
            assert(string_views(skipped@) =~= s0.push(item.name@));
        }
        i = i + 1;
    }
    assert(files@.take(files.len() as int) =~= files@);
    (dirs, skipped)
}

/// The state of a walk of the ANI directories: the directories still to
/// list, a stack whose last entry is listed next.
pub struct DirectoryWalk {
    pending: Vec<PendingDir>,
}

impl DirectoryWalk {
    pub closed spec fn stack_view(&self) -> Seq<(Seq<char>, Seq<Seq<char>>)> {
        self.pending@.map_values(|p: PendingDir| pending_view(p))
    }

    /// A walk that starts at `root`.
    pub fn new(root: PendingDir) -> (res: DirectoryWalk)
        ensures
            res.stack_view() == seq![pending_view(root)],
    {
        let ghost rv = pending_view(root);
        let mut pending: Vec<PendingDir> = Vec::new();
        pending.push(root);
        let res = DirectoryWalk { pending };
        assert(res.stack_view() =~= seq![rv]);
        res
    }

    /// The next directory to list: the last one found; `None` when the walk
    /// is over.
    pub fn next_dir(&mut self) -> (res: Option<PendingDir>)
        ensures
            old(self).stack_view().len() == 0 ==> res is None && final(self).stack_view() == old(self).stack_view(),
            old(self).stack_view().len() > 0 ==> (res matches Some(d) && pending_view(d) == old(self).stack_view().last()
                && final(self).stack_view() == old(self).stack_view().drop_last()),
    {
        let res = self.pending.pop();
        proof {
            if old(self).pending@.len() > 0 {
                assert(self.stack_view() =~= old(self).stack_view().drop_last());
            } else {
                assert(self.stack_view() =~= old(self).stack_view());
            }
        }
        res
    }

    /// Applies the listing of `dir` to the tree and puts its subdirectories
    /// on the stack, in listing order (so the last one is listed next);
    /// returns the names of the skipped entries.
    pub fn apply_listing(&mut self, tree: &mut Tree, dir: &PendingDir, files: &Vec<AniObject>) -> (res: Vec<String>)
        ensures
            ({
                let (t, dirs) = listing_spec(old(tree)@, dir.url@, string_views(dir.path@), files@);
                &&& final(tree)@ == t
                &&& final(self).stack_view() == old(self).stack_view() + dirs
            }),
            string_views(res@) == skipped_names(files@),
    {
        let (children, skipped) = apply_directory_listing(tree, dir.url.as_str(), &dir.path, files);
        let ghost all = children@;
        let ghost start = self.stack_view();
        let mut children = children;
        let ghost mut done: Seq<PendingDir> = Seq::empty();
        assert(start + done.map_values(|p: PendingDir| pending_view(p)) =~= start);
        while children.len() > 0
            invariant
                all == done + children@,
                self.stack_view() == start + done.map_values(|p: PendingDir| pending_view(p)),
            decreases children.len(),
        {
            let c = children.remove(0);
            let ghost cv = pending_view(c);
            let ghost before = self.pending@;
            self.pending.push(c);
            proof {
                assert(self.pending@ =~= before.push(c));
                assert(self.stack_view() =~= before.map_values(|p: PendingDir| pending_view(p)).push(cv));
                assert(done.push(c).map_values(|p: PendingDir| pending_view(p))
                    =~= done.map_values(|p: PendingDir| pending_view(p)).push(cv));
                done = done.push(c);
            }
        }
        assert(done =~= all);
        skipped
    }
}

/// The tree after placing each file below its directories, in order.
pub open spec fn remote_files_spec(tree: Seq<Item>, files: Seq<RemoteFile>) -> Seq<Item>
    decreases files.len(),
{
    if files.len() == 0 {
        tree
    } else {
        upsert_path_items(
            remote_files_spec(tree, files.drop_last()),
            string_views(files.last().path@),
            file_item(files.last().file),
        )
    }
}

/// Places each file of the RSS feed below its directories, in feed order.
pub fn apply_remote_files(tree: &mut Tree, files: Vec<RemoteFile>)
    ensures
        final(tree)@ == remote_files_spec(old(tree)@, files@),
{
    let ghost start = tree@;
    let ghost fs = files@;
    let mut files = files;
    let mut done: Vec<RemoteFile> = Vec::new();
    assert(done@ =~= fs.take(0));
    while files.len() > 0
        invariant
            fs == done@ + files@,
            tree@ == remote_files_spec(start, done@),
        decreases files.len(),
    {
        let f = files.remove(0);
        let ghost d0 = done@;
        let entry = FileEntry {
            name: to_string(f.file.name.as_str()),
            size: f.file.size,
            modified: f.file.modified,
            url: to_string(f.file.url.as_str()),
        };
        tree.upsert_path(f.path.as_slice(), entry);
        assert(file_item(entry) == file_item(f.file));
        done.push(f);
        assert(done@.drop_last() =~= d0);
    }
    assert(done@ =~= fs);
}

// ---------------------------------------------------------------------------
// Storage requests.
// ---------------------------------------------------------------------------

/// An AList storage as the admin API lists it.
#[derive(Clone, Debug)]
pub struct Storage {
    pub id: u64,
    pub mount_path: String,
    pub order: i64,
    pub driver: String,
    pub cache_expiration: i64,
    pub status: String,
    pub addition: String,
    pub remark: String,
    pub modified: String,
    pub disabled: bool,
    pub enable_sign: bool,
    pub order_by: String,
    pub order_direction: String,
    pub extract_folder: String,
    pub web_proxy: bool,
    pub webdav_policy: String,
    pub down_proxy_url: String,
}

/// A request that creates or updates an AList storage.
#[derive(Clone, Debug)]
pub struct StorageReq {
    pub id: Option<String>,
    pub mount_path: String,
    pub order: Option<i64>,
    pub driver: String,
    pub remark: Option<String>,
    pub cache_expiration: Option<i64>,
    pub status: Option<String>,
    pub web_proxy: bool,
    pub webdav_policy: Option<String>,
    pub down_proxy_url: Option<String>,
    pub order_by: String,
    pub extract_folder: String,
    pub order_direction: String,
    pub addition: String,
    pub enable_sign: bool,
}

pub open spec fn opt_str_is(o: Option<String>, s: Seq<char>) -> bool {
    match o {
        Some(x) => x@ == s,
        None => false,
    }
}

/// The request that creates a `UrlTree` storage at `mount_path`.
pub fn default_url_tree_storage_req(mount_path: &str, addition: String) -> (res: StorageReq)
    ensures
        res.id is None,
        res.mount_path@ == mount_path@,
        res.order == Some(0i64),
        res.driver@ == "UrlTree"@,
        opt_str_is(res.remark, seq![]),
        res.cache_expiration == Some(30i64),
        res.status is None,
        !res.web_proxy,
        opt_str_is(res.webdav_policy, "native_proxy"@),
        opt_str_is(res.down_proxy_url, seq![]),
        res.order_by@ == "name"@,
        res.extract_folder@ == "front"@,
        res.order_direction@ == "asc"@,
        res.addition == addition,
        !res.enable_sign,
{
    let empty: Vec<char> = Vec::new();
    assert(empty@ =~= Seq::<char>::empty());
    StorageReq {
        id: None,
        mount_path: to_string(mount_path),
        order: Some(0),
        driver: to_string("UrlTree"),
        remark: Some(string_of(&empty)),
        cache_expiration: Some(30),
        status: None,
        web_proxy: false,
        webdav_policy: Some(to_string("native_proxy")),
        down_proxy_url: Some(string_of(&empty)),
        order_by: to_string("name"),
        extract_folder: to_string("front"),
        order_direction: to_string("asc"),
        addition,
        enable_sign: false,
    }
}

/// The request that updates an existing storage with a new addition.
pub fn storage_req_from_storage(storage: &Storage, addition: String) -> (res: StorageReq)
    ensures
        opt_str_is(res.id, nat_str(storage.id as nat)),
        res.mount_path@ == storage.mount_path@,
        res.order == Some(storage.order),
        res.driver@ == storage.driver@,
        opt_str_is(res.remark, storage.remark@),
        res.cache_expiration == Some(storage.cache_expiration),
        opt_str_is(res.status, storage.status@),
        res.web_proxy == storage.web_proxy,
        opt_str_is(res.webdav_policy, storage.webdav_policy@),
        opt_str_is(res.down_proxy_url, storage.down_proxy_url@),
        res.order_by@ == storage.order_by@,
        res.extract_folder@ == storage.extract_folder@,
        res.order_direction@ == storage.order_direction@,
        res.addition == addition,
        res.enable_sign == storage.enable_sign,
{
    let id = u64_str(storage.id);
    StorageReq {
        id: Some(string_of(&id)),
        mount_path: to_string(storage.mount_path.as_str()),
        order: Some(storage.order),
        driver: to_string(storage.driver.as_str()),
        remark: Some(to_string(storage.remark.as_str())),
        cache_expiration: Some(storage.cache_expiration),
        status: Some(to_string(storage.status.as_str())),
        web_proxy: storage.web_proxy,
        webdav_policy: Some(to_string(storage.webdav_policy.as_str())),
        down_proxy_url: Some(to_string(storage.down_proxy_url.as_str())),
        order_by: to_string(storage.order_by.as_str()),
        extract_folder: to_string(storage.extract_folder.as_str()),
        order_direction: to_string(storage.order_direction.as_str()),
        addition,
        enable_sign: storage.enable_sign,
    }
}

/// The storage of the list mounted at `target_dir`, if any (the first one).
pub fn find_storage(storages: &Vec<Storage>, target_dir: &str) -> (res: Option<usize>)
    ensures
        match res {
            Some(i) => i < storages@.len() && storages@[i as int].mount_path@ == target_dir@
                && forall|j: int| 0 <= j < i ==> (#[trigger] storages@[j]).mount_path@ != target_dir@,
            None => forall|j: int| 0 <= j < storages@.len() ==> (#[trigger] storages@[j]).mount_path@ != target_dir@,
        },
{
    let mut i: usize = 0;
    while i < storages.len()
        invariant
            i <= storages.len(),
            forall|j: int| 0 <= j < i ==> (#[trigger] storages@[j]).mount_path@ != target_dir@,
        decreases storages.len() - i,
    {
        if crate::text::str_eq(storages[i].mount_path.as_str(), target_dir) {
            return Some(i);
        }
        i = i + 1;
    }
    None
}

// ---------------------------------------------------------------------------
// The addition of a `UrlTree` storage.
// ---------------------------------------------------------------------------

/// The tree text that a storage's addition holds: its `url_structure`
/// string, empty when the addition is no such JSON object.
pub open spec fn url_structure_spec(addition: Seq<char>) -> Seq<char> {
    match json_str_field(addition, "url_structure"@) {
        Some(s) => s,
        None => seq![],
    }
}

/// The tree text held in a storage's addition.
pub fn url_structure_from_addition(addition: &str) -> (res: String)
    ensures
        res@ == url_structure_spec(addition@),
{
    match json_get_str(addition, "url_structure") {
        Some(s) => s,
        None => {
            let empty: Vec<char> = Vec::new();
            assert(empty@ =~= Seq::<char>::empty());
            string_of(&empty)
        },
    }
}

/// The addition with its `url_structure` replaced: the other fields stay
/// when the addition is a JSON object; otherwise an object holding only the
/// structure.
pub open spec fn addition_with_structure_spec(addition: Seq<char>, url_structure: Seq<char>) -> Option<Seq<char>> {
    match json_object_with_str(addition, "url_structure"@, url_structure) {
        Some(r) => Some(r),
        None => json_object_with_str("{}"@, "url_structure"@, url_structure),
    }
}

/// The addition with its `url_structure` replaced; it is always written.
/// Reading the structure back from it gives `url_structure`. When the
/// addition is a JSON object, its other fields read back as before (strings
/// always; any field that holds no float); otherwise the result holds
/// nothing but the structure.
pub fn addition_with_structure(addition: &str, url_structure: &str) -> (res: Option<String>)
    ensures
        res.is_some(),
        res matches Some(r) ==> r@ == addition_with_structure_spec(addition@, url_structure@)->0,
        addition_with_structure_spec(addition@, url_structure@).is_some(),
        res matches Some(r) ==> url_structure_spec(r@) == url_structure@,
        res matches Some(r) ==> json_is_object(r@),
        res matches Some(r) ==> (json_is_object(addition@) ==> forall|k: Seq<char>| k != "url_structure"@ ==> (
            json_str_field(r@, k) == json_str_field(addition@, k)
            && (!json_field_has_float(addition@, k) ==> json_field_text(r@, k) == json_field_text(addition@, k)))),
        res matches Some(r) ==> (!json_is_object(addition@) ==> forall|k: Seq<char>| k != "url_structure"@
            ==> json_field_text(r@, k) is None),
{
    match json_set_str(addition, "url_structure", url_structure) {
        Some(r) => Some(r),
        None => {
            let r = json_set_str("{}", "url_structure", url_structure);
            assert(r.is_some());
            r
        },
    }
}

// ---------------------------------------------------------------------------
// What a run updates.
// ---------------------------------------------------------------------------

/// How a run updates the tree: from the RSS feed, from the directory of the
/// current season (placed under the directories of an optional template),
/// or from the directory of a keyword (placed under a directory of that name).
#[derive(Clone, Debug)]
pub enum UpdateConfig {
    Rss,
    Latest { template: Option<String> },
    Keyword { keyword: String },
}

/// The work of a run: read the RSS feed, or walk the ANI directory `key`
/// from `root`.
pub enum UpdatePlan {
    Rss,
    Directory { key: String, root: PendingDir },
}

/// What a run does for an update setting, at a date given by its year and
/// month: the latest update walks the season's directory, the keyword update
/// the keyword's; the walk starts at the directory's link below `source_url`.
pub open spec fn update_plan_ok(update: UpdateConfig, source_url: Seq<char>, year: i32, month: u32, plan: UpdatePlan) -> bool {
    match update {
        UpdateConfig::Rss => plan is Rss,
        UpdateConfig::Latest { template } => {
            let m = season_month(month);
            let t = match template {
                Some(x) => Some(x@),
                None => None,
            };
            &&& plan matches UpdatePlan::Directory { key, root }
            &&& key@ == season_key_spec(year, m)
            &&& pending_view(root) == (join_url_spec(source_url, seq![key@]), latest_path_prefix_spec(t, year, m))
        },
        UpdateConfig::Keyword { keyword } => {
            &&& plan matches UpdatePlan::Directory { key, root }
            &&& key@ == keyword@
            &&& pending_view(root) == (join_url_spec(source_url, seq![keyword@]), seq![keyword@])
        },
    }
}

/// Decides what a run does, given the ANI source link and today's year and
/// month in the configured time zone.
pub fn update_plan(update: &UpdateConfig, source_url: &str, year: i32, month: u32) -> (res: UpdatePlan)
    ensures
        update_plan_ok(*update, source_url@, year, month, res),
{
    match update {
        UpdateConfig::Rss => UpdatePlan::Rss,
        UpdateConfig::Latest { template } => {
            let (y, m) = current_season(year, month);
            let key = season_key_from_parts(y, m);
            let t: Option<&str> = match template {
                Some(x) => Some(x.as_str()),
                None => None,
            };
            let path = latest_path_prefix(t, y, m);
            let segs = [key.as_str()];
            assert(str_views(segs@) =~= seq![key@]);
            let url = join_url(source_url, &segs);
            UpdatePlan::Directory { key, root: PendingDir { url, path } }
        },
        UpdateConfig::Keyword { keyword } => {
            let segs = [keyword.as_str()];
            assert(str_views(segs@) =~= seq![keyword@]);
            let url = join_url(source_url, &segs);
            let mut path: Vec<String> = Vec::new();
            path.push(to_string(keyword.as_str()));
            assert(string_views(path@) =~= seq![keyword@]);
            UpdatePlan::Directory { key: to_string(keyword.as_str()), root: PendingDir { url, path } }
        },
    }
}

} // verus!
